//! Tests for the reply helper, the self-contained echo step, and the
//! newline-framing writer.

use rustcurrent::newline_writer::AddNewlineWriter;
use rustcurrent::nodes::EchoNode;
use rustcurrent::protocol::{Body, Message, Payload};

fn echo_msg(src: &str, dst: &str, text: &str, id: Option<usize>, to: Option<usize>) -> Message {
    Message {
        src: src.as_bytes().to_vec(),
        dst: dst.as_bytes().to_vec(),
        body: Body {
            payload: Payload::Echo {
                echo: text.as_bytes().to_vec(),
            },
            id,
            to,
        },
    }
}

#[test]
fn print_out() {
    let mut out: Vec<u8> = Vec::new();
    let mut node = EchoNode { id: 0 };

    let input = echo_msg("n1", "n2", "Hi", Some(1), Some(2));

    node.step(input, &mut out).expect("Node step function failed");
}

#[test]
fn sync_step_answers_echo_with_echo_ok() {
    let mut out: Vec<u8> = Vec::new();
    let mut node = EchoNode { id: 0 };
    node.step(echo_msg("n1", "n2", "Hi", Some(1), Some(2)), &mut out)
        .expect("echo is answered");
    assert_eq!(node.id, 1);
    assert_eq!(
        out,
        br#"{"src":"n2","dest":"n1","body":{"type":"echo_ok","echo":"Hi","msg_id":0,"in_reply_to":1}}
"#
        .to_vec()
    );
}

#[test]
fn sync_step_answers_init_itself() {
    let mut out: Vec<u8> = Vec::new();
    let mut node = EchoNode { id: 0 };
    let input = Message {
        src: b"c1".to_vec(),
        dst: b"n1".to_vec(),
        body: Body {
            payload: Payload::Init {
                node_id: b"n1".to_vec(),
                node_ids: vec![b"n1".to_vec()],
            },
            id: Some(1),
            to: None,
        },
    };
    node.step(input, &mut out).expect("init is answered");
    assert_eq!(node.id, 1);
    assert_eq!(
        out,
        br#"{"src":"n1","dest":"c1","body":{"type":"init_ok","msg_id":0,"in_reply_to":1}}
"#
        .to_vec()
    );
}

#[test]
fn sync_step_fails_on_received_init_ok() {
    let mut out: Vec<u8> = Vec::new();
    let mut node = EchoNode { id: 3 };
    let input = Message {
        src: b"c1".to_vec(),
        dst: b"n1".to_vec(),
        body: Body {
            payload: Payload::InitOk,
            id: None,
            to: Some(1),
        },
    };
    assert!(node.step(input, &mut out).is_err());
    assert!(out.is_empty());
}

#[test]
fn sync_step_ignores_received_echo_ok() {
    let mut out: Vec<u8> = Vec::new();
    let mut node = EchoNode { id: 3 };
    let input = Message {
        src: b"c1".to_vec(),
        dst: b"n1".to_vec(),
        body: Body {
            payload: Payload::EchoOk {
                echo: b"x".to_vec(),
            },
            id: Some(4),
            to: Some(2),
        },
    };
    node.step(input, &mut out).expect("a reply is ignored");
    assert_eq!(node.id, 3);
    assert!(out.is_empty());
}

#[test]
fn into_reply_inverts_addressing_and_correlates() {
    let m = echo_msg("c1", "n1", "hello", Some(7), None);
    let mut counter: usize = 3;
    let reply = m.into_reply(&mut counter);
    assert_eq!(reply.src, b"n1".to_vec());
    assert_eq!(reply.dst, b"c1".to_vec());
    assert_eq!(reply.body.to, Some(7));
    assert_eq!(reply.body.id, Some(3));
    assert_eq!(
        reply.body.payload,
        Payload::Echo {
            echo: b"hello".to_vec()
        }
    );
    assert_eq!(counter, 4);
}

#[test]
fn into_reply_stamps_consecutive_ids() {
    let mut counter: usize = 1;
    let mut stamped: Vec<usize> = Vec::new();
    for k in 0..4 {
        let m = echo_msg("c1", "n1", "x", Some(k + 10), None);
        let reply = m.into_reply(&mut counter);
        stamped.push(reply.body.id.expect("a stamped reply has an id"));
    }
    assert_eq!(stamped, vec![1, 2, 3, 4]);
    assert_eq!(counter, 5);
}

#[test]
fn reply_swaps_addressing_and_carries_the_new_payload() {
    let m = echo_msg("c1", "n1", "hello", Some(7), None);
    let mut counter: usize = 1;
    let reply = m.reply(
        &mut counter,
        Payload::EchoOk {
            echo: b"hello".to_vec(),
        },
    );
    assert_eq!(reply.src, b"n1".to_vec());
    assert_eq!(reply.dst, b"c1".to_vec());
    assert_eq!(reply.body.to, Some(7));
    assert_eq!(reply.body.id, Some(1));
    assert_eq!(
        reply.body.payload,
        Payload::EchoOk {
            echo: b"hello".to_vec()
        }
    );
    assert_eq!(counter, 2);
}

#[test]
fn into_reply_unnumbered_stamps_nothing() {
    let m = echo_msg("c1", "n1", "hello", Some(7), Some(2));
    let reply = m.into_reply_unnumbered();
    assert_eq!(reply.src, b"n1".to_vec());
    assert_eq!(reply.dst, b"c1".to_vec());
    assert_eq!(reply.body.to, Some(7));
    assert_eq!(reply.body.id, None);
}

#[test]
fn newline_writer_frames_records() {
    let mut w = AddNewlineWriter::new();
    w.write_all(b"abc");
    w.write_all(b"");
    w.add_newline();
    let n = w.write(b"ignored");
    assert_eq!(n, 1);
    w.flush();
    assert_eq!(w.inner, b"abc\n\n\n".to_vec());
}
