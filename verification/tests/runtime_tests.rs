//! Tests for the runtime: the handshake, the whole-run scenarios, the
//! failure paths, and the event queue's ordering guarantee.

use rustcurrent::decode::decode;
use rustcurrent::nodes::{EchoNode, UniqueNode};
use rustcurrent::protocol::Payload;
use rustcurrent::runtime::{handle_init_line, main_loop, EventQueue, RunError};

const INIT_LINE: &[u8] =
    br#"{"src":"c1","dest":"n1","body":{"type":"init","msg_id":1,"node_id":"n1","node_ids":["n1"]}}"#;
const ECHO_LINE: &[u8] =
    br#"{"src":"c1","dest":"n1","body":{"type":"echo","msg_id":2,"echo":"hello"}}"#;

const INIT_OK_LINE: &[u8] =
    br#"{"src":"n1","dest":"c1","body":{"type":"init_ok","msg_id":0,"in_reply_to":1}}"#;
const ECHO_OK_LINE: &[u8] =
    br#"{"src":"n1","dest":"c1","body":{"type":"echo_ok","echo":"hello","msg_id":1,"in_reply_to":2}}"#;

fn lines(input: &[&[u8]]) -> Vec<Vec<u8>> {
    input.iter().map(|l| l.to_vec()).collect()
}

fn output_lines(out: &[u8]) -> Vec<Vec<u8>> {
    assert!(
        out.is_empty() || out.last() == Some(&b'\n'),
        "output ends mid-record"
    );
    out.split(|b| *b == b'\n')
        .filter(|l| !l.is_empty())
        .map(|l| l.to_vec())
        .collect()
}

#[test]
fn handshake_builds_the_owed_reply() {
    let (init, reply) = handle_init_line(INIT_LINE).expect("a well-formed init line");
    assert_eq!(init.node_id, b"n1".to_vec());
    assert_eq!(init.node_ids, vec![b"n1".to_vec()]);
    assert_eq!(reply.src, b"n1".to_vec());
    assert_eq!(reply.dst, b"c1".to_vec());
    assert_eq!(reply.body.payload, Payload::InitOk);
    assert_eq!(reply.body.id, Some(0));
    assert_eq!(reply.body.to, Some(1));
}

#[test]
fn handshake_rejects_non_init_first_message() {
    assert_eq!(handle_init_line(ECHO_LINE), Err(RunError::Protocol));
    assert_eq!(handle_init_line(b"garbage"), Err(RunError::Decode));
}

#[test]
fn echo_scenario_emits_exactly_two_lines() {
    let mut out: Vec<u8> = Vec::new();
    let r = main_loop::<(), (), EchoNode>((), &lines(&[INIT_LINE, ECHO_LINE]), &mut out);
    assert_eq!(r, Ok(()));
    let got = output_lines(&out);
    assert_eq!(got.len(), 2);
    assert_eq!(got[0], INIT_OK_LINE.to_vec());
    assert_eq!(got[1], ECHO_OK_LINE.to_vec());
}

#[test]
fn first_emitted_line_is_a_valid_init_ok() {
    let mut out: Vec<u8> = Vec::new();
    let r = main_loop::<(), (), EchoNode>((), &lines(&[INIT_LINE, ECHO_LINE]), &mut out);
    assert_eq!(r, Ok(()));
    let got = output_lines(&out);
    let first = decode(&got[0]).expect("the first emitted line decodes");
    assert_eq!(first.body.payload, Payload::InitOk);
    assert_eq!(first.body.id, Some(0));
    assert_eq!(first.body.to, Some(1));
}

#[test]
fn emitted_ids_count_up_from_one_gap_free() {
    let mut input = vec![INIT_LINE.to_vec()];
    for k in 0..5 {
        input.push(
            format!(
                r#"{{"src":"c1","dest":"n1","body":{{"type":"echo","msg_id":{},"echo":"e{}"}}}}"#,
                k + 2,
                k
            )
            .into_bytes(),
        );
    }
    let mut out: Vec<u8> = Vec::new();
    let r = main_loop::<(), (), EchoNode>((), &input, &mut out);
    assert_eq!(r, Ok(()));
    let got = output_lines(&out);
    assert_eq!(got.len(), 6);
    for (k, line) in got.iter().skip(1).enumerate() {
        let m = decode(line).expect("every emitted line decodes");
        assert_eq!(m.body.id, Some(k + 1));
    }
}

#[test]
fn second_init_is_a_protocol_violation_with_no_further_output() {
    let mut out: Vec<u8> = Vec::new();
    let r = main_loop::<(), (), EchoNode>((), &lines(&[INIT_LINE, INIT_LINE]), &mut out);
    assert_eq!(r, Err(RunError::Protocol));
    let got = output_lines(&out);
    assert_eq!(got.len(), 1, "no output after the violation");
    assert_eq!(got[0], INIT_OK_LINE.to_vec());
}

#[test]
fn stray_init_ok_is_a_protocol_violation() {
    let mut out: Vec<u8> = Vec::new();
    let r = main_loop::<(), (), EchoNode>((), &lines(&[INIT_LINE, INIT_OK_LINE]), &mut out);
    assert_eq!(r, Err(RunError::Protocol));
    assert_eq!(output_lines(&out).len(), 1);
}

#[test]
fn stream_end_terminates_cleanly() {
    let mut out: Vec<u8> = Vec::new();
    let r = main_loop::<(), (), EchoNode>((), &lines(&[INIT_LINE]), &mut out);
    assert_eq!(r, Ok(()));
    let got = output_lines(&out);
    assert_eq!(got.len(), 1);
    assert_eq!(got[0], INIT_OK_LINE.to_vec());
    assert_eq!(out.last(), Some(&b'\n'), "no trailing partial line");
}

#[test]
fn empty_input_is_a_protocol_violation() {
    let mut out: Vec<u8> = Vec::new();
    let r = main_loop::<(), (), EchoNode>((), &Vec::new(), &mut out);
    assert_eq!(r, Err(RunError::Protocol));
    assert!(out.is_empty());
}

#[test]
fn malformed_first_line_is_a_decode_failure() {
    let mut out: Vec<u8> = Vec::new();
    let r = main_loop::<(), (), EchoNode>((), &lines(&[b"{oops"]), &mut out);
    assert_eq!(r, Err(RunError::Decode));
    assert!(out.is_empty());
}

#[test]
fn malformed_later_line_is_a_decode_failure_after_the_handshake() {
    let mut out: Vec<u8> = Vec::new();
    let r = main_loop::<(), (), EchoNode>((), &lines(&[INIT_LINE, b"{oops"]), &mut out);
    assert_eq!(r, Err(RunError::Decode));
    assert_eq!(output_lines(&out).len(), 1);
}

#[test]
fn foreign_payload_is_a_step_failure_for_the_echo_node() {
    let generate =
        br#"{"src":"c1","dest":"n1","body":{"type":"generate","msg_id":2,"in_reply_to":null}}"#;
    let mut out: Vec<u8> = Vec::new();
    let r = main_loop::<(), (), EchoNode>((), &lines(&[INIT_LINE, generate]), &mut out);
    assert_eq!(r, Err(RunError::Step));
    assert_eq!(output_lines(&out).len(), 1);
}

#[test]
fn unique_node_generates_node_scoped_ids() {
    let generate =
        br#"{"src":"c1","dest":"n1","body":{"type":"generate","msg_id":7,"in_reply_to":null}}"#;
    let mut out: Vec<u8> = Vec::new();
    let r = main_loop::<(), (), UniqueNode>(
        (),
        &lines(&[INIT_LINE, generate, generate]),
        &mut out,
    );
    assert_eq!(r, Ok(()));
    let got = output_lines(&out);
    assert_eq!(got.len(), 3);
    let first = decode(&got[1]).expect("a generate_ok line decodes");
    let second = decode(&got[2]).expect("a generate_ok line decodes");
    // the guid is minted from the counter after the advance: it sits one
    // past the stamped msg_id
    assert_eq!(
        first.body.payload,
        Payload::GenerateOk {
            guid: b"n1-2".to_vec()
        }
    );
    assert_eq!(
        second.body.payload,
        Payload::GenerateOk {
            guid: b"n1-3".to_vec()
        }
    );
    assert_eq!(first.body.id, Some(1));
    assert_eq!(second.body.id, Some(2));
}

#[test]
fn stray_replies_do_not_consume_ids() {
    let stray =
        br#"{"src":"c1","dest":"n1","body":{"type":"echo_ok","echo":"x","msg_id":9,"in_reply_to":1}}"#;
    let echo2 = br#"{"src":"c1","dest":"n1","body":{"type":"echo","msg_id":4,"echo":"again"}}"#;
    let mut out: Vec<u8> = Vec::new();
    let r = main_loop::<(), (), EchoNode>(
        (),
        &lines(&[INIT_LINE, ECHO_LINE, stray, echo2]),
        &mut out,
    );
    assert_eq!(r, Ok(()));
    let got = output_lines(&out);
    assert_eq!(got.len(), 3, "the ignored reply emits nothing");
    let first = decode(&got[1]).expect("an emitted line decodes");
    let second = decode(&got[2]).expect("an emitted line decodes");
    // the ignored reply consumes no id: the sends stay gap-free
    assert_eq!(first.body.id, Some(1));
    assert_eq!(second.body.id, Some(2));
}

#[test]
fn queue_delivers_in_arrival_order() {
    let mut q: EventQueue<u32> = EventQueue::new();
    assert_eq!(q.pop_front(), None);
    q.push_back(1);
    q.push_back(2);
    // an event injected while earlier ones are pending joins the tail:
    // it is observed only after everything already in flight
    assert_eq!(q.pop_front(), Some(1));
    q.push_back(3);
    assert_eq!(q.pop_front(), Some(2));
    assert_eq!(q.pop_front(), Some(3));
    assert_eq!(q.pop_front(), None);
}
