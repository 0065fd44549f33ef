//! Tests for the wire codec: round trips, flexible member order, and a
//! cross-check of the encoder against an independent JSON parser.

use rustcurrent::decode::decode;
use rustcurrent::protocol::{Body, Message, Payload};

fn msg(src: &str, dst: &str, payload: Payload, id: Option<usize>, to: Option<usize>) -> Message {
    Message {
        src: src.as_bytes().to_vec(),
        dst: dst.as_bytes().to_vec(),
        body: Body { payload, id, to },
    }
}

#[test]
fn round_trip_echo() {
    let m = msg(
        "c1",
        "n1",
        Payload::Echo {
            echo: b"hello".to_vec(),
        },
        Some(2),
        None,
    );
    let enc = m.encode();
    assert_eq!(decode(&enc), Ok(m));
}

#[test]
fn round_trip_echo_ok() {
    let m = msg(
        "n1",
        "c1",
        Payload::EchoOk {
            echo: b"hello".to_vec(),
        },
        Some(1),
        Some(2),
    );
    let enc = m.encode();
    assert_eq!(decode(&enc), Ok(m));
}

#[test]
fn round_trip_init() {
    let m = msg(
        "c1",
        "n1",
        Payload::Init {
            node_id: b"n1".to_vec(),
            node_ids: vec![b"n1".to_vec(), b"n2".to_vec(), b"n3".to_vec()],
        },
        Some(1),
        None,
    );
    let enc = m.encode();
    assert_eq!(decode(&enc), Ok(m));
}

#[test]
fn round_trip_init_empty_membership() {
    let m = msg(
        "c1",
        "n1",
        Payload::Init {
            node_id: b"n1".to_vec(),
            node_ids: vec![],
        },
        None,
        None,
    );
    let enc = m.encode();
    assert_eq!(decode(&enc), Ok(m));
}

#[test]
fn round_trip_init_ok_and_generate() {
    for payload in [Payload::InitOk, Payload::Generate] {
        let m = msg("a", "b", payload, Some(0), Some(usize::MAX));
        let enc = m.encode();
        assert_eq!(decode(&enc), Ok(m));
    }
}

#[test]
fn round_trip_generate_ok() {
    let m = msg(
        "n2",
        "c8",
        Payload::GenerateOk {
            guid: b"n2-41".to_vec(),
        },
        Some(41),
        Some(7),
    );
    let enc = m.encode();
    assert_eq!(decode(&enc), Ok(m));
}

#[test]
fn round_trip_empty_strings() {
    let m = msg("", "", Payload::Echo { echo: b"".to_vec() }, None, None);
    let enc = m.encode();
    assert_eq!(decode(&enc), Ok(m));
}

#[test]
fn encode_exact_bytes() {
    let m = msg(
        "n1",
        "c1",
        Payload::EchoOk {
            echo: b"hello".to_vec(),
        },
        Some(1),
        Some(2),
    );
    let enc = m.encode();
    assert_eq!(
        enc,
        br#"{"src":"n1","dest":"c1","body":{"type":"echo_ok","echo":"hello","msg_id":1,"in_reply_to":2}}"#.to_vec()
    );
}

#[test]
fn encode_absent_ids_as_null() {
    let m = msg("a", "b", Payload::InitOk, None, None);
    let enc = m.encode();
    assert_eq!(
        enc,
        br#"{"src":"a","dest":"b","body":{"type":"init_ok","msg_id":null,"in_reply_to":null}}"#
            .to_vec()
    );
}

#[test]
fn send_appends_one_newline_terminated_record() {
    let m = msg("a", "b", Payload::Generate, Some(3), None);
    let mut out = b"prior\n".to_vec();
    m.send(&mut out);
    let mut expected = b"prior\n".to_vec();
    expected.extend_from_slice(&m.encode());
    expected.push(b'\n');
    assert_eq!(out, expected);
    assert_eq!(out.last(), Some(&b'\n'));
}

#[test]
fn decode_accepts_members_in_any_order() {
    let line = br#"{"src":"c1","dest":"n1","body":{"type":"init","msg_id":1,"node_id":"n1","node_ids":["n1"]}}"#;
    let m = decode(line).expect("well-formed init line");
    assert_eq!(m.src, b"c1".to_vec());
    assert_eq!(m.dst, b"n1".to_vec());
    assert_eq!(m.body.id, Some(1));
    assert_eq!(m.body.to, None);
    assert_eq!(
        m.body.payload,
        Payload::Init {
            node_id: b"n1".to_vec(),
            node_ids: vec![b"n1".to_vec()],
        }
    );
}

#[test]
fn decode_accepts_null_ids() {
    let line =
        br#"{"src":"a","dest":"b","body":{"type":"echo","msg_id":null,"echo":"x","in_reply_to":null}}"#;
    let m = decode(line).expect("null ids are absent ids");
    assert_eq!(m.body.id, None);
    assert_eq!(m.body.to, None);
}

#[test]
fn decode_reads_largest_id() {
    let m = msg("a", "b", Payload::Generate, Some(usize::MAX), None);
    let enc = m.encode();
    assert_eq!(decode(&enc), Ok(m));
}

#[test]
fn decode_rejects_overflowing_id() {
    // one past what a machine word holds on any platform this runs on
    let line = br#"{"src":"a","dest":"b","body":{"type":"generate","msg_id":340282366920938463463374607431768211456,"in_reply_to":null}}"#;
    assert!(decode(line).is_err());
}

#[test]
fn decode_rejects_malformed_lines() {
    let bad: [&[u8]; 10] = [
        b"",
        b"{}",
        b"not json at all",
        br#"{"src":"a"}"#,
        br#"{"src":"a","dest":"b"}"#,
        br#"{"src":"a","dest":"b","body":{}}"#,
        br#"{"src":"a","dest":"b","body":{"type":"echo"}}"#, // echo field missing
        br#"{"src":"a","dest":"b","body":{"type":"warble","msg_id":1,"in_reply_to":null}}"#,
        br#"{"src":"a","dest":"b","body":{"type":"init_ok","msg_id":1,"in_reply_to":null}}x"#,
        br#"{"src":"a","dest":"b","body":{"type":"echo","echo":"x","echo":"y","msg_id":1,"in_reply_to":null}}"#,
    ];
    for line in bad {
        assert!(decode(line).is_err(), "accepted: {:?}", line);
    }
}

#[test]
fn round_trip_strings_that_need_escaping() {
    let awkward: Vec<u8> = vec![
        b'q', b'"', b'\\', 0x08, 0x0c, b'\n', b'\r', b'\t', 0x00, 0x01, 0x1f, 0x7f, 0xc3,
        0xa9, b'z',
    ];
    let m = msg("n\"1", "n\\2", Payload::Echo { echo: awkward }, Some(3), Some(4));
    let enc = m.encode();
    assert_eq!(decode(&enc), Ok(m));
}

#[test]
fn escaped_strings_cross_check_with_independent_parser() {
    let m = msg(
        "n1",
        "c1",
        Payload::Echo {
            echo: b"say \"hi\"\\now\n\x01end".to_vec(),
        },
        Some(1),
        None,
    );
    let enc = m.encode();
    let v: serde_json::Value = serde_json::from_slice(&enc).expect("escaped output is valid JSON");
    assert_eq!(v["body"]["echo"].as_str(), Some("say \"hi\"\\now\n\u{1}end"));
}

#[test]
fn decode_reads_common_escapes() {
    let line = br#"{"src":"a","dest":"b","body":{"type":"echo","echo":"q\"w\\e\/r\b\f\n\r\tz\u0000\u001F","msg_id":1,"in_reply_to":null}}"#;
    let m = decode(line).expect("escapes decode");
    assert_eq!(
        m.body.payload,
        Payload::Echo {
            echo: b"q\"w\\e/r\x08\x0c\n\r\tz\x00\x1f".to_vec()
        }
    );
}

#[test]
fn decode_rejects_wide_unicode_escapes() {
    // an escape above 0x7f stands for a multi-byte character; the decoder
    // does not read those
    let line = br#"{"src":"a","dest":"b","body":{"type":"echo","echo":"\u00e9","msg_id":1,"in_reply_to":null}}"#;
    assert!(decode(line).is_err());
}

#[test]
fn decode_skips_insignificant_whitespace() {
    let line = b" { \"src\" : \"c1\" ,\t\"dest\": \"n1\" , \"body\" : { \"type\" : \"init\" , \"msg_id\" : 1 , \"node_id\" : \"n1\" , \"node_ids\" : [ \"n1\" , \"n2\" ] } } ";
    let m = decode(line).expect("whitespace is insignificant");
    assert_eq!(m.src, b"c1".to_vec());
    assert_eq!(
        m.body.payload,
        Payload::Init {
            node_id: b"n1".to_vec(),
            node_ids: vec![b"n1".to_vec(), b"n2".to_vec()],
        }
    );
}

#[test]
fn decode_accepts_envelope_members_in_any_order() {
    let line = br#"{"body":{"type":"echo","echo":"x","msg_id":2},"dest":"n1","src":"c1"}"#;
    let m = decode(line).expect("envelope member order is free");
    assert_eq!(m.src, b"c1".to_vec());
    assert_eq!(m.dst, b"n1".to_vec());
    assert_eq!(m.body.id, Some(2));
    assert_eq!(m.body.payload, Payload::Echo { echo: b"x".to_vec() });
}

#[test]
fn decode_rejects_duplicate_envelope_members() {
    let line =
        br#"{"src":"a","src":"b","dest":"c","body":{"type":"init_ok","msg_id":null,"in_reply_to":null}}"#;
    assert!(decode(line).is_err());
}

#[test]
fn encoder_output_is_real_json() {
    let m = msg(
        "n1",
        "c1",
        Payload::Init {
            node_id: b"n1".to_vec(),
            node_ids: vec![b"n1".to_vec(), b"n2".to_vec()],
        },
        Some(5),
        Some(9),
    );
    let enc = m.encode();
    let v: serde_json::Value = serde_json::from_slice(&enc).expect("encoder emits valid JSON");
    assert_eq!(v["src"].as_str(), Some("n1"));
    assert_eq!(v["dest"].as_str(), Some("c1"));
    assert_eq!(v["body"]["type"].as_str(), Some("init"));
    assert_eq!(v["body"]["msg_id"].as_u64(), Some(5));
    assert_eq!(v["body"]["in_reply_to"].as_u64(), Some(9));
    assert_eq!(v["body"]["node_id"].as_str(), Some("n1"));
    let ids: Vec<&str> = v["body"]["node_ids"]
        .as_array()
        .expect("membership is an array")
        .iter()
        .map(|x| x.as_str().expect("a node id is a string"))
        .collect();
    assert_eq!(ids, vec!["n1", "n2"]);
}

#[test]
fn encoder_null_ids_are_real_json_nulls() {
    let m = msg("a", "b", Payload::InitOk, None, None);
    let v: serde_json::Value = serde_json::from_slice(&m.encode()).expect("valid JSON");
    assert!(v["body"]["msg_id"].is_null());
    assert!(v["body"]["in_reply_to"].is_null());
}
