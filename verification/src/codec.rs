//! The wire codec: one JSON object per newline-terminated line.
//!
//! The encoder lays a message out in a fixed field order, escaping quotes,
//! backslashes and control bytes as JSON requires; the decoder accepts the
//! object members in any order, unescapes strings, and skips insignificant
//! whitespace, so lines produced by other implementations of the same
//! schema decode as well. Both directions are pinned to spec-level encode
//! and parse functions, and decoding an encoded message is proved to give
//! the message back.
//!
//! The decoder stays deliberately strict in three places: a `\u` escape
//! above `0x7f` (a multi-byte character) is not read, a member whose key
//! the schema does not name is an error rather than ignored, and a body's
//! `type` member must come first.

use vstd::prelude::*;

use crate::protocol::{BodyV, MessageV, PayloadV};

verus! {

// ---------------------------------------------------------------------------
// Bytes and literals
// ---------------------------------------------------------------------------

/// A byte that may stand inside a JSON string without escaping: anything
/// but a control byte, the quote and the backslash. Multi-byte UTF-8
/// sequences pass through unchanged.
pub open spec fn is_text_byte(b: u8) -> bool {
    b >= 0x20 && b != 0x22 && b != 0x5c
}

/// Every byte of the sequence may stand unescaped inside a JSON string.
pub open spec fn valid_text(s: Seq<u8>) -> bool {
    forall|i: int| 0 <= i < s.len() ==> is_text_byte(#[trigger] s[i])
}

/// An id value the wire can carry: absent, or a number a machine word holds.
pub open spec fn valid_id(v: Option<int>) -> bool {
    match v {
        Some(n) => 0 <= n <= usize::MAX as int,
        None => true,
    }
}

/// A message the wire can carry faithfully: its ids fit a machine word.
/// Strings need no condition: the encoder escapes whatever they hold.
pub open spec fn valid_message(m: MessageV) -> bool {
    &&& valid_id(m.body.id)
    &&& valid_id(m.body.to)
}

/// The bytes of `src`.
pub open spec fn lit_src() -> Seq<u8> {
    seq![115u8, 114u8, 99u8]
}

/// The bytes of `dest`.
pub open spec fn lit_dest() -> Seq<u8> {
    seq![100u8, 101u8, 115u8, 116u8]
}

/// The bytes of `body`.
pub open spec fn lit_body() -> Seq<u8> {
    seq![98u8, 111u8, 100u8, 121u8]
}

/// The bytes of `type`.
pub open spec fn lit_type() -> Seq<u8> {
    seq![116u8, 121u8, 112u8, 101u8]
}

/// The bytes of `msg_id`.
pub open spec fn lit_msg_id() -> Seq<u8> {
    seq![109u8, 115u8, 103u8, 95u8, 105u8, 100u8]
}

/// The bytes of `in_reply_to`.
pub open spec fn lit_in_reply_to() -> Seq<u8> {
    seq![105u8, 110u8, 95u8, 114u8, 101u8, 112u8, 108u8, 121u8, 95u8, 116u8, 111u8]
}

/// The bytes of `node_id`.
pub open spec fn lit_node_id() -> Seq<u8> {
    seq![110u8, 111u8, 100u8, 101u8, 95u8, 105u8, 100u8]
}

/// The bytes of `node_ids`.
pub open spec fn lit_node_ids() -> Seq<u8> {
    seq![110u8, 111u8, 100u8, 101u8, 95u8, 105u8, 100u8, 115u8]
}

/// The bytes of `echo`.
pub open spec fn lit_echo() -> Seq<u8> {
    seq![101u8, 99u8, 104u8, 111u8]
}

/// The bytes of `id`.
pub open spec fn lit_id() -> Seq<u8> {
    seq![105u8, 100u8]
}

/// The bytes of `init`.
pub open spec fn lit_init() -> Seq<u8> {
    seq![105u8, 110u8, 105u8, 116u8]
}

/// The bytes of `init_ok`.
pub open spec fn lit_init_ok() -> Seq<u8> {
    seq![105u8, 110u8, 105u8, 116u8, 95u8, 111u8, 107u8]
}

/// The bytes of `echo_ok`.
pub open spec fn lit_echo_ok() -> Seq<u8> {
    seq![101u8, 99u8, 104u8, 111u8, 95u8, 111u8, 107u8]
}

/// The bytes of `generate`.
pub open spec fn lit_generate() -> Seq<u8> {
    seq![103u8, 101u8, 110u8, 101u8, 114u8, 97u8, 116u8, 101u8]
}

/// The bytes of `generate_ok`.
pub open spec fn lit_generate_ok() -> Seq<u8> {
    seq![103u8, 101u8, 110u8, 101u8, 114u8, 97u8, 116u8, 101u8, 95u8, 111u8, 107u8]
}

/// The bytes of `null`.
pub open spec fn lit_null() -> Seq<u8> {
    seq![110u8, 117u8, 108u8, 108u8]
}

// ---------------------------------------------------------------------------
// The encoding, at the specification level
// ---------------------------------------------------------------------------

/// The lowercase hex digit of a value below sixteen.
pub open spec fn hex_digit(d: int) -> u8 {
    if d < 10 {
        (48 + d) as u8
    } else {
        (87 + d) as u8
    }
}

/// The value of a hex digit byte; negative for anything else.
pub open spec fn hex_val(b: u8) -> int {
    if 48 <= b <= 57 {
        b - 48
    } else if 97 <= b <= 102 {
        b - 87
    } else if 65 <= b <= 70 {
        b - 55
    } else {
        -1
    }
}

/// A hex digit byte.
pub open spec fn is_hex(b: u8) -> bool {
    hex_val(b) >= 0
}

/// How one byte stands inside a JSON string: itself where allowed, a
/// two-character escape for the quote, the backslash and the common control
/// bytes, and a `\u00XX` escape for the remaining control bytes.
pub open spec fn esc_byte(b: u8) -> Seq<u8> {
    if b == 34 {
        seq![92u8, 34u8]
    } else if b == 92 {
        seq![92u8, 92u8]
    } else if b == 8 {
        seq![92u8, 98u8]
    } else if b == 12 {
        seq![92u8, 102u8]
    } else if b == 10 {
        seq![92u8, 110u8]
    } else if b == 13 {
        seq![92u8, 114u8]
    } else if b == 9 {
        seq![92u8, 116u8]
    } else if b < 32 {
        seq![92u8, 117u8, 48u8, 48u8, hex_digit(b as int / 16), hex_digit(b as int % 16)]
    } else {
        seq![b]
    }
}

/// A string's contents, escaped byte for byte.
pub open spec fn esc(t: Seq<u8>) -> Seq<u8>
    decreases t.len(),
{
    if t.len() == 0 {
        Seq::empty()
    } else {
        esc_byte(t[0]) + esc(t.skip(1))
    }
}

/// A quoted JSON string: quote, escaped contents, quote.
pub open spec fn enc_str(t: Seq<u8>) -> Seq<u8> {
    seq![34u8] + esc(t) + seq![34u8]
}

/// An object key: the quoted key name followed by a colon.
pub open spec fn enc_key(k: Seq<u8>) -> Seq<u8> {
    enc_str(k) + seq![58u8]
}

/// The decimal digits of a number, most significant first.
pub open spec fn dec_digits(n: int) -> Seq<u8>
    decreases n,
{
    if n < 10 {
        seq![(48 + n) as u8]
    } else {
        dec_digits(n / 10) + seq![(48 + n % 10) as u8]
    }
}

/// An optional id: its decimal digits, or `null` when absent.
pub open spec fn enc_opt_num(v: Option<int>) -> Seq<u8> {
    match v {
        Some(n) => dec_digits(n),
        None => lit_null(),
    }
}

/// The comma-separated quoted strings inside an array.
pub open spec fn enc_elems(xs: Seq<Seq<u8>>) -> Seq<u8>
    decreases xs.len(),
{
    if xs.len() == 0 {
        Seq::empty()
    } else if xs.len() == 1 {
        enc_str(xs[0])
    } else {
        enc_str(xs[0]) + seq![44u8] + enc_elems(xs.skip(1))
    }
}

/// A JSON array of strings.
pub open spec fn enc_str_array(xs: Seq<Seq<u8>>) -> Seq<u8> {
    seq![91u8] + enc_elems(xs) + seq![93u8]
}

/// The wire tag of a payload variant.
pub open spec fn tag_of(p: PayloadV) -> Seq<u8> {
    match p {
        PayloadV::Init { .. } => lit_init(),
        PayloadV::InitOk => lit_init_ok(),
        PayloadV::Echo { .. } => lit_echo(),
        PayloadV::EchoOk { .. } => lit_echo_ok(),
        PayloadV::Generate => lit_generate(),
        PayloadV::GenerateOk { .. } => lit_generate_ok(),
    }
}

/// One further object member: comma, key, value.
pub open spec fn enc_member(k: Seq<u8>, v: Seq<u8>) -> Seq<u8> {
    seq![44u8] + enc_key(k) + v
}

/// The members a payload variant adds to the body, after the tag.
pub open spec fn enc_payload_fields(p: PayloadV) -> Seq<u8> {
    match p {
        PayloadV::Init { node_id, node_ids } => enc_member(lit_node_id(), enc_str(node_id))
            + enc_member(lit_node_ids(), enc_str_array(node_ids)),
        PayloadV::InitOk => Seq::empty(),
        PayloadV::Echo { echo } => enc_member(lit_echo(), enc_str(echo)),
        PayloadV::EchoOk { echo } => enc_member(lit_echo(), enc_str(echo)),
        PayloadV::Generate => Seq::empty(),
        PayloadV::GenerateOk { guid } => enc_member(lit_id(), enc_str(guid)),
    }
}

/// The encoded body: the tag first, then the payload's members, then the
/// two correlation ids, each `null` when absent.
pub open spec fn spec_enc_body(b: BodyV) -> Seq<u8> {
    seq![123u8] + enc_key(lit_type()) + enc_str(tag_of(b.payload)) + enc_payload_fields(b.payload)
        + enc_member(lit_msg_id(), enc_opt_num(b.id)) + enc_member(
        lit_in_reply_to(),
        enc_opt_num(b.to),
    ) + seq![125u8]
}

/// The encoded envelope: source, destination, body.
pub open spec fn spec_enc_msg(m: MessageV) -> Seq<u8> {
    seq![123u8] + enc_key(lit_src()) + enc_str(m.src) + seq![44u8] + enc_key(lit_dest()) + enc_str(
        m.dst,
    ) + seq![44u8] + enc_key(lit_body()) + spec_enc_body(m.body) + seq![125u8]
}

// ---------------------------------------------------------------------------
// The parse, at the specification level
// ---------------------------------------------------------------------------

/// The byte at `i` exists and equals `b`.
pub open spec fn byte_at(s: Seq<u8>, i: int, b: u8) -> bool {
    0 <= i < s.len() && s[i] == b
}

/// An insignificant whitespace byte between JSON tokens.
pub open spec fn is_ws(b: u8) -> bool {
    b == 32 || b == 9 || b == 10 || b == 13
}

/// The first index at or after `i` that does not hold whitespace.
pub open spec fn ws_end(s: Seq<u8>, i: int) -> int
    decreases s.len() - i,
{
    if 0 <= i < s.len() && is_ws(s[i]) {
        ws_end(s, i + 1)
    } else {
        i
    }
}

/// The byte a two-character escape stands for, if the character after the
/// backslash is one JSON allows there.
pub open spec fn unescape(e: u8) -> Option<u8> {
    if e == 34 {
        Some(34u8)
    } else if e == 92 {
        Some(92u8)
    } else if e == 47 {
        Some(47u8)
    } else if e == 98 {
        Some(8u8)
    } else if e == 102 {
        Some(12u8)
    } else if e == 110 {
        Some(10u8)
    } else if e == 114 {
        Some(13u8)
    } else if e == 116 {
        Some(9u8)
    } else {
        None
    }
}

/// Reads string contents from `i` up to and over the closing quote,
/// unescaping as it goes: two-character escapes, and `\u00XX` escapes of
/// seven-bit values. (A `\u` escape above `0x7f` would stand for a
/// multi-byte character and is not read.)
pub open spec fn parse_text(s: Seq<u8>, i: int) -> Option<(Seq<u8>, int)>
    decreases s.len() - i,
{
    if i < 0 || i >= s.len() {
        None
    } else if s[i] == 0x22 {
        Some((Seq::empty(), i + 1))
    } else if s[i] == 0x5c {
        if i + 1 < s.len() {
            if s[i + 1] == 117 {
                if i + 5 < s.len() && s[i + 2] == 48 && s[i + 3] == 48 && is_hex(s[i + 4])
                    && hex_val(s[i + 4]) <= 7 && is_hex(s[i + 5]) {
                    match parse_text(s, i + 6) {
                        None => None,
                        Some((t, j)) => Some(
                            (seq![(hex_val(s[i + 4]) * 16 + hex_val(s[i + 5])) as u8] + t, j),
                        ),
                    }
                } else {
                    None
                }
            } else {
                match unescape(s[i + 1]) {
                    None => None,
                    Some(c) => match parse_text(s, i + 2) {
                        None => None,
                        Some((t, j)) => Some((seq![c] + t, j)),
                    },
                }
            }
        } else {
            None
        }
    } else if is_text_byte(s[i]) {
        match parse_text(s, i + 1) {
            None => None,
            Some((t, j)) => Some((seq![s[i]] + t, j)),
        }
    } else {
        None
    }
}

/// Reads a quoted string starting at its opening quote.
pub open spec fn parse_quoted(s: Seq<u8>, i: int) -> Option<(Seq<u8>, int)> {
    if byte_at(s, i, 34) {
        parse_text(s, i + 1)
    } else {
        None
    }
}

/// A decimal digit byte.
pub open spec fn is_digit(b: u8) -> bool {
    48 <= b <= 57
}

/// The first index at or after `i` that does not hold a digit.
pub open spec fn digit_run_end(s: Seq<u8>, i: int) -> int
    decreases s.len() - i,
{
    if 0 <= i < s.len() && is_digit(s[i]) {
        digit_run_end(s, i + 1)
    } else {
        i
    }
}

/// The value of a digit string, most significant digit first.
pub open spec fn digits_val(d: Seq<u8>) -> int
    decreases d.len(),
{
    if d.len() == 0 {
        0
    } else {
        digits_val(d.drop_last()) * 10 + (d.last() - 48)
    }
}

/// Reads a decimal number. Fails on an empty digit run and on a value no
/// machine word holds.
pub open spec fn parse_num(s: Seq<u8>, i: int) -> Option<(int, int)> {
    let e = digit_run_end(s, i);
    if e == i {
        None
    } else if digits_val(s.subrange(i, e)) <= usize::MAX as int {
        Some((digits_val(s.subrange(i, e)), e))
    } else {
        None
    }
}

/// The literal `lit` stands at `i`.
pub open spec fn matches_at(s: Seq<u8>, i: int, lit: Seq<u8>) -> bool {
    0 <= i && i + lit.len() <= s.len() && s.subrange(i, i + lit.len()) == lit
}

/// Reads an optional id value: `null`, or a decimal number.
pub open spec fn parse_opt_num(s: Seq<u8>, i: int) -> Option<(Option<int>, int)> {
    if matches_at(s, i, lit_null()) {
        Some((None, i + 4))
    } else {
        match parse_num(s, i) {
            None => None,
            Some((v, e)) => Some((Some(v), e)),
        }
    }
}

/// Reads the elements of a non-empty string array, starting at the first
/// element's opening quote, up to and over the closing bracket.
pub open spec fn parse_arr_elems(s: Seq<u8>, i: int, fuel: nat) -> Option<(Seq<Seq<u8>>, int)>
    decreases fuel,
{
    match parse_quoted(s, i) {
        None => None,
        Some((t, j0)) => {
            let j = ws_end(s, j0);
            if byte_at(s, j, 93) {
                Some((seq![t], j + 1))
            } else if byte_at(s, j, 44) && fuel > 0 {
                match parse_arr_elems(s, ws_end(s, j + 1), (fuel - 1) as nat) {
                    None => None,
                    Some((ts, k)) => Some((seq![t] + ts, k)),
                }
            } else {
                None
            }
        },
    }
}

/// Reads a string array, starting at its opening bracket.
pub open spec fn parse_str_array(s: Seq<u8>, i: int, fuel: nat) -> Option<(Seq<Seq<u8>>, int)> {
    if byte_at(s, i, 91) {
        let j = ws_end(s, i + 1);
        if byte_at(s, j, 93) {
            Some((Seq::empty(), j + 1))
        } else {
            parse_arr_elems(s, j, fuel)
        }
    } else {
        None
    }
}

/// The body members read so far. `None` in an outer position means the
/// member has not occurred; a member may occur at most once.
pub struct FieldsV {
    pub msg_id: Option<Option<int>>,
    pub in_reply_to: Option<Option<int>>,
    pub node_id: Option<Seq<u8>>,
    pub node_ids: Option<Seq<Seq<u8>>>,
    pub echo: Option<Seq<u8>>,
    pub guid: Option<Seq<u8>>,
}

/// No body member read yet.
pub open spec fn no_fields() -> FieldsV {
    FieldsV {
        msg_id: None,
        in_reply_to: None,
        node_id: None,
        node_ids: None,
        echo: None,
        guid: None,
    }
}

/// Reads the body members after the tag, in any order, each at most once,
/// up to and over the closing brace.
pub open spec fn parse_members(s: Seq<u8>, i: int, f: FieldsV, fuel: nat) -> Option<
    (FieldsV, int),
>
    decreases fuel,
{
    let i0 = ws_end(s, i);
    if byte_at(s, i0, 125) {
        Some((f, i0 + 1))
    } else if byte_at(s, i0, 44) && fuel > 0 {
        match parse_quoted(s, ws_end(s, i0 + 1)) {
            None => None,
            Some((k, j)) => {
                if !byte_at(s, ws_end(s, j), 58) {
                    None
                } else {
                    let v = ws_end(s, ws_end(s, j) + 1);
                    if k == lit_msg_id() {
                        if f.msg_id is Some {
                            None
                        } else {
                            match parse_opt_num(s, v) {
                                None => None,
                                Some((n, e)) => parse_members(
                                    s,
                                    e,
                                    FieldsV { msg_id: Some(n), ..f },
                                    (fuel - 1) as nat,
                                ),
                            }
                        }
                    } else if k == lit_in_reply_to() {
                        if f.in_reply_to is Some {
                            None
                        } else {
                            match parse_opt_num(s, v) {
                                None => None,
                                Some((n, e)) => parse_members(
                                    s,
                                    e,
                                    FieldsV { in_reply_to: Some(n), ..f },
                                    (fuel - 1) as nat,
                                ),
                            }
                        }
                    } else if k == lit_node_id() {
                        if f.node_id is Some {
                            None
                        } else {
                            match parse_quoted(s, v) {
                                None => None,
                                Some((t, e)) => parse_members(
                                    s,
                                    e,
                                    FieldsV { node_id: Some(t), ..f },
                                    (fuel - 1) as nat,
                                ),
                            }
                        }
                    } else if k == lit_node_ids() {
                        if f.node_ids is Some {
                            None
                        } else {
                            match parse_str_array(s, v, fuel) {
                                None => None,
                                Some((ts, e)) => parse_members(
                                    s,
                                    e,
                                    FieldsV { node_ids: Some(ts), ..f },
                                    (fuel - 1) as nat,
                                ),
                            }
                        }
                    } else if k == lit_echo() {
                        if f.echo is Some {
                            None
                        } else {
                            match parse_quoted(s, v) {
                                None => None,
                                Some((t, e)) => parse_members(
                                    s,
                                    e,
                                    FieldsV { echo: Some(t), ..f },
                                    (fuel - 1) as nat,
                                ),
                            }
                        }
                    } else if k == lit_id() {
                        if f.guid is Some {
                            None
                        } else {
                            match parse_quoted(s, v) {
                                None => None,
                                Some((t, e)) => parse_members(
                                    s,
                                    e,
                                    FieldsV { guid: Some(t), ..f },
                                    (fuel - 1) as nat,
                                ),
                            }
                        }
                    } else {
                        None
                    }
                }
            },
        }
    } else {
        None
    }
}

/// Builds the payload a tag and its members describe, if the members are
/// exactly the ones the tag calls for.
pub open spec fn payload_of_fields(tag: Seq<u8>, f: FieldsV) -> Option<PayloadV> {
    if tag == lit_init() {
        if f.node_id is Some && f.node_ids is Some && f.echo is None && f.guid is None {
            Some(
                PayloadV::Init {
                    node_id: f.node_id.unwrap(),
                    node_ids: f.node_ids.unwrap(),
                },
            )
        } else {
            None
        }
    } else if tag == lit_init_ok() {
        if f.node_id is None && f.node_ids is None && f.echo is None && f.guid is None {
            Some(PayloadV::InitOk)
        } else {
            None
        }
    } else if tag == lit_echo() {
        if f.node_id is None && f.node_ids is None && f.echo is Some && f.guid is None {
            Some(PayloadV::Echo { echo: f.echo.unwrap() })
        } else {
            None
        }
    } else if tag == lit_echo_ok() {
        if f.node_id is None && f.node_ids is None && f.echo is Some && f.guid is None {
            Some(PayloadV::EchoOk { echo: f.echo.unwrap() })
        } else {
            None
        }
    } else if tag == lit_generate() {
        if f.node_id is None && f.node_ids is None && f.echo is None && f.guid is None {
            Some(PayloadV::Generate)
        } else {
            None
        }
    } else if tag == lit_generate_ok() {
        if f.node_id is None && f.node_ids is None && f.echo is None && f.guid is Some {
            Some(PayloadV::GenerateOk { guid: f.guid.unwrap() })
        } else {
            None
        }
    } else {
        None
    }
}

/// An id member that never occurred reads as absent.
pub open spec fn flatten_opt(x: Option<Option<int>>) -> Option<int> {
    match x {
        None => None,
        Some(v) => v,
    }
}

/// Reads the quoted key `key` and its colon, whitespace allowed around the
/// colon; returns where the value starts.
pub open spec fn parse_key_colon(s: Seq<u8>, i: int, key: Seq<u8>) -> Option<int> {
    match parse_quoted(s, i) {
        None => None,
        Some((k, j)) => if k == key && byte_at(s, ws_end(s, j), 58) {
            Some(ws_end(s, ws_end(s, j) + 1))
        } else {
            None
        },
    }
}

/// Reads a body object: the tag member first, then the other members in
/// any order.
pub open spec fn parse_body(s: Seq<u8>, i: int, fuel: nat) -> Option<(BodyV, int)> {
    if !byte_at(s, i, 123) {
        None
    } else {
        match parse_key_colon(s, ws_end(s, i + 1), lit_type()) {
            None => None,
            Some(a) => match parse_quoted(s, a) {
                None => None,
                Some((tag, j)) => match parse_members(s, j, no_fields(), fuel) {
                    None => None,
                    Some((f, e)) => match payload_of_fields(tag, f) {
                        None => None,
                        Some(p) => Some(
                            (
                                BodyV {
                                    payload: p,
                                    id: flatten_opt(f.msg_id),
                                    to: flatten_opt(f.in_reply_to),
                                },
                                e,
                            ),
                        ),
                    },
                },
            },
        }
    }
}

/// The envelope members read so far. `None` means the member has not
/// occurred; each may occur at most once.
pub struct MsgFieldsV {
    pub src: Option<Seq<u8>>,
    pub dst: Option<Seq<u8>>,
    pub body: Option<BodyV>,
}

/// No envelope member read yet.
pub open spec fn no_msg_fields() -> MsgFieldsV {
    MsgFieldsV { src: None, dst: None, body: None }
}

/// Reads one envelope member — `src`, `dest` or `body` — starting at its
/// key's opening quote.
pub open spec fn parse_msg_member(s: Seq<u8>, i: int, f: MsgFieldsV, fuel: nat) -> Option<
    (MsgFieldsV, int),
> {
    match parse_quoted(s, i) {
        None => None,
        Some((k, j)) => {
            if !byte_at(s, ws_end(s, j), 58) {
                None
            } else {
                let v = ws_end(s, ws_end(s, j) + 1);
                if k == lit_src() {
                    if f.src is Some {
                        None
                    } else {
                        match parse_quoted(s, v) {
                            None => None,
                            Some((t, e)) => Some((MsgFieldsV { src: Some(t), ..f }, e)),
                        }
                    }
                } else if k == lit_dest() {
                    if f.dst is Some {
                        None
                    } else {
                        match parse_quoted(s, v) {
                            None => None,
                            Some((t, e)) => Some((MsgFieldsV { dst: Some(t), ..f }, e)),
                        }
                    }
                } else if k == lit_body() {
                    if f.body is Some {
                        None
                    } else {
                        match parse_body(s, v, fuel) {
                            None => None,
                            Some((b, e)) => Some((MsgFieldsV { body: Some(b), ..f }, e)),
                        }
                    }
                } else {
                    None
                }
            }
        },
    }
}

/// Reads the envelope members after the first, in any order, each at most
/// once, up to and over the closing brace.
pub open spec fn parse_msg_members(s: Seq<u8>, i: int, f: MsgFieldsV, fuel: nat) -> Option<
    (MsgFieldsV, int),
>
    decreases fuel,
{
    let j = ws_end(s, i);
    if byte_at(s, j, 125) {
        Some((f, j + 1))
    } else if byte_at(s, j, 44) && fuel > 0 {
        match parse_msg_member(s, ws_end(s, j + 1), f, fuel) {
            None => None,
            Some((f2, e)) => parse_msg_members(s, e, f2, (fuel - 1) as nat),
        }
    } else {
        None
    }
}

/// Reads a whole envelope: an object whose members `src`, `dest` and
/// `body`, in any order, must all occur.
pub open spec fn parse_msg(s: Seq<u8>, i: int, fuel: nat) -> Option<(MessageV, int)> {
    let i0 = ws_end(s, i);
    if !byte_at(s, i0, 123) {
        None
    } else {
        match parse_msg_member(s, ws_end(s, i0 + 1), no_msg_fields(), fuel) {
            None => None,
            Some((f1, e)) => match parse_msg_members(s, e, f1, fuel) {
                None => None,
                Some((f, e2)) => match (f.src, f.dst, f.body) {
                    (Some(src), Some(dst), Some(body)) => Some((MessageV { src, dst, body }, e2)),
                    _ => None,
                },
            },
        }
    }
}

/// What one input line means: a message, when the line is exactly one
/// well-formed envelope with nothing but whitespace around it; nothing
/// otherwise.
pub open spec fn spec_decode(s: Seq<u8>) -> Option<MessageV> {
    match parse_msg(s, 0, s.len()) {
        None => None,
        Some((m, e)) => if ws_end(s, e) == s.len() {
            Some(m)
        } else {
            None
        },
    }
}

// ---------------------------------------------------------------------------
// Shared executable helpers
// ---------------------------------------------------------------------------

/// Byte-for-byte equality of two slices.
pub fn bytes_eq(a: &[u8], b: &[u8]) -> (r: bool)
    ensures
        r == (a@ == b@),
{
    if a.len() != b.len() {
        proof {
            assert(a@.len() != b@.len());
        }
        return false;
    }
    let mut i: usize = 0;
    while i < a.len()
        invariant
            0 <= i <= a.len(),
            a@.len() == b@.len(),
            forall|j: int| 0 <= j < i ==> a@[j] == b@[j],
        decreases a.len() - i,
    {
        if a[i] != b[i] {
            return false;
        }
        i += 1;
    }
    proof {
        assert(a@ =~= b@);
    }
    true
}

/// Appends a slice to a byte vector.
pub fn push_bytes(out: &mut Vec<u8>, s: &[u8])
    ensures
        final(out)@ == old(out)@ + s@,
{
    let mut i: usize = 0;
    while i < s.len()
        invariant
            0 <= i <= s@.len(),
            out@ == old(out)@ + s@.subrange(0, i as int),
        decreases s@.len() - i,
    {
        out.push(s[i]);
        proof {
            assert(old(out)@ + s@.subrange(0, i as int) + seq![s@[i as int]] =~= old(out)@
                + s@.subrange(0, i + 1));
        }
        i += 1;
    }
    proof {
        assert(s@.subrange(0, s@.len() as int) =~= s@);
    }
}

} // verus!
