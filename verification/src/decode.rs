//! The executable decoder: reads one line as an envelope, mirroring the
//! spec-level parse exactly, so that every accepted and every rejected
//! line is pinned by `spec_decode`.

use vstd::prelude::*;

use crate::codec::{
    byte_at, bytes_eq, digit_run_end, digits_val, hex_val, is_digit, is_hex, lit_null,
    matches_at, no_fields, no_msg_fields, parse_arr_elems, parse_body, parse_key_colon,
    parse_members, parse_msg, parse_msg_member, parse_msg_members, parse_num, parse_opt_num,
    parse_quoted, parse_str_array, parse_text, payload_of_fields, spec_decode, unescape, ws_end,
    FieldsV, MsgFieldsV,
};
use crate::encode::{
    bytes_body, bytes_dest, bytes_echo, bytes_echo_ok, bytes_generate, bytes_generate_ok,
    bytes_id, bytes_in_reply_to, bytes_init, bytes_init_ok, bytes_msg_id, bytes_node_id,
    bytes_node_ids, bytes_src, bytes_type,
};
use crate::protocol::{Body, Message, Payload};

verus! {

/// A line that is not exactly one well-formed envelope.
#[derive(Clone, Copy, Debug, PartialEq, Eq, Structural)]
pub struct DecodeError;

// ---------------------------------------------------------------------------
// Characterizations of the spec-level parse, for the loop-based readers
// ---------------------------------------------------------------------------

/// Where a scanned digit run ends, `digit_run_end` ends.
pub proof fn lemma_digit_run_end(s: Seq<u8>, i: int, k: int)
    requires
        0 <= i <= k <= s.len(),
        forall|j: int| i <= j < k ==> is_digit(#[trigger] s[j]),
        k == s.len() || !is_digit(s[k]),
    ensures
        digit_run_end(s, i) == k,
    decreases k - i,
{
    if i < k {
        lemma_digit_run_end(s, i + 1, k);
    }
}

/// A digit string's value is not negative.
pub proof fn lemma_digits_val_nonneg(d: Seq<u8>)
    requires
        forall|j: int| 0 <= j < d.len() ==> is_digit(#[trigger] d[j]),
    ensures
        digits_val(d) >= 0,
    decreases d.len(),
{
    if d.len() > 0 {
        lemma_digits_val_nonneg(d.drop_last());
    }
}

/// Extending a digit string multiplies its value by ten and adds the digit,
/// stated over subranges of the input being scanned.
pub proof fn lemma_digits_val_step(s: Seq<u8>, i: int, k: int)
    requires
        0 <= i <= k < s.len(),
    ensures
        digits_val(s.subrange(i, k + 1)) == digits_val(s.subrange(i, k)) * 10 + (s[k] - 48),
{
    assert(s.subrange(i, k + 1).drop_last() =~= s.subrange(i, k));
    assert(s.subrange(i, k + 1).last() == s[k]);
}

/// A digit string is worth at least its prefix.
pub proof fn lemma_digits_val_prefix(s: Seq<u8>, i: int, k: int, e: int)
    requires
        0 <= i <= k <= e <= s.len(),
        forall|j: int| i <= j < e ==> is_digit(#[trigger] s[j]),
    ensures
        digits_val(s.subrange(i, e)) >= digits_val(s.subrange(i, k)),
    decreases e - k,
{
    if k < e {
        lemma_digits_val_prefix(s, i, k + 1, e);
        lemma_digits_val_step(s, i, k);
        assert(forall|j: int|
            0 <= j < s.subrange(i, k).len() ==> is_digit(#[trigger] s.subrange(i, k)[j]));
        lemma_digits_val_nonneg(s.subrange(i, k));
    }
}

// ---------------------------------------------------------------------------
// Executable readers, each mirroring its spec-level parse function
// ---------------------------------------------------------------------------

/// The byte at `i` exists and equals `b`.
fn at(s: &[u8], i: usize, b: u8) -> (r: bool)
    requires
        i <= s@.len(),
    ensures
        r == byte_at(s@, i as int, b),
        s@.len() <= usize::MAX,
{
    let n = s.len();
    proof {
        assert(n == s@.len());
    }
    i < n && s[i] == b
}

/// Skips insignificant whitespace.
fn skip_ws(s: &[u8], i: usize) -> (r: usize)
    requires
        i <= s@.len(),
    ensures
        r as int == ws_end(s@, i as int),
        i <= r <= s@.len(),
    decreases s@.len() - i,
{
    if i < s.len() {
        let b = s[i];
        if b == 32 || b == 9 || b == 10 || b == 13 {
            return skip_ws(s, i + 1);
        }
    }
    i
}

/// Reads string contents up to and over the closing quote, unescaping as
/// it goes.
fn take_text(s: &[u8], i: usize) -> (r: Option<(Vec<u8>, usize)>)
    requires
        i <= s@.len(),
    ensures
        match r {
            Some((t, j)) => parse_text(s@, i as int) == Some((t@, j as int)) && i < j <= s@.len(),
            None => parse_text(s@, i as int) is None,
        },
    decreases s@.len() - i,
{
    let n = s.len();
    if i >= n {
        return None;
    }
    let b = s[i];
    if b == 34 {
        let t: Vec<u8> = Vec::new();
        proof {
            assert(t@ =~= Seq::<u8>::empty());
        }
        return Some((t, i + 1));
    }
    if b == 92 {
        if n - i < 2 {
            return None;
        }
        let e = s[i + 1];
        if e == 117 {
            // a \u00XX escape of a seven-bit value
            if n - i < 6 {
                return None;
            }
            if !(s[i + 2] == 48 && s[i + 3] == 48) {
                return None;
            }
            let h3 = s[i + 4];
            let h4 = s[i + 5];
            if !(48 <= h3 && h3 <= 55) {
                proof {
                    assert(!(is_hex(h3) && hex_val(h3) <= 7));
                }
                return None;
            }
            let v4: u8 = if 48 <= h4 && h4 <= 57 {
                h4 - 48
            } else if 97 <= h4 && h4 <= 102 {
                h4 - 87
            } else if 65 <= h4 && h4 <= 70 {
                h4 - 55
            } else {
                proof {
                    assert(!is_hex(h4));
                }
                return None;
            };
            let c: u8 = (h3 - 48) * 16 + v4;
            proof {
                assert(c as int == hex_val(h3) * 16 + hex_val(h4));
            }
            match take_text(s, i + 6) {
                None => None,
                Some((t, j)) => {
                    let ghost pre = t@;
                    let mut t = t;
                    t.insert(0, c);
                    proof {
                        assert(t@ =~= seq![c] + pre);
                    }
                    Some((t, j))
                },
            }
        } else {
            let c: u8 = if e == 34 {
                34
            } else if e == 92 {
                92
            } else if e == 47 {
                47
            } else if e == 98 {
                8
            } else if e == 102 {
                12
            } else if e == 110 {
                10
            } else if e == 114 {
                13
            } else if e == 116 {
                9
            } else {
                proof {
                    assert(unescape(e) is None);
                }
                return None;
            };
            proof {
                assert(unescape(e) == Some(c));
            }
            match take_text(s, i + 2) {
                None => None,
                Some((t, j)) => {
                    let ghost pre = t@;
                    let mut t = t;
                    t.insert(0, c);
                    proof {
                        assert(t@ =~= seq![c] + pre);
                    }
                    Some((t, j))
                },
            }
        }
    } else if b >= 0x20 && b != 0x5c {
        match take_text(s, i + 1) {
            None => None,
            Some((t, j)) => {
                let ghost pre = t@;
                let mut t = t;
                t.insert(0, b);
                proof {
                    assert(t@ =~= seq![b] + pre);
                }
                Some((t, j))
            },
        }
    } else {
        None
    }
}

/// Reads a quoted string starting at its opening quote.
fn take_quoted(s: &[u8], i: usize) -> (r: Option<(Vec<u8>, usize)>)
    requires
        i <= s@.len(),
    ensures
        match r {
            Some((t, j)) => parse_quoted(s@, i as int) == Some((t@, j as int)) && i < j
                <= s@.len(),
            None => parse_quoted(s@, i as int) is None,
        },
{
    if at(s, i, 34) {
        take_text(s, i + 1)
    } else {
        None
    }
}

/// Reads a decimal number that fits a machine word.
fn take_num(s: &[u8], i: usize) -> (r: Option<(usize, usize)>)
    requires
        i <= s@.len(),
    ensures
        match r {
            Some((v, j)) => parse_num(s@, i as int) == Some((v as int, j as int)) && i < j
                <= s@.len(),
            None => parse_num(s@, i as int) is None,
        },
{
    let mut k: usize = i;
    let mut val: usize = 0;
    proof {
        assert(s@.subrange(i as int, i as int) =~= Seq::<u8>::empty());
    }
    loop
        invariant
            i <= k <= s@.len(),
            forall|j: int| i <= j < k ==> is_digit(#[trigger] s@[j]),
            val as int == digits_val(s@.subrange(i as int, k as int)),
        decreases s@.len() - k,
    {
        if k == s.len() || !(48 <= s[k] && s[k] <= 57) {
            proof {
                lemma_digit_run_end(s@, i as int, k as int);
            }
            if k == i {
                return None;
            }
            return Some((val, k));
        }
        let d = s[k] - 48;
        // would the next digit push the value past what a machine word holds?
        if val > (usize::MAX - d as usize) / 10 {
            proof {
                let e = digit_run_end(s@, i as int);
                lemma_digit_run_end_extends(s@, i as int, k as int + 1);
                lemma_digits_val_step(s@, i as int, k as int);
                assert((val as int) * 10 + (s@[k as int] - 48) > usize::MAX as int) by (nonlinear_arith)
                    requires
                        val as int > (usize::MAX as int - (s@[k as int] - 48)) / 10,
                        48 <= s@[k as int] <= 57,
                ;
                lemma_digits_val_prefix(s@, i as int, k as int + 1, e);
            }
            return None;
        }
        proof {
            lemma_digits_val_step(s@, i as int, k as int);
        }
        val = val * 10 + d as usize;
        k += 1;
    }
}

/// The maximal digit run from `i` covers every scanned digit stretch: its
/// end lies at or past any index reached over digits alone, and the run is
/// all digits.
proof fn lemma_digit_run_end_extends(s: Seq<u8>, i: int, k: int)
    requires
        0 <= i <= k <= s.len(),
        forall|j: int| i <= j < k ==> is_digit(#[trigger] s[j]),
    ensures
        k <= digit_run_end(s, i) <= s.len(),
        forall|j: int| i <= j < digit_run_end(s, i) ==> is_digit(#[trigger] s[j]),
    decreases s.len() - i,
{
    if i < k {
        lemma_digit_run_end_extends(s, i + 1, k);
    } else {
        lemma_digit_run_end_all(s, i);
    }
}

/// The digit run from `i` consists of digits.
pub proof fn lemma_digit_run_end_all(s: Seq<u8>, i: int)
    requires
        0 <= i <= s.len(),
    ensures
        i <= digit_run_end(s, i) <= s.len(),
        forall|j: int| i <= j < digit_run_end(s, i) ==> is_digit(#[trigger] s[j]),
    decreases s.len() - i,
{
    if 0 <= i < s.len() && is_digit(s[i]) {
        lemma_digit_run_end_all(s, i + 1);
    }
}

/// Reads an optional id value: `null`, or a decimal number.
fn take_opt_num(s: &[u8], i: usize) -> (r: Option<(Option<usize>, usize)>)
    requires
        i <= s@.len(),
    ensures
        match r {
            Some((v, j)) => parse_opt_num(s@, i as int) == Some(
                (
                    match v {
                        Some(n) => Some(n as int),
                        None => None,
                    },
                    j as int,
                ),
            ) && i < j <= s@.len(),
            None => parse_opt_num(s@, i as int) is None,
        },
{
    if s.len() - i >= 4 && s[i] == 110 && s[i + 1] == 117 && s[i + 2] == 108 && s[i + 3] == 108 {
        proof {
            assert(s@.subrange(i as int, i as int + 4) =~= lit_null());
        }
        return Some((None, i + 4));
    }
    proof {
        if matches_at(s@, i as int, lit_null()) {
            assert(s@[i as int] == 110 && s@[i as int + 1] == 117 && s@[i as int + 2] == 108
                && s@[i as int + 3] == 108) by {
                assert(s@.subrange(i as int, i as int + 4)[0] == 110);
                assert(s@.subrange(i as int, i as int + 4)[1] == 117);
                assert(s@.subrange(i as int, i as int + 4)[2] == 108);
                assert(s@.subrange(i as int, i as int + 4)[3] == 108);
            }
        }
        assert(!matches_at(s@, i as int, lit_null()));
    }
    match take_num(s, i) {
        Some((v, j)) => Some((Some(v), j)),
        None => None,
    }
}

/// The body members read so far, as runtime values.
pub struct FieldSet {
    pub msg_id: Option<Option<usize>>,
    pub in_reply_to: Option<Option<usize>>,
    pub node_id: Option<Vec<u8>>,
    pub node_ids: Option<Vec<Vec<u8>>>,
    pub echo: Option<Vec<u8>>,
    pub guid: Option<Vec<u8>>,
}

impl View for FieldSet {
    type V = FieldsV;

    open spec fn view(&self) -> FieldsV {
        FieldsV {
            msg_id: match self.msg_id {
                Some(v) => Some(
                    match v {
                        Some(n) => Some(n as int),
                        None => None,
                    },
                ),
                None => None,
            },
            in_reply_to: match self.in_reply_to {
                Some(v) => Some(
                    match v {
                        Some(n) => Some(n as int),
                        None => None,
                    },
                ),
                None => None,
            },
            node_id: match self.node_id {
                Some(ref t) => Some(t@),
                None => None,
            },
            node_ids: match self.node_ids {
                Some(ref ts) => Some(ts.deep_view()),
                None => None,
            },
            echo: match self.echo {
                Some(ref t) => Some(t@),
                None => None,
            },
            guid: match self.guid {
                Some(ref t) => Some(t@),
                None => None,
            },
        }
    }
}

/// Reads the elements of a non-empty string array.
fn take_arr_elems(s: &[u8], i: usize, fuel: usize) -> (r: Option<(Vec<Vec<u8>>, usize)>)
    requires
        i <= s@.len(),
    ensures
        match r {
            Some((ts, j)) => parse_arr_elems(s@, i as int, fuel as nat) == Some(
                (ts.deep_view(), j as int),
            ) && i < j <= s@.len(),
            None => parse_arr_elems(s@, i as int, fuel as nat) is None,
        },
    decreases fuel,
{
    match take_quoted(s, i) {
        None => None,
        Some((t, j0)) => {
            let j = skip_ws(s, j0);
            if at(s, j, 93) {
                let mut ts: Vec<Vec<u8>> = Vec::new();
                ts.push(t);
                proof {
                    assert(ts.deep_view() =~~= seq![t@]);
                }
                Some((ts, j + 1))
            } else if at(s, j, 44) && fuel > 0 {
                match take_arr_elems(s, skip_ws(s, j + 1), fuel - 1) {
                    None => None,
                    Some((rest, k)) => {
                        let ghost pre = rest.deep_view();
                        let mut ts: Vec<Vec<u8>> = Vec::new();
                        ts.push(t);
                        let mut rest = rest;
                        let n = rest.len();
                        let mut m: usize = 0;
                        // move the tail elements over, keeping their order
                        while m < n
                            invariant
                                n == pre.len(),
                                m <= n,
                                rest@.len() == n - m,
                                ts@.len() == m + 1,
                                forall|q: int| 0 <= q < rest@.len() ==> rest@[q].deep_view()
                                    == pre[m + q],
                                ts@[0].deep_view() == t@,
                                forall|q: int| 1 <= q < ts@.len() ==> ts@[q].deep_view() == pre[q
                                    - 1],
                            decreases n - m,
                        {
                            let x = rest.remove(0);
                            ts.push(x);
                            m += 1;
                        }
                        proof {
                            assert(ts.deep_view() =~~= seq![t@] + pre);
                        }
                        Some((ts, k))
                    },
                }
            } else {
                None
            }
        },
    }
}

/// Reads a string array, starting at its opening bracket.
fn take_str_array(s: &[u8], i: usize, fuel: usize) -> (r: Option<(Vec<Vec<u8>>, usize)>)
    requires
        i <= s@.len(),
    ensures
        match r {
            Some((ts, j)) => parse_str_array(s@, i as int, fuel as nat) == Some(
                (ts.deep_view(), j as int),
            ) && i < j <= s@.len(),
            None => parse_str_array(s@, i as int, fuel as nat) is None,
        },
{
    if at(s, i, 91) {
        let j = skip_ws(s, i + 1);
        if at(s, j, 93) {
            let ts: Vec<Vec<u8>> = Vec::new();
            proof {
                assert(ts.deep_view() =~~= Seq::<Seq<u8>>::empty());
            }
            Some((ts, j + 1))
        } else {
            take_arr_elems(s, j, fuel)
        }
    } else {
        None
    }
}

/// Reads the body members after the tag.
fn take_members(s: &[u8], i: usize, f: FieldSet, fuel: usize) -> (r: Option<(FieldSet, usize)>)
    requires
        i <= s@.len(),
    ensures
        match r {
            Some((g, j)) => parse_members(s@, i as int, f@, fuel as nat) == Some(
                (g@, j as int),
            ) && j <= s@.len(),
            None => parse_members(s@, i as int, f@, fuel as nat) is None,
        },
    decreases fuel,
{
    let i0 = skip_ws(s, i);
    if at(s, i0, 125) {
        return Some((f, i0 + 1));
    }
    if !(at(s, i0, 44) && fuel > 0) {
        return None;
    }
    match take_quoted(s, skip_ws(s, i0 + 1)) {
        None => None,
        Some((k, j)) => {
            let j2 = skip_ws(s, j);
            if !at(s, j2, 58) {
                return None;
            }
            let v = skip_ws(s, j2 + 1);
            let key_msg_id = bytes_msg_id();
            let key_in_reply_to = bytes_in_reply_to();
            let key_node_id = bytes_node_id();
            let key_node_ids = bytes_node_ids();
            let key_echo = bytes_echo();
            let key_id = bytes_id();
            if bytes_eq(k.as_slice(), key_msg_id.as_slice()) {
                if f.msg_id.is_some() {
                    return None;
                }
                match take_opt_num(s, v) {
                    None => None,
                    Some((n, e)) => take_members(
                        s,
                        e,
                        FieldSet { msg_id: Some(n), ..f },
                        fuel - 1,
                    ),
                }
            } else if bytes_eq(k.as_slice(), key_in_reply_to.as_slice()) {
                if f.in_reply_to.is_some() {
                    return None;
                }
                match take_opt_num(s, v) {
                    None => None,
                    Some((n, e)) => take_members(
                        s,
                        e,
                        FieldSet { in_reply_to: Some(n), ..f },
                        fuel - 1,
                    ),
                }
            } else if bytes_eq(k.as_slice(), key_node_id.as_slice()) {
                if f.node_id.is_some() {
                    return None;
                }
                match take_quoted(s, v) {
                    None => None,
                    Some((t, e)) => take_members(
                        s,
                        e,
                        FieldSet { node_id: Some(t), ..f },
                        fuel - 1,
                    ),
                }
            } else if bytes_eq(k.as_slice(), key_node_ids.as_slice()) {
                if f.node_ids.is_some() {
                    return None;
                }
                match take_str_array(s, v, fuel) {
                    None => None,
                    Some((ts, e)) => take_members(
                        s,
                        e,
                        FieldSet { node_ids: Some(ts), ..f },
                        fuel - 1,
                    ),
                }
            } else if bytes_eq(k.as_slice(), key_echo.as_slice()) {
                if f.echo.is_some() {
                    return None;
                }
                match take_quoted(s, v) {
                    None => None,
                    Some((t, e)) => take_members(s, e, FieldSet { echo: Some(t), ..f }, fuel - 1),
                }
            } else if bytes_eq(k.as_slice(), key_id.as_slice()) {
                if f.guid.is_some() {
                    return None;
                }
                match take_quoted(s, v) {
                    None => None,
                    Some((t, e)) => take_members(s, e, FieldSet { guid: Some(t), ..f }, fuel - 1),
                }
            } else {
                None
            }
        },
    }
}

/// Builds the payload a tag and its members describe.
fn fields_to_payload(tag: &Vec<u8>, f: FieldSet) -> (r: Option<Payload>)
    ensures
        match r {
            Some(p) => payload_of_fields(tag@, f@) == Some(p@),
            None => payload_of_fields(tag@, f@) is None,
        },
{
    let tag_init = bytes_init();
    let tag_init_ok = bytes_init_ok();
    let tag_echo = bytes_echo();
    let tag_echo_ok = bytes_echo_ok();
    let tag_generate = bytes_generate();
    let tag_generate_ok = bytes_generate_ok();
    let FieldSet { msg_id: _, in_reply_to: _, node_id, node_ids, echo, guid } = f;
    if bytes_eq(tag.as_slice(), tag_init.as_slice()) {
        match (node_id, node_ids, echo, guid) {
            (Some(nid), Some(nids), None, None) => Some(
                Payload::Init { node_id: nid, node_ids: nids },
            ),
            _ => None,
        }
    } else if bytes_eq(tag.as_slice(), tag_init_ok.as_slice()) {
        match (node_id, node_ids, echo, guid) {
            (None, None, None, None) => Some(Payload::InitOk),
            _ => None,
        }
    } else if bytes_eq(tag.as_slice(), tag_echo.as_slice()) {
        match (node_id, node_ids, echo, guid) {
            (None, None, Some(e), None) => Some(Payload::Echo { echo: e }),
            _ => None,
        }
    } else if bytes_eq(tag.as_slice(), tag_echo_ok.as_slice()) {
        match (node_id, node_ids, echo, guid) {
            (None, None, Some(e), None) => Some(Payload::EchoOk { echo: e }),
            _ => None,
        }
    } else if bytes_eq(tag.as_slice(), tag_generate.as_slice()) {
        match (node_id, node_ids, echo, guid) {
            (None, None, None, None) => Some(Payload::Generate),
            _ => None,
        }
    } else if bytes_eq(tag.as_slice(), tag_generate_ok.as_slice()) {
        match (node_id, node_ids, echo, guid) {
            (None, None, None, Some(g)) => Some(Payload::GenerateOk { guid: g }),
            _ => None,
        }
    } else {
        None
    }
}

/// Reads the quoted key `key` and its colon.
fn take_key_colon(s: &[u8], i: usize, key: &[u8]) -> (r: Option<usize>)
    requires
        i <= s@.len(),
    ensures
        match r {
            Some(j) => parse_key_colon(s@, i as int, key@) == Some(j as int) && i < j <= s@.len(),
            None => parse_key_colon(s@, i as int, key@) is None,
        },
{
    match take_quoted(s, i) {
        None => None,
        Some((k, j)) => {
            let j2 = skip_ws(s, j);
            if bytes_eq(k.as_slice(), key) && at(s, j2, 58) {
                Some(skip_ws(s, j2 + 1))
            } else {
                None
            }
        },
    }
}

/// Reads a body object.
fn take_body(s: &[u8], i: usize, fuel: usize) -> (r: Option<(Body, usize)>)
    requires
        i <= s@.len(),
    ensures
        match r {
            Some((b, j)) => parse_body(s@, i as int, fuel as nat) == Some((b@, j as int)) && j
                <= s@.len(),
            None => parse_body(s@, i as int, fuel as nat) is None,
        },
{
    if !at(s, i, 123) {
        return None;
    }
    let key_type = bytes_type();
    match take_key_colon(s, skip_ws(s, i + 1), key_type.as_slice()) {
        None => None,
        Some(a) => match take_quoted(s, a) {
            None => None,
            Some((tag, j)) => {
                let empty = FieldSet {
                    msg_id: None,
                    in_reply_to: None,
                    node_id: None,
                    node_ids: None,
                    echo: None,
                    guid: None,
                };
                proof {
                    assert(empty@ == no_fields());
                }
                match take_members(s, j, empty, fuel) {
                    None => None,
                    Some((f, e)) => {
                        let id = match f.msg_id {
                            Some(v) => v,
                            None => None,
                        };
                        let to = match f.in_reply_to {
                            Some(v) => v,
                            None => None,
                        };
                        let ghost fv = f@;
                        match fields_to_payload(&tag, f) {
                            None => None,
                            Some(p) => Some((Body { payload: p, id, to }, e)),
                        }
                    },
                }
            },
        },
    }
}

/// The envelope members read so far, as runtime values.
pub struct MsgFieldSet {
    pub src: Option<Vec<u8>>,
    pub dst: Option<Vec<u8>>,
    pub body: Option<Body>,
}

impl View for MsgFieldSet {
    type V = MsgFieldsV;

    open spec fn view(&self) -> MsgFieldsV {
        MsgFieldsV {
            src: match self.src {
                Some(ref t) => Some(t@),
                None => None,
            },
            dst: match self.dst {
                Some(ref t) => Some(t@),
                None => None,
            },
            body: match self.body {
                Some(ref b) => Some(b@),
                None => None,
            },
        }
    }
}

/// Reads one envelope member, starting at its key's opening quote.
fn take_msg_member(s: &[u8], i: usize, f: MsgFieldSet, fuel: usize) -> (r: Option<
    (MsgFieldSet, usize),
>)
    requires
        i <= s@.len(),
    ensures
        match r {
            Some((g, j)) => parse_msg_member(s@, i as int, f@, fuel as nat) == Some(
                (g@, j as int),
            ) && j <= s@.len(),
            None => parse_msg_member(s@, i as int, f@, fuel as nat) is None,
        },
{
    match take_quoted(s, i) {
        None => None,
        Some((k, j)) => {
            let j2 = skip_ws(s, j);
            if !at(s, j2, 58) {
                return None;
            }
            let v = skip_ws(s, j2 + 1);
            let key_src = bytes_src();
            let key_dest = bytes_dest();
            let key_body = bytes_body();
            if bytes_eq(k.as_slice(), key_src.as_slice()) {
                if f.src.is_some() {
                    return None;
                }
                match take_quoted(s, v) {
                    None => None,
                    Some((t, e)) => Some((MsgFieldSet { src: Some(t), ..f }, e)),
                }
            } else if bytes_eq(k.as_slice(), key_dest.as_slice()) {
                if f.dst.is_some() {
                    return None;
                }
                match take_quoted(s, v) {
                    None => None,
                    Some((t, e)) => Some((MsgFieldSet { dst: Some(t), ..f }, e)),
                }
            } else if bytes_eq(k.as_slice(), key_body.as_slice()) {
                if f.body.is_some() {
                    return None;
                }
                match take_body(s, v, fuel) {
                    None => None,
                    Some((b, e)) => Some((MsgFieldSet { body: Some(b), ..f }, e)),
                }
            } else {
                None
            }
        },
    }
}

/// Reads the envelope members after the first, up to and over the closing
/// brace.
fn take_msg_members(s: &[u8], i: usize, f: MsgFieldSet, fuel: usize) -> (r: Option<
    (MsgFieldSet, usize),
>)
    requires
        i <= s@.len(),
    ensures
        match r {
            Some((g, j)) => parse_msg_members(s@, i as int, f@, fuel as nat) == Some(
                (g@, j as int),
            ) && j <= s@.len(),
            None => parse_msg_members(s@, i as int, f@, fuel as nat) is None,
        },
    decreases fuel,
{
    let j = skip_ws(s, i);
    if at(s, j, 125) {
        return Some((f, j + 1));
    }
    if !(at(s, j, 44) && fuel > 0) {
        return None;
    }
    match take_msg_member(s, skip_ws(s, j + 1), f, fuel) {
        None => None,
        Some((f2, e)) => take_msg_members(s, e, f2, fuel - 1),
    }
}

/// Reads a whole envelope.
fn take_msg(s: &[u8], i: usize, fuel: usize) -> (r: Option<(Message, usize)>)
    requires
        i <= s@.len(),
    ensures
        match r {
            Some((m, j)) => parse_msg(s@, i as int, fuel as nat) == Some((m@, j as int)) && j
                <= s@.len(),
            None => parse_msg(s@, i as int, fuel as nat) is None,
        },
{
    let i0 = skip_ws(s, i);
    if !at(s, i0, 123) {
        return None;
    }
    let empty = MsgFieldSet { src: None, dst: None, body: None };
    proof {
        assert(empty@ == no_msg_fields());
    }
    match take_msg_member(s, skip_ws(s, i0 + 1), empty, fuel) {
        None => None,
        Some((f1, e)) => match take_msg_members(s, e, f1, fuel) {
            None => None,
            Some((f, e2)) => {
                let MsgFieldSet { src, dst, body } = f;
                match (src, dst, body) {
                    (Some(src), Some(dst), Some(body)) => Some(
                        (Message { src, dst, body }, e2),
                    ),
                    _ => None,
                }
            },
        },
    }
}

/// Decodes one input line (without its newline) as a message. Succeeds
/// exactly when the line is one well-formed envelope, and then returns
/// exactly the message the line spells.
pub fn decode(line: &[u8]) -> (r: Result<Message, DecodeError>)
    ensures
        match r {
            Ok(m) => spec_decode(line@) == Some(m@),
            Err(_) => spec_decode(line@) is None,
        },
{
    match take_msg(line, 0, line.len()) {
        None => Err(DecodeError),
        Some((m, j)) => {
            let e = skip_ws(line, j);
            if e == line.len() {
                Ok(m)
            } else {
                Err(DecodeError)
            }
        },
    }
}

} // verus!
