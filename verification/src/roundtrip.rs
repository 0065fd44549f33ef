//! Decoding an encoded message gives the message back: the parse inverts
//! the encoding on every message the wire can carry.

use vstd::prelude::*;

use crate::codec::{
    byte_at, dec_digits, digit_run_end, digits_val, enc_elems, enc_key, enc_member, enc_opt_num,
    enc_payload_fields, enc_str, enc_str_array, esc, esc_byte, hex_digit, hex_val, is_digit,
    is_text_byte, is_ws, lit_body, lit_dest, lit_echo, lit_echo_ok, lit_generate,
    lit_generate_ok, lit_id, lit_in_reply_to, lit_init, lit_init_ok, lit_msg_id, lit_node_id,
    lit_node_ids, lit_null, lit_src, lit_type, matches_at, no_fields, no_msg_fields,
    parse_arr_elems, parse_body, parse_key_colon, parse_members, parse_msg, parse_msg_member,
    parse_msg_members, parse_num, parse_opt_num, parse_quoted, parse_str_array, parse_text,
    payload_of_fields, spec_decode, spec_enc_body, spec_enc_msg, tag_of, unescape, valid_id,
    valid_message, valid_text, ws_end, FieldsV, MsgFieldsV,
};
use crate::decode::{lemma_digit_run_end, lemma_digit_run_end_all, lemma_digits_val_nonneg};
use crate::protocol::{BodyV, MessageV, PayloadV};

verus! {

/// A byte of a literal stands in the input where the literal matches.
pub proof fn lemma_byte(s: Seq<u8>, i: int, e: Seq<u8>, d: int)
    requires
        matches_at(s, i, e),
        0 <= d < e.len(),
    ensures
        byte_at(s, i + d, e[d]),
{
    assert(s.subrange(i, i + e.len())[d] == s[i + d]);
}

/// A piece of a matched stretch is itself matched at its offset.
pub proof fn lemma_piece(s: Seq<u8>, i: int, e: Seq<u8>, a: int, b: Seq<u8>)
    requires
        matches_at(s, i, e),
        0 <= a,
        a + b.len() <= e.len(),
        e.subrange(a, a + b.len()) == b,
    ensures
        matches_at(s, i + a, b),
{
    assert forall|d: int| 0 <= d < b.len() implies s.subrange(i + a, i + a + b.len())[d]
        == b[d] by {
        assert(s.subrange(i, i + e.len())[a + d] == s[i + a + d]);
        assert(e.subrange(a, a + b.len())[d] == e[a + d]);
    }
    assert(s.subrange(i + a, i + a + b.len()) =~= b);
}

/// Escaping a string of plain text bytes leaves it as it is; in
/// particular the fixed keys and tags encode as themselves.
pub proof fn lemma_esc_text_id(t: Seq<u8>)
    requires
        valid_text(t),
    ensures
        esc(t) == t,
    decreases t.len(),
{
    if t.len() > 0 {
        assert(esc_byte(t[0]) == seq![t[0]]);
        lemma_esc_text_id(t.skip(1));
        assert(seq![t[0]] + t.skip(1) =~= t);
    }
}

/// Where a string's escaped contents are matched and the closing quote
/// follows, the parse unescapes exactly the string.
pub proof fn lemma_parse_esc_at(s: Seq<u8>, i: int, t: Seq<u8>)
    requires
        matches_at(s, i, esc(t)),
        i + esc(t).len() < s.len(),
        s[i + esc(t).len()] == 34,
    ensures
        parse_text(s, i) == Some((t, i + esc(t).len() + 1)),
    decreases t.len(),
{
    if t.len() == 0 {
        assert(esc(t).len() == 0);
    } else {
        let b = t[0];
        let e0 = esc_byte(b);
        let rest = esc(t.skip(1));
        assert(esc(t) == e0 + rest);
        assert forall|d: int| 0 <= d < e0.len() implies s[i + d] == e0[d] by {
            lemma_byte(s, i, esc(t), d);
        }
        assert(esc(t).subrange(e0.len() as int, esc(t).len() as int) =~= rest);
        lemma_piece(s, i, esc(t), e0.len() as int, rest);
        lemma_parse_esc_at(s, i + e0.len(), t.skip(1));
        assert(s[i + 0] == e0[0]);
        if b == 34 || b == 92 || b == 8 || b == 12 || b == 10 || b == 13 || b == 9 {
            assert(s[i + 1] == e0[1]);
            assert(s[i] == 92);
            assert(unescape(s[i + 1]) == Some(b));
            assert(seq![b] + t.skip(1) =~= t);
        } else if b < 32 {
            assert(s[i + 1] == e0[1] && s[i + 2] == e0[2] && s[i + 3] == e0[3] && s[i + 4]
                == e0[4] && s[i + 5] == e0[5]);
            assert(s[i] == 92 && s[i + 1] == 117 && s[i + 2] == 48 && s[i + 3] == 48);
            assert(s[i + 4] == hex_digit(b as int / 16));
            assert(s[i + 5] == hex_digit(b as int % 16));
            assert(hex_val(hex_digit(b as int / 16)) == b as int / 16);
            assert(hex_val(hex_digit(b as int % 16)) == b as int % 16);
            assert((b as int / 16) * 16 + b as int % 16 == b as int);
            assert(seq![b] + t.skip(1) =~= t);
        } else {
            assert(e0 == seq![b]);
            assert(s[i] == b);
            assert(is_text_byte(b));
            assert(seq![b] + t.skip(1) =~= t);
        }
    }
}

/// Where a quoted string is matched, the parse reads exactly it.
pub proof fn lemma_parse_quoted_at(s: Seq<u8>, i: int, t: Seq<u8>)
    requires
        matches_at(s, i, enc_str(t)),
    ensures
        parse_quoted(s, i) == Some((t, i + enc_str(t).len())),
{
    lemma_byte(s, i, enc_str(t), 0);
    lemma_byte(s, i, enc_str(t), esc(t).len() as int + 1);
    assert(enc_str(t)[0] == 34);
    assert(enc_str(t)[esc(t).len() as int + 1] == 34);
    assert(enc_str(t).subrange(1, 1 + esc(t).len() as int) =~= esc(t));
    lemma_piece(s, i, enc_str(t), 1, esc(t));
    lemma_parse_esc_at(s, i + 1, t);
}

/// The decimal digits of a number are digits.
pub proof fn lemma_dec_digits_are_digits(n: int)
    requires
        n >= 0,
    ensures
        forall|j: int| 0 <= j < dec_digits(n).len() ==> is_digit(#[trigger] dec_digits(n)[j]),
        dec_digits(n).len() >= 1,
        is_digit(dec_digits(n)[0]),
    decreases n,
{
    if n >= 10 {
        lemma_dec_digits_are_digits(n / 10);
    }
}

/// The decimal digits of a number are worth the number.
pub proof fn lemma_digits_val_of_dec(n: int)
    requires
        0 <= n,
    ensures
        digits_val(dec_digits(n)) == n,
    decreases n,
{
    if n < 10 {
        assert(dec_digits(n) == seq![(48 + n) as u8]);
        assert(dec_digits(n).drop_last() =~= Seq::<u8>::empty());
        assert(digits_val(Seq::<u8>::empty()) == 0);
        assert(dec_digits(n).last() == (48 + n) as u8);
        assert((48 + n) as u8 == 48 + n);
        assert(digits_val(dec_digits(n)) == digits_val(dec_digits(n).drop_last()) * 10 + (
        dec_digits(n).last() - 48));
    } else {
        lemma_digits_val_of_dec(n / 10);
        assert(dec_digits(n).drop_last() =~= dec_digits(n / 10));
        assert(0 <= n % 10 < 10);
        assert(dec_digits(n).last() == (48 + n % 10) as u8);
        assert((48 + n % 10) as u8 == 48 + n % 10);
        assert(digits_val(dec_digits(n)) == (n / 10) * 10 + n % 10);
        assert((n / 10) * 10 + n % 10 == n);
    }
}

/// Where a number's digits are matched and a non-digit follows, the parse
/// reads exactly the number.
pub proof fn lemma_parse_num_at(s: Seq<u8>, i: int, n: int)
    requires
        0 <= n <= usize::MAX as int,
        matches_at(s, i, dec_digits(n)),
        i + dec_digits(n).len() < s.len(),
        !is_digit(s[i + dec_digits(n).len()]),
    ensures
        parse_num(s, i) == Some((n, i + dec_digits(n).len())),
{
    let d = dec_digits(n);
    lemma_dec_digits_are_digits(n);
    assert forall|j: int| i <= j < i + d.len() implies is_digit(#[trigger] s[j]) by {
        assert(s.subrange(i, i + d.len())[j - i] == s[j]);
        assert(d[j - i] == s[j]);
    }
    lemma_digit_run_end(s, i, i + d.len());
    assert(s.subrange(i, i + d.len()) == d);
    lemma_digits_val_of_dec(n);
}

/// Where an optional id's encoding is matched, the parse reads exactly it.
pub proof fn lemma_parse_opt_num_at(s: Seq<u8>, i: int, v: Option<int>)
    requires
        valid_id(v),
        matches_at(s, i, enc_opt_num(v)),
        i + enc_opt_num(v).len() < s.len(),
        !is_digit(s[i + enc_opt_num(v).len()]),
    ensures
        parse_opt_num(s, i) == Some((v, i + enc_opt_num(v).len())),
{
    match v {
        None => {
            assert(matches_at(s, i, lit_null()));
        },
        Some(n) => {
            lemma_dec_digits_are_digits(n);
            if matches_at(s, i, lit_null()) {
                lemma_byte(s, i, lit_null(), 0);
                lemma_byte(s, i, dec_digits(n), 0);
                assert(lit_null()[0] == 110);
                assert(false);
            }
            lemma_parse_num_at(s, i, n);
        },
    }
}

/// The fixed key and tag literals are valid unescaped strings.
pub proof fn lemma_lits_valid()
    ensures
        valid_text(lit_src()),
        valid_text(lit_dest()),
        valid_text(lit_body()),
        valid_text(lit_type()),
        valid_text(lit_msg_id()),
        valid_text(lit_in_reply_to()),
        valid_text(lit_node_id()),
        valid_text(lit_node_ids()),
        valid_text(lit_echo()),
        valid_text(lit_id()),
        valid_text(lit_init()),
        valid_text(lit_init_ok()),
        valid_text(lit_echo_ok()),
        valid_text(lit_generate()),
        valid_text(lit_generate_ok()),
{
}

/// Where a key and its colon are matched and a non-whitespace byte
/// follows, the parse reads over them to that byte.
pub proof fn lemma_parse_key_colon_at(s: Seq<u8>, i: int, k: Seq<u8>)
    requires
        matches_at(s, i, enc_key(k)),
        i + enc_key(k).len() < s.len(),
        !is_ws(s[i + enc_key(k).len()]),
    ensures
        parse_key_colon(s, i, k) == Some(i + enc_key(k).len()),
{
    assert(enc_key(k).subrange(0, enc_str(k).len() as int) =~= enc_str(k));
    lemma_piece(s, i, enc_key(k), 0, enc_str(k));
    lemma_parse_quoted_at(s, i, k);
    let j = i + enc_str(k).len();
    lemma_byte(s, i, enc_key(k), enc_str(k).len() as int);
    assert(enc_key(k)[enc_str(k).len() as int] == 58);
    assert(!is_ws(58u8));
    assert(ws_end(s, j) == j);
    assert(ws_end(s, j + 1) == j + 1);
}

/// Where the elements of a non-empty array are matched and the closing
/// bracket follows, the parse reads exactly the elements.
pub proof fn lemma_parse_arr_elems_at(s: Seq<u8>, i: int, xs: Seq<Seq<u8>>, fuel: nat)
    requires
        xs.len() >= 1,
        fuel >= xs.len() - 1,
        matches_at(s, i, enc_elems(xs)),
        i + enc_elems(xs).len() < s.len(),
        s[i + enc_elems(xs).len()] == 93,
    ensures
        parse_arr_elems(s, i, fuel) == Some((xs, i + enc_elems(xs).len() + 1)),
    decreases xs.len(),
{
    let e = enc_elems(xs);
    let x0 = xs[0];
    if xs.len() == 1 {
        assert(e == enc_str(x0));
        lemma_parse_quoted_at(s, i, x0);
        assert(!is_ws(93u8));
        assert(ws_end(s, i + e.len()) == i + e.len());
        assert(byte_at(s, i + e.len(), 93));
        assert(seq![x0] =~= xs);
    } else {
        let rest = xs.skip(1);
        assert(e == enc_str(x0) + seq![44u8] + enc_elems(rest));
        assert(e.subrange(0, enc_str(x0).len() as int) =~= enc_str(x0));
        lemma_piece(s, i, e, 0, enc_str(x0));
        lemma_parse_quoted_at(s, i, x0);
        let j = i + enc_str(x0).len();
        lemma_byte(s, i, e, enc_str(x0).len() as int);
        assert(e[enc_str(x0).len() as int] == 44);
        assert(!is_ws(44u8));
        assert(ws_end(s, j) == j);
        assert(byte_at(s, j, 44));
        assert(!byte_at(s, j, 93));
        assert(e.subrange(
            enc_str(x0).len() as int + 1,
            enc_str(x0).len() as int + 1 + enc_elems(rest).len() as int,
        ) =~= enc_elems(rest));
        lemma_piece(s, i, e, enc_str(x0).len() as int + 1, enc_elems(rest));
        lemma_byte(s, i + enc_str(x0).len() as int + 1, enc_elems(rest), 0);
        assert(enc_elems(rest)[0] == 34) by {
            if rest.len() == 1 {
            } else {
                assert(enc_elems(rest) == enc_str(rest[0]) + seq![44u8] + enc_elems(rest.skip(1)));
            }
        }
        assert(!is_ws(34u8));
        assert(ws_end(s, j + 1) == j + 1);
        lemma_parse_arr_elems_at(s, j + 1, rest, (fuel - 1) as nat);
        assert(j + 1 + enc_elems(rest).len() == i + e.len());
        assert(seq![x0] + rest =~= xs);
    }
}

/// Where a whole string array is matched, the parse reads exactly it.
pub proof fn lemma_parse_str_array_at(s: Seq<u8>, i: int, xs: Seq<Seq<u8>>, fuel: nat)
    requires
        fuel >= xs.len(),
        matches_at(s, i, enc_str_array(xs)),
    ensures
        parse_str_array(s, i, fuel) == Some((xs, i + enc_str_array(xs).len())),
{
    let e = enc_str_array(xs);
    lemma_byte(s, i, e, 0);
    assert(e[0] == 91);
    if xs.len() == 0 {
        assert(e =~= seq![91u8, 93u8]);
        lemma_byte(s, i, e, 1);
        assert(e[1] == 93);
        assert(!is_ws(93u8));
        assert(ws_end(s, i + 1) == i + 1);
        assert(xs =~= Seq::<Seq<u8>>::empty());
    } else {
        lemma_byte(s, i, e, 1);
        assert(enc_elems(xs)[0] == enc_str(xs[0])[0]) by {
            if xs.len() == 1 {
            } else {
                assert(enc_elems(xs) == enc_str(xs[0]) + seq![44u8] + enc_elems(xs.skip(1)));
            }
        }
        assert(e[1] == 34);
        assert(!is_ws(34u8));
        assert(ws_end(s, i + 1) == i + 1);
        assert(!byte_at(s, i + 1, 93));
        assert(e.subrange(1, 1 + enc_elems(xs).len() as int) =~= enc_elems(xs));
        lemma_piece(s, i, e, 1, enc_elems(xs));
        lemma_byte(s, i, e, 1 + enc_elems(xs).len() as int);
        assert(e[1 + enc_elems(xs).len() as int] == 93);
        lemma_parse_arr_elems_at(s, i + 1, xs, fuel);
    }
}

/// Where a `msg_id` member is matched, the members parse records the id
/// and moves on.
pub proof fn lemma_member_msg_id(s: Seq<u8>, i: int, f: FieldsV, fuel: nat, v: Option<int>)
    requires
        fuel >= 1,
        f.msg_id is None,
        valid_id(v),
        matches_at(s, i, enc_member(lit_msg_id(), enc_opt_num(v))),
        i + enc_member(lit_msg_id(), enc_opt_num(v)).len() < s.len(),
        !is_digit(s[i + enc_member(lit_msg_id(), enc_opt_num(v)).len()]),
    ensures
        parse_members(s, i, f, fuel) == parse_members(
            s,
            i + enc_member(lit_msg_id(), enc_opt_num(v)).len(),
            FieldsV { msg_id: Some(v), ..f },
            (fuel - 1) as nat,
        ),
{
    lemma_lits_valid();
    lemma_esc_text_id(lit_msg_id());
    let e = enc_member(lit_msg_id(), enc_opt_num(v));
    let k = enc_key(lit_msg_id());
    lemma_byte(s, i, e, 0);
    assert(e[0] == 44);
    assert(e.subrange(1, 1 + enc_str(lit_msg_id()).len() as int) =~= enc_str(lit_msg_id()));
    lemma_piece(s, i, e, 1, enc_str(lit_msg_id()));
    lemma_parse_quoted_at(s, i + 1, lit_msg_id());
    lemma_byte(s, i, e, enc_str(lit_msg_id()).len() as int + 1);
    assert(e[enc_str(lit_msg_id()).len() as int + 1] == 58);
    lemma_byte(s, i, e, 1);
    assert(e[1] == 34);
    assert(!is_ws(44u8) && !is_ws(34u8) && !is_ws(58u8));
    assert(ws_end(s, i) == i);
    assert(ws_end(s, i + 1) == i + 1);
    assert(ws_end(s, i + 1 + enc_str(lit_msg_id()).len()) == i + 1 + enc_str(lit_msg_id()).len());
    let vpos = i + 1 + k.len();
    assert(e.subrange(1 + k.len() as int, e.len() as int) =~= enc_opt_num(v));
    lemma_piece(s, i, e, 1 + k.len() as int, enc_opt_num(v));
    lemma_byte(s, i, e, 1 + k.len() as int);
    assert(!is_ws(s[vpos])) by {
        if v is Some {
            lemma_dec_digits_are_digits(v.unwrap());
            assert(e[1 + k.len() as int] == dec_digits(v.unwrap())[0]);
        } else {
            assert(e[1 + k.len() as int] == 110);
        }
    }
    assert(ws_end(s, vpos) == vpos);
    lemma_parse_opt_num_at(s, vpos, v);
    assert(vpos + enc_opt_num(v).len() == i + e.len());
}

/// Where an `in_reply_to` member is matched, the members parse records the
/// correlation id and moves on.
pub proof fn lemma_member_in_reply_to(s: Seq<u8>, i: int, f: FieldsV, fuel: nat, v: Option<int>)
    requires
        fuel >= 1,
        f.in_reply_to is None,
        valid_id(v),
        matches_at(s, i, enc_member(lit_in_reply_to(), enc_opt_num(v))),
        i + enc_member(lit_in_reply_to(), enc_opt_num(v)).len() < s.len(),
        !is_digit(s[i + enc_member(lit_in_reply_to(), enc_opt_num(v)).len()]),
    ensures
        parse_members(s, i, f, fuel) == parse_members(
            s,
            i + enc_member(lit_in_reply_to(), enc_opt_num(v)).len(),
            FieldsV { in_reply_to: Some(v), ..f },
            (fuel - 1) as nat,
        ),
{
    lemma_lits_valid();
    lemma_esc_text_id(lit_in_reply_to());
    let e = enc_member(lit_in_reply_to(), enc_opt_num(v));
    let k = enc_key(lit_in_reply_to());
    lemma_byte(s, i, e, 0);
    assert(e[0] == 44);
    assert(e.subrange(1, 1 + enc_str(lit_in_reply_to()).len() as int) =~= enc_str(
        lit_in_reply_to(),
    ));
    lemma_piece(s, i, e, 1, enc_str(lit_in_reply_to()));
    lemma_parse_quoted_at(s, i + 1, lit_in_reply_to());
    lemma_byte(s, i, e, enc_str(lit_in_reply_to()).len() as int + 1);
    assert(e[enc_str(lit_in_reply_to()).len() as int + 1] == 58);
    lemma_byte(s, i, e, 1);
    assert(e[1] == 34);
    assert(!is_ws(44u8) && !is_ws(34u8) && !is_ws(58u8));
    assert(ws_end(s, i) == i);
    assert(ws_end(s, i + 1) == i + 1);
    assert(ws_end(s, i + 1 + enc_str(lit_in_reply_to()).len()) == i + 1 + enc_str(lit_in_reply_to()).len());
    assert(lit_in_reply_to() != lit_msg_id()) by {
        assert(lit_in_reply_to().len() != lit_msg_id().len());
    }
    let vpos = i + 1 + k.len();
    assert(e.subrange(1 + k.len() as int, e.len() as int) =~= enc_opt_num(v));
    lemma_piece(s, i, e, 1 + k.len() as int, enc_opt_num(v));
    lemma_byte(s, i, e, 1 + k.len() as int);
    assert(!is_ws(s[vpos])) by {
        if v is Some {
            lemma_dec_digits_are_digits(v.unwrap());
            assert(e[1 + k.len() as int] == dec_digits(v.unwrap())[0]);
        } else {
            assert(e[1 + k.len() as int] == 110);
        }
    }
    assert(ws_end(s, vpos) == vpos);
    lemma_parse_opt_num_at(s, vpos, v);
    assert(vpos + enc_opt_num(v).len() == i + e.len());
}

/// Where a `node_id` member is matched, the members parse records it and
/// moves on.
pub proof fn lemma_member_node_id(s: Seq<u8>, i: int, f: FieldsV, fuel: nat, t: Seq<u8>)
    requires
        fuel >= 1,
        f.node_id is None,
        matches_at(s, i, enc_member(lit_node_id(), enc_str(t))),
    ensures
        parse_members(s, i, f, fuel) == parse_members(
            s,
            i + enc_member(lit_node_id(), enc_str(t)).len(),
            FieldsV { node_id: Some(t), ..f },
            (fuel - 1) as nat,
        ),
{
    lemma_lits_valid();
    lemma_esc_text_id(lit_node_id());
    let e = enc_member(lit_node_id(), enc_str(t));
    let k = enc_key(lit_node_id());
    lemma_byte(s, i, e, 0);
    assert(e[0] == 44);
    assert(e.subrange(1, 1 + enc_str(lit_node_id()).len() as int) =~= enc_str(lit_node_id()));
    lemma_piece(s, i, e, 1, enc_str(lit_node_id()));
    lemma_parse_quoted_at(s, i + 1, lit_node_id());
    lemma_byte(s, i, e, enc_str(lit_node_id()).len() as int + 1);
    assert(e[enc_str(lit_node_id()).len() as int + 1] == 58);
    lemma_byte(s, i, e, 1);
    assert(e[1] == 34);
    assert(!is_ws(44u8) && !is_ws(34u8) && !is_ws(58u8));
    assert(ws_end(s, i) == i);
    assert(ws_end(s, i + 1) == i + 1);
    assert(ws_end(s, i + 1 + enc_str(lit_node_id()).len()) == i + 1 + enc_str(lit_node_id()).len());
    assert(lit_node_id() != lit_msg_id()) by {
        assert(lit_node_id().len() != lit_msg_id().len());
    }
    assert(lit_node_id() != lit_in_reply_to()) by {
        assert(lit_node_id().len() != lit_in_reply_to().len());
    }
    let vpos = i + 1 + k.len();
    assert(e.subrange(1 + k.len() as int, e.len() as int) =~= enc_str(t));
    lemma_piece(s, i, e, 1 + k.len() as int, enc_str(t));
    lemma_byte(s, i, e, 1 + k.len() as int);
    assert(e[1 + k.len() as int] == 34);
    assert(ws_end(s, vpos) == vpos);
    lemma_parse_quoted_at(s, vpos, t);
    assert(vpos + enc_str(t).len() == i + e.len());
}

/// Where a `node_ids` member is matched, the members parse records the
/// membership list and moves on.
pub proof fn lemma_member_node_ids(s: Seq<u8>, i: int, f: FieldsV, fuel: nat, xs: Seq<Seq<u8>>)
    requires
        fuel >= 1 + xs.len(),
        f.node_ids is None,
        matches_at(s, i, enc_member(lit_node_ids(), enc_str_array(xs))),
    ensures
        parse_members(s, i, f, fuel) == parse_members(
            s,
            i + enc_member(lit_node_ids(), enc_str_array(xs)).len(),
            FieldsV { node_ids: Some(xs), ..f },
            (fuel - 1) as nat,
        ),
{
    lemma_lits_valid();
    lemma_esc_text_id(lit_node_ids());
    let e = enc_member(lit_node_ids(), enc_str_array(xs));
    let k = enc_key(lit_node_ids());
    lemma_byte(s, i, e, 0);
    assert(e[0] == 44);
    assert(e.subrange(1, 1 + enc_str(lit_node_ids()).len() as int) =~= enc_str(lit_node_ids()));
    lemma_piece(s, i, e, 1, enc_str(lit_node_ids()));
    lemma_parse_quoted_at(s, i + 1, lit_node_ids());
    lemma_byte(s, i, e, enc_str(lit_node_ids()).len() as int + 1);
    assert(e[enc_str(lit_node_ids()).len() as int + 1] == 58);
    lemma_byte(s, i, e, 1);
    assert(e[1] == 34);
    assert(!is_ws(44u8) && !is_ws(34u8) && !is_ws(58u8));
    assert(ws_end(s, i) == i);
    assert(ws_end(s, i + 1) == i + 1);
    assert(ws_end(s, i + 1 + enc_str(lit_node_ids()).len()) == i + 1 + enc_str(lit_node_ids()).len());
    assert(lit_node_ids() != lit_msg_id()) by {
        assert(lit_node_ids().len() != lit_msg_id().len());
    }
    assert(lit_node_ids() != lit_in_reply_to()) by {
        assert(lit_node_ids().len() != lit_in_reply_to().len());
    }
    assert(lit_node_ids() != lit_node_id()) by {
        assert(lit_node_ids().len() != lit_node_id().len());
    }
    let vpos = i + 1 + k.len();
    assert(e.subrange(1 + k.len() as int, e.len() as int) =~= enc_str_array(xs));
    lemma_piece(s, i, e, 1 + k.len() as int, enc_str_array(xs));
    lemma_byte(s, i, e, 1 + k.len() as int);
    assert(e[1 + k.len() as int] == 91);
    assert(!is_ws(91u8));
    assert(ws_end(s, vpos) == vpos);
    lemma_parse_str_array_at(s, vpos, xs, fuel);
    assert(vpos + enc_str_array(xs).len() == i + e.len());
}

/// Where an `echo` member is matched, the members parse records it and
/// moves on.
pub proof fn lemma_member_echo(s: Seq<u8>, i: int, f: FieldsV, fuel: nat, t: Seq<u8>)
    requires
        fuel >= 1,
        f.echo is None,
        matches_at(s, i, enc_member(lit_echo(), enc_str(t))),
    ensures
        parse_members(s, i, f, fuel) == parse_members(
            s,
            i + enc_member(lit_echo(), enc_str(t)).len(),
            FieldsV { echo: Some(t), ..f },
            (fuel - 1) as nat,
        ),
{
    lemma_lits_valid();
    lemma_esc_text_id(lit_echo());
    let e = enc_member(lit_echo(), enc_str(t));
    let k = enc_key(lit_echo());
    lemma_byte(s, i, e, 0);
    assert(e[0] == 44);
    assert(e.subrange(1, 1 + enc_str(lit_echo()).len() as int) =~= enc_str(lit_echo()));
    lemma_piece(s, i, e, 1, enc_str(lit_echo()));
    lemma_parse_quoted_at(s, i + 1, lit_echo());
    lemma_byte(s, i, e, enc_str(lit_echo()).len() as int + 1);
    assert(e[enc_str(lit_echo()).len() as int + 1] == 58);
    lemma_byte(s, i, e, 1);
    assert(e[1] == 34);
    assert(!is_ws(44u8) && !is_ws(34u8) && !is_ws(58u8));
    assert(ws_end(s, i) == i);
    assert(ws_end(s, i + 1) == i + 1);
    assert(ws_end(s, i + 1 + enc_str(lit_echo()).len()) == i + 1 + enc_str(lit_echo()).len());
    assert(lit_echo() != lit_msg_id()) by {
        assert(lit_echo().len() != lit_msg_id().len());
    }
    assert(lit_echo() != lit_in_reply_to()) by {
        assert(lit_echo().len() != lit_in_reply_to().len());
    }
    assert(lit_echo() != lit_node_id()) by {
        assert(lit_echo().len() != lit_node_id().len());
    }
    assert(lit_echo() != lit_node_ids()) by {
        assert(lit_echo().len() != lit_node_ids().len());
    }
    let vpos = i + 1 + k.len();
    assert(e.subrange(1 + k.len() as int, e.len() as int) =~= enc_str(t));
    lemma_piece(s, i, e, 1 + k.len() as int, enc_str(t));
    lemma_byte(s, i, e, 1 + k.len() as int);
    assert(e[1 + k.len() as int] == 34);
    assert(ws_end(s, vpos) == vpos);
    lemma_parse_quoted_at(s, vpos, t);
    assert(vpos + enc_str(t).len() == i + e.len());
}

/// Where an `id` member is matched, the members parse records the
/// generated id and moves on.
pub proof fn lemma_member_guid(s: Seq<u8>, i: int, f: FieldsV, fuel: nat, t: Seq<u8>)
    requires
        fuel >= 1,
        f.guid is None,
        matches_at(s, i, enc_member(lit_id(), enc_str(t))),
    ensures
        parse_members(s, i, f, fuel) == parse_members(
            s,
            i + enc_member(lit_id(), enc_str(t)).len(),
            FieldsV { guid: Some(t), ..f },
            (fuel - 1) as nat,
        ),
{
    lemma_lits_valid();
    lemma_esc_text_id(lit_id());
    let e = enc_member(lit_id(), enc_str(t));
    let k = enc_key(lit_id());
    lemma_byte(s, i, e, 0);
    assert(e[0] == 44);
    assert(e.subrange(1, 1 + enc_str(lit_id()).len() as int) =~= enc_str(lit_id()));
    lemma_piece(s, i, e, 1, enc_str(lit_id()));
    lemma_parse_quoted_at(s, i + 1, lit_id());
    lemma_byte(s, i, e, enc_str(lit_id()).len() as int + 1);
    assert(e[enc_str(lit_id()).len() as int + 1] == 58);
    lemma_byte(s, i, e, 1);
    assert(e[1] == 34);
    assert(!is_ws(44u8) && !is_ws(34u8) && !is_ws(58u8));
    assert(ws_end(s, i) == i);
    assert(ws_end(s, i + 1) == i + 1);
    assert(ws_end(s, i + 1 + enc_str(lit_id()).len()) == i + 1 + enc_str(lit_id()).len());
    assert(lit_id() != lit_msg_id()) by {
        assert(lit_id().len() != lit_msg_id().len());
    }
    assert(lit_id() != lit_in_reply_to()) by {
        assert(lit_id().len() != lit_in_reply_to().len());
    }
    assert(lit_id() != lit_node_id()) by {
        assert(lit_id().len() != lit_node_id().len());
    }
    assert(lit_id() != lit_node_ids()) by {
        assert(lit_id().len() != lit_node_ids().len());
    }
    assert(lit_id() != lit_echo()) by {
        assert(lit_id().len() != lit_echo().len());
    }
    let vpos = i + 1 + k.len();
    assert(e.subrange(1 + k.len() as int, e.len() as int) =~= enc_str(t));
    lemma_piece(s, i, e, 1 + k.len() as int, enc_str(t));
    lemma_byte(s, i, e, 1 + k.len() as int);
    assert(e[1 + k.len() as int] == 34);
    assert(ws_end(s, vpos) == vpos);
    lemma_parse_quoted_at(s, vpos, t);
    assert(vpos + enc_str(t).len() == i + e.len());
}

/// The encoded elements of an array are at least as long as the array.
pub proof fn lemma_enc_elems_len(xs: Seq<Seq<u8>>)
    ensures
        enc_elems(xs).len() >= xs.len(),
    decreases xs.len(),
{
    if xs.len() > 1 {
        lemma_enc_elems_len(xs.skip(1));
    }
}

/// Where an encoded body is matched and the fuel covers its members, the
/// body parse reads exactly the body.
#[verifier::rlimit(100)]
#[verifier::spinoff_prover]
pub proof fn lemma_parse_body_at(s: Seq<u8>, i: int, b: BodyV, fuel: nat)
    requires
        valid_id(b.id),
        valid_id(b.to),
        matches_at(s, i, spec_enc_body(b)),
        fuel >= 4 + (match b.payload {
            PayloadV::Init { node_ids, .. } => node_ids.len() as int,
            _ => 0,
        }),
    ensures
        parse_body(s, i, fuel) == Some((b, i + spec_enc_body(b).len())),
{
    lemma_lits_valid();
    let e = spec_enc_body(b);
    let tag = tag_of(b.payload);
    let fields = enc_payload_fields(b.payload);
    let m1 = enc_member(lit_msg_id(), enc_opt_num(b.id));
    let m2 = enc_member(lit_in_reply_to(), enc_opt_num(b.to));
    assert(e == seq![123u8] + enc_key(lit_type()) + enc_str(tag) + fields + m1 + m2
        + seq![125u8]);
    let o3 = 1 + enc_key(lit_type()).len() as int + enc_str(tag).len() as int;
    let o4 = o3 + fields.len() as int;
    let o5 = o4 + m1.len() as int;
    let o6 = o5 + m2.len() as int;
    lemma_esc_text_id(lit_type());
    lemma_byte(s, i, e, 0);
    assert(e[0] == 123);
    lemma_byte(s, i, e, 1);
    assert(e[1] == 34);
    assert(!is_ws(34u8));
    assert(ws_end(s, i + 1) == i + 1);
    assert(e.subrange(1, 1 + enc_key(lit_type()).len() as int) =~= enc_key(lit_type()));
    lemma_piece(s, i, e, 1, enc_key(lit_type()));
    lemma_byte(s, i, e, 8);
    assert(e[8] == 34);
    lemma_parse_key_colon_at(s, i + 1, lit_type());
    assert(e.subrange(8, 8 + enc_str(tag).len() as int) =~= enc_str(tag));
    lemma_piece(s, i, e, 8, enc_str(tag));
    lemma_parse_quoted_at(s, i + 8, tag);
    // the two id members stand at o4 and o5, and the closing brace at o6
    assert(e.subrange(o4, o4 + m1.len() as int) =~= m1);
    lemma_piece(s, i, e, o4, m1);
    assert(e.subrange(o5, o5 + m2.len() as int) =~= m2);
    lemma_piece(s, i, e, o5, m2);
    lemma_byte(s, i, e, o5);
    assert(e[o5] == 44);
    lemma_byte(s, i, e, o6);
    assert(e[o6] == 125);
    let f0 = no_fields();
    match b.payload {
        PayloadV::Init { node_id, node_ids } => {
            let w1 = enc_member(lit_node_id(), enc_str(node_id));
            let w2 = enc_member(lit_node_ids(), enc_str_array(node_ids));
            assert(fields == w1 + w2);
            assert(e.subrange(o3, o3 + w1.len() as int) =~= w1);
            lemma_piece(s, i, e, o3, w1);
            lemma_member_node_id(s, i + o3, f0, fuel, node_id);
            let f1 = FieldsV { node_id: Some(node_id), ..f0 };
            let p2 = o3 + w1.len() as int;
            assert(e.subrange(p2, p2 + w2.len() as int) =~= w2);
            lemma_piece(s, i, e, p2, w2);
            lemma_member_node_ids(s, i + p2, f1, (fuel - 1) as nat, node_ids);
            let f2 = FieldsV { node_ids: Some(node_ids), ..f1 };
            lemma_member_msg_id(s, i + o4, f2, (fuel - 2) as nat, b.id);
            let f3 = FieldsV { msg_id: Some(b.id), ..f2 };
            lemma_member_in_reply_to(s, i + o5, f3, (fuel - 3) as nat, b.to);
            let f4 = FieldsV { in_reply_to: Some(b.to), ..f3 };
            assert(byte_at(s, i + o6, 125));
            assert(!is_ws(125u8));
            assert(ws_end(s, i + o6) == i + o6);
            assert(parse_members(s, i + o6, f4, (fuel - 4) as nat) == Some((f4, i + o6 + 1)));
            assert(payload_of_fields(tag, f4) == Some(b.payload));
        },
        PayloadV::InitOk => {
            assert(fields.len() == 0);
            lemma_member_msg_id(s, i + o4, f0, (fuel - 2) as nat, b.id);
            let f3 = FieldsV { msg_id: Some(b.id), ..f0 };
            lemma_member_in_reply_to(s, i + o5, f3, (fuel - 3) as nat, b.to);
            let f4 = FieldsV { in_reply_to: Some(b.to), ..f3 };
            assert(byte_at(s, i + o6, 125));
            assert(!is_ws(125u8));
            assert(ws_end(s, i + o6) == i + o6);
            assert(parse_members(s, i + o6, f4, (fuel - 4) as nat) == Some((f4, i + o6 + 1)));
            assert(lit_init_ok() != lit_init()) by {
                assert(lit_init_ok().len() != lit_init().len());
            }
            assert(payload_of_fields(tag, f4) == Some(b.payload));
            assert(parse_members(s, i + o3, f0, (fuel - 2) as nat) == Some((f4, i + o6 + 1)));
            lemma_members_fuel_two(s, i + o3, f0, fuel);
        },
        PayloadV::Echo { echo } => {
            let w1 = enc_member(lit_echo(), enc_str(echo));
            assert(fields == w1);
            assert(e.subrange(o3, o3 + w1.len() as int) =~= w1);
            lemma_piece(s, i, e, o3, w1);
            lemma_member_echo(s, i + o3, f0, (fuel - 1) as nat, echo);
            let f1 = FieldsV { echo: Some(echo), ..f0 };
            lemma_member_msg_id(s, i + o4, f1, (fuel - 2) as nat, b.id);
            let f3 = FieldsV { msg_id: Some(b.id), ..f1 };
            lemma_member_in_reply_to(s, i + o5, f3, (fuel - 3) as nat, b.to);
            let f4 = FieldsV { in_reply_to: Some(b.to), ..f3 };
            assert(byte_at(s, i + o6, 125));
            assert(!is_ws(125u8));
            assert(ws_end(s, i + o6) == i + o6);
            assert(parse_members(s, i + o6, f4, (fuel - 4) as nat) == Some((f4, i + o6 + 1)));
            assert(lit_echo() != lit_init()) by {
                assert(lit_echo()[0] != lit_init()[0]);
            }
            assert(lit_echo() != lit_init_ok()) by {
                assert(lit_echo().len() != lit_init_ok().len());
            }
            assert(payload_of_fields(tag, f4) == Some(b.payload));
            lemma_members_fuel_one(s, i + o3, f0, fuel);
        },
        PayloadV::EchoOk { echo } => {
            let w1 = enc_member(lit_echo(), enc_str(echo));
            assert(fields == w1);
            assert(e.subrange(o3, o3 + w1.len() as int) =~= w1);
            lemma_piece(s, i, e, o3, w1);
            lemma_member_echo(s, i + o3, f0, (fuel - 1) as nat, echo);
            let f1 = FieldsV { echo: Some(echo), ..f0 };
            lemma_member_msg_id(s, i + o4, f1, (fuel - 2) as nat, b.id);
            let f3 = FieldsV { msg_id: Some(b.id), ..f1 };
            lemma_member_in_reply_to(s, i + o5, f3, (fuel - 3) as nat, b.to);
            let f4 = FieldsV { in_reply_to: Some(b.to), ..f3 };
            assert(byte_at(s, i + o6, 125));
            assert(!is_ws(125u8));
            assert(ws_end(s, i + o6) == i + o6);
            assert(parse_members(s, i + o6, f4, (fuel - 4) as nat) == Some((f4, i + o6 + 1)));
            assert(lit_echo_ok() != lit_init()) by {
                assert(lit_echo_ok().len() != lit_init().len());
            }
            assert(lit_echo_ok() != lit_init_ok()) by {
                assert(lit_echo_ok()[0] != lit_init_ok()[0]);
            }
            assert(lit_echo_ok() != lit_echo()) by {
                assert(lit_echo_ok().len() != lit_echo().len());
            }
            assert(payload_of_fields(tag, f4) == Some(b.payload));
            lemma_members_fuel_one(s, i + o3, f0, fuel);
        },
        PayloadV::Generate => {
            assert(fields.len() == 0);
            lemma_member_msg_id(s, i + o4, f0, (fuel - 2) as nat, b.id);
            let f3 = FieldsV { msg_id: Some(b.id), ..f0 };
            lemma_member_in_reply_to(s, i + o5, f3, (fuel - 3) as nat, b.to);
            let f4 = FieldsV { in_reply_to: Some(b.to), ..f3 };
            assert(byte_at(s, i + o6, 125));
            assert(!is_ws(125u8));
            assert(ws_end(s, i + o6) == i + o6);
            assert(parse_members(s, i + o6, f4, (fuel - 4) as nat) == Some((f4, i + o6 + 1)));
            assert(lit_generate() != lit_init()) by {
                assert(lit_generate().len() != lit_init().len());
            }
            assert(lit_generate() != lit_init_ok()) by {
                assert(lit_generate().len() != lit_init_ok().len());
            }
            assert(lit_generate() != lit_echo()) by {
                assert(lit_generate().len() != lit_echo().len());
            }
            assert(lit_generate() != lit_echo_ok()) by {
                assert(lit_generate().len() != lit_echo_ok().len());
            }
            assert(payload_of_fields(tag, f4) == Some(b.payload));
            assert(parse_members(s, i + o3, f0, (fuel - 2) as nat) == Some((f4, i + o6 + 1)));
            lemma_members_fuel_two(s, i + o3, f0, fuel);
        },
        PayloadV::GenerateOk { guid } => {
            let w1 = enc_member(lit_id(), enc_str(guid));
            assert(fields == w1);
            assert(e.subrange(o3, o3 + w1.len() as int) =~= w1);
            lemma_piece(s, i, e, o3, w1);
            lemma_member_guid(s, i + o3, f0, (fuel - 1) as nat, guid);
            let f1 = FieldsV { guid: Some(guid), ..f0 };
            lemma_member_msg_id(s, i + o4, f1, (fuel - 2) as nat, b.id);
            let f3 = FieldsV { msg_id: Some(b.id), ..f1 };
            lemma_member_in_reply_to(s, i + o5, f3, (fuel - 3) as nat, b.to);
            let f4 = FieldsV { in_reply_to: Some(b.to), ..f3 };
            assert(byte_at(s, i + o6, 125));
            assert(!is_ws(125u8));
            assert(ws_end(s, i + o6) == i + o6);
            assert(parse_members(s, i + o6, f4, (fuel - 4) as nat) == Some((f4, i + o6 + 1)));
            assert(lit_generate_ok() != lit_init()) by {
                assert(lit_generate_ok().len() != lit_init().len());
            }
            assert(lit_generate_ok() != lit_init_ok()) by {
                assert(lit_generate_ok().len() != lit_init_ok().len());
            }
            assert(lit_generate_ok() != lit_echo()) by {
                assert(lit_generate_ok().len() != lit_echo().len());
            }
            assert(lit_generate_ok() != lit_echo_ok()) by {
                assert(lit_generate_ok().len() != lit_echo_ok().len());
            }
            assert(lit_generate_ok() != lit_generate()) by {
                assert(lit_generate_ok().len() != lit_generate().len());
            }
            assert(payload_of_fields(tag, f4) == Some(b.payload));
            lemma_members_fuel_one(s, i + o3, f0, fuel);
        },
    }
}

/// Where an encoded envelope is matched and the fuel covers its body, the
/// envelope parse reads exactly the message.
#[verifier::rlimit(100)]
#[verifier::spinoff_prover]
#[verifier::rlimit(100)]
#[verifier::spinoff_prover]
pub proof fn lemma_parse_msg_at(s: Seq<u8>, i: int, m: MessageV, fuel: nat)
    requires
        valid_message(m),
        matches_at(s, i, spec_enc_msg(m)),
        fuel >= 5 + (match m.body.payload {
            PayloadV::Init { node_ids, .. } => node_ids.len() as int,
            _ => 0,
        }),
    ensures
        parse_msg(s, i, fuel) == Some((m, i + spec_enc_msg(m).len())),
{
    lemma_lits_valid();
    lemma_esc_text_id(lit_src());
    lemma_esc_text_id(lit_dest());
    lemma_esc_text_id(lit_body());
    let e = spec_enc_msg(m);
    let body = spec_enc_body(m.body);
    assert(e == seq![123u8] + enc_key(lit_src()) + enc_str(m.src) + seq![44u8] + enc_key(
        lit_dest(),
    ) + enc_str(m.dst) + seq![44u8] + enc_key(lit_body()) + body + seq![125u8]);
    let c1 = 7 + enc_str(m.src).len() as int;
    let c2 = c1 + 8 + enc_str(m.dst).len() as int;
    let ob = c2 + 8;
    let oe = ob + body.len() as int;
    assert(!is_ws(123u8) && !is_ws(34u8) && !is_ws(44u8) && !is_ws(125u8));
    lemma_byte(s, i, e, 0);
    assert(e[0] == 123);
    assert(ws_end(s, i) == i);
    lemma_byte(s, i, e, 1);
    assert(e[1] == 34);
    assert(ws_end(s, i + 1) == i + 1);
    // the src member
    assert(e.subrange(1, 7) =~= enc_key(lit_src()));
    lemma_piece(s, i, e, 1, enc_key(lit_src()));
    lemma_byte(s, i, e, 7);
    assert(e[7] == 34);
    lemma_parse_key_colon_at(s, i + 1, lit_src());
    assert(e.subrange(7, c1) =~= enc_str(m.src));
    lemma_piece(s, i, e, 7, enc_str(m.src));
    lemma_parse_quoted_at(s, i + 7, m.src);
    assert(lit_src() != lit_dest()) by {
        assert(lit_src().len() != lit_dest().len());
    }
    assert(lit_src() != lit_body()) by {
        assert(lit_src().len() != lit_body().len());
    }
    assert(parse_msg_member(s, i + 1, no_msg_fields(), fuel) == Some(
        (MsgFieldsV { src: Some(m.src), dst: None, body: None }, i + c1),
    ));
    let f1 = MsgFieldsV { src: Some(m.src), dst: None, body: None };
    // the dest member
    lemma_byte(s, i, e, c1);
    assert(e[c1] == 44);
    assert(ws_end(s, i + c1) == i + c1);
    lemma_byte(s, i, e, c1 + 1);
    assert(e[c1 + 1] == 34);
    assert(ws_end(s, i + c1 + 1) == i + c1 + 1);
    assert(e.subrange(c1 + 1, c1 + 8) =~= enc_key(lit_dest()));
    lemma_piece(s, i, e, c1 + 1, enc_key(lit_dest()));
    lemma_byte(s, i, e, c1 + 8);
    assert(e[c1 + 8] == 34);
    lemma_parse_key_colon_at(s, i + c1 + 1, lit_dest());
    assert(e.subrange(c1 + 8, c2) =~= enc_str(m.dst));
    lemma_piece(s, i, e, c1 + 8, enc_str(m.dst));
    lemma_parse_quoted_at(s, i + c1 + 8, m.dst);
    assert(lit_dest() != lit_src()) by {
        assert(lit_dest().len() != lit_src().len());
    }
    assert(lit_dest() != lit_body()) by {
        assert(lit_dest()[0] != lit_body()[0]);
    }
    let f2 = MsgFieldsV { src: Some(m.src), dst: Some(m.dst), body: None };
    assert(parse_msg_member(s, i + c1 + 1, f1, fuel) == Some((f2, i + c2)));
    // the body member
    lemma_byte(s, i, e, c2);
    assert(e[c2] == 44);
    assert(ws_end(s, i + c2) == i + c2);
    lemma_byte(s, i, e, c2 + 1);
    assert(e[c2 + 1] == 34);
    assert(ws_end(s, i + c2 + 1) == i + c2 + 1);
    assert(e.subrange(c2 + 1, c2 + 8) =~= enc_key(lit_body()));
    lemma_piece(s, i, e, c2 + 1, enc_key(lit_body()));
    lemma_byte(s, i, e, ob);
    assert(e[ob] == 123);
    lemma_parse_key_colon_at(s, i + c2 + 1, lit_body());
    assert(e.subrange(ob, oe) =~= body);
    lemma_piece(s, i, e, ob, body);
    lemma_parse_body_at(s, i + ob, m.body, (fuel - 1) as nat);
    assert(lit_body() != lit_src()) by {
        assert(lit_body().len() != lit_src().len());
    }
    assert(lit_body() != lit_dest()) by {
        assert(lit_body()[0] != lit_dest()[0]);
    }
    let f3 = MsgFieldsV { src: Some(m.src), dst: Some(m.dst), body: Some(m.body) };
    assert(parse_msg_member(s, i + c2 + 1, f2, (fuel - 1) as nat) == Some((f3, i + oe)));
    // the closing brace, and the members loop start to end
    lemma_byte(s, i, e, oe);
    assert(e[oe] == 125);
    assert(ws_end(s, i + oe) == i + oe);
    assert(parse_msg_members(s, i + oe, f3, (fuel - 2) as nat) == Some((f3, i + oe + 1)));
    assert(parse_msg_members(s, i + c2, f2, (fuel - 1) as nat) == Some((f3, i + oe + 1)));
    assert(parse_msg_members(s, i + c1, f1, fuel) == Some((f3, i + oe + 1)));
    assert(i + oe + 1 == i + e.len());
    assert(m == MessageV { src: m.src, dst: m.dst, body: m.body });
}

/// The encoded envelope is long enough to fuel its own parse.
proof fn lemma_enc_msg_fuel(m: MessageV)
    ensures
        spec_enc_msg(m).len() >= 5 + (match m.body.payload {
            PayloadV::Init { node_ids, .. } => node_ids.len() as int,
            _ => 0,
        }),
{
    lemma_lits_valid();
    lemma_esc_text_id(lit_src());
    lemma_esc_text_id(lit_dest());
    lemma_esc_text_id(lit_body());
    lemma_esc_text_id(lit_node_ids());
    let body = spec_enc_body(m.body);
    assert(spec_enc_msg(m).len() >= body.len() + 28);
    match m.body.payload {
        PayloadV::Init { node_id, node_ids } => {
            lemma_enc_elems_len(node_ids);
            let w2 = enc_member(lit_node_ids(), enc_str_array(node_ids));
            assert(enc_payload_fields(m.body.payload).len() >= w2.len());
            assert(w2.len() >= 14 + node_ids.len());
            assert(body.len() >= enc_payload_fields(m.body.payload).len());
        },
        _ => {},
    }
}

/// Round trip: decoding an encoded message gives the message back, for
/// every message the wire can carry.
pub proof fn lemma_decode_encode(m: MessageV)
    requires
        valid_message(m),
    ensures
        spec_decode(spec_enc_msg(m)) == Some(m),
{
    let s = spec_enc_msg(m);
    assert(matches_at(s, 0, s)) by {
        assert(s.subrange(0, s.len() as int) =~= s);
    }
    lemma_enc_msg_fuel(m);
    lemma_parse_msg_at(s, 0, m, s.len() as nat);
    assert(ws_end(s, s.len() as int) == s.len());
}

/// The members parse is the same whether its fuel is drawn down by one or
/// started whole: only the number of members read limits it.
proof fn lemma_members_fuel_one(s: Seq<u8>, i: int, f: FieldsV, fuel: nat)
    requires
        fuel >= 1,
        parse_members(s, i, f, (fuel - 1) as nat) is Some,
    ensures
        parse_members(s, i, f, fuel) == parse_members(s, i, f, (fuel - 1) as nat),
{
    lemma_members_fuel_mono(s, i, f, (fuel - 1) as nat, fuel);
}

/// As `lemma_members_fuel_one`, drawn down by two.
proof fn lemma_members_fuel_two(s: Seq<u8>, i: int, f: FieldsV, fuel: nat)
    requires
        fuel >= 2,
        parse_members(s, i, f, (fuel - 2) as nat) is Some,
    ensures
        parse_members(s, i, f, fuel) == parse_members(s, i, f, (fuel - 2) as nat),
{
    lemma_members_fuel_mono(s, i, f, (fuel - 2) as nat, fuel);
}

/// A members parse that succeeds with some fuel gives the same answer with
/// any more fuel.
proof fn lemma_members_fuel_mono(s: Seq<u8>, i: int, f: FieldsV, fuel1: nat, fuel2: nat)
    requires
        fuel1 <= fuel2,
        parse_members(s, i, f, fuel1) is Some,
    ensures
        parse_members(s, i, f, fuel2) == parse_members(s, i, f, fuel1),
    decreases fuel1,
{
    let i0 = ws_end(s, i);
    if !byte_at(s, i0, 125) {
        if byte_at(s, i0, 44) && fuel1 > 0 {
            match parse_quoted(s, ws_end(s, i0 + 1)) {
                None => {},
                Some((k, j)) => {
                    if byte_at(s, ws_end(s, j), 58) {
                        let v = ws_end(s, ws_end(s, j) + 1);
                        if k == lit_msg_id() {
                            if f.msg_id is None {
                                match parse_opt_num(s, v) {
                                    None => {},
                                    Some((n, e)) => {
                                        lemma_members_fuel_mono(
                                            s,
                                            e,
                                            FieldsV { msg_id: Some(n), ..f },
                                            (fuel1 - 1) as nat,
                                            (fuel2 - 1) as nat,
                                        );
                                    },
                                }
                            }
                        } else if k == lit_in_reply_to() {
                            if f.in_reply_to is None {
                                match parse_opt_num(s, v) {
                                    None => {},
                                    Some((n, e)) => {
                                        lemma_members_fuel_mono(
                                            s,
                                            e,
                                            FieldsV { in_reply_to: Some(n), ..f },
                                            (fuel1 - 1) as nat,
                                            (fuel2 - 1) as nat,
                                        );
                                    },
                                }
                            }
                        } else if k == lit_node_id() {
                            if f.node_id is None {
                                match parse_quoted(s, v) {
                                    None => {},
                                    Some((t, e)) => {
                                        lemma_members_fuel_mono(
                                            s,
                                            e,
                                            FieldsV { node_id: Some(t), ..f },
                                            (fuel1 - 1) as nat,
                                            (fuel2 - 1) as nat,
                                        );
                                    },
                                }
                            }
                        } else if k == lit_node_ids() {
                            if f.node_ids is None {
                                match parse_str_array(s, v, fuel1) {
                                    None => {},
                                    Some((ts, e)) => {
                                        lemma_arr_fuel_mono(s, v, fuel1, fuel2);
                                        lemma_members_fuel_mono(
                                            s,
                                            e,
                                            FieldsV { node_ids: Some(ts), ..f },
                                            (fuel1 - 1) as nat,
                                            (fuel2 - 1) as nat,
                                        );
                                    },
                                }
                            }
                        } else if k == lit_echo() {
                            if f.echo is None {
                                match parse_quoted(s, v) {
                                    None => {},
                                    Some((t, e)) => {
                                        lemma_members_fuel_mono(
                                            s,
                                            e,
                                            FieldsV { echo: Some(t), ..f },
                                            (fuel1 - 1) as nat,
                                            (fuel2 - 1) as nat,
                                        );
                                    },
                                }
                            }
                        } else if k == lit_id() {
                            if f.guid is None {
                                match parse_quoted(s, v) {
                                    None => {},
                                    Some((t, e)) => {
                                        lemma_members_fuel_mono(
                                            s,
                                            e,
                                            FieldsV { guid: Some(t), ..f },
                                            (fuel1 - 1) as nat,
                                            (fuel2 - 1) as nat,
                                        );
                                    },
                                }
                            }
                        }
                    }
                },
            }
        }
    }
}

/// An array parse that succeeds with some fuel gives the same answer with
/// any more fuel.
proof fn lemma_arr_fuel_mono(s: Seq<u8>, i: int, fuel1: nat, fuel2: nat)
    requires
        fuel1 <= fuel2,
        parse_str_array(s, i, fuel1) is Some,
    ensures
        parse_str_array(s, i, fuel2) == parse_str_array(s, i, fuel1),
{
    if byte_at(s, i, 91) && !byte_at(s, ws_end(s, i + 1), 93) {
        lemma_arr_elems_fuel_mono(s, ws_end(s, i + 1), fuel1, fuel2);
    }
}

/// An element-list parse that succeeds with some fuel gives the same answer
/// with any more fuel.
proof fn lemma_arr_elems_fuel_mono(s: Seq<u8>, i: int, fuel1: nat, fuel2: nat)
    requires
        fuel1 <= fuel2,
        parse_arr_elems(s, i, fuel1) is Some,
    ensures
        parse_arr_elems(s, i, fuel2) == parse_arr_elems(s, i, fuel1),
    decreases fuel1,
{
    match parse_quoted(s, i) {
        None => {},
        Some((t, j0)) => {
            let j = ws_end(s, j0);
            if !byte_at(s, j, 93) && byte_at(s, j, 44) && fuel1 > 0 {
                lemma_arr_elems_fuel_mono(
                    s,
                    ws_end(s, j + 1),
                    (fuel1 - 1) as nat,
                    (fuel2 - 1) as nat,
                );
            }
        },
    }
}

/// The id members read so far are wire-valid.
pub open spec fn valid_fields(f: FieldsV) -> bool {
    &&& match f.msg_id {
        Some(v) => valid_id(v),
        None => true,
    }
    &&& match f.in_reply_to {
        Some(v) => valid_id(v),
        None => true,
    }
}

/// A parsed number is a valid id value.
pub proof fn lemma_parse_num_gives_valid(s: Seq<u8>, i: int)
    requires
        parse_num(s, i) is Some,
    ensures
        valid_id(Some(parse_num(s, i).unwrap().0)),
{
    lemma_digit_run_end_all(s, i);
    let e = digit_run_end(s, i);
    assert(forall|j: int|
        0 <= j < s.subrange(i, e).len() ==> is_digit(#[trigger] s.subrange(i, e)[j]));
    lemma_digits_val_nonneg(s.subrange(i, e));
}

/// A parsed optional id is a valid id value.
pub proof fn lemma_parse_opt_num_gives_valid(s: Seq<u8>, i: int)
    requires
        parse_opt_num(s, i) is Some,
    ensures
        valid_id(parse_opt_num(s, i).unwrap().0),
{
    if !matches_at(s, i, lit_null()) {
        lemma_parse_num_gives_valid(s, i);
    }
}

/// The members parse keeps every recorded id wire-valid.
pub proof fn lemma_parse_members_gives_valid(s: Seq<u8>, i: int, f: FieldsV, fuel: nat)
    requires
        valid_fields(f),
        parse_members(s, i, f, fuel) is Some,
    ensures
        valid_fields(parse_members(s, i, f, fuel).unwrap().0),
    decreases fuel,
{
    let i0 = ws_end(s, i);
    if byte_at(s, i0, 125) {
    } else {
        let (k, j) = parse_quoted(s, ws_end(s, i0 + 1)).unwrap();
        let v = ws_end(s, ws_end(s, j) + 1);
        if k == lit_msg_id() {
            let (n, e) = parse_opt_num(s, v).unwrap();
            lemma_parse_opt_num_gives_valid(s, v);
            lemma_parse_members_gives_valid(
                s,
                e,
                FieldsV { msg_id: Some(n), ..f },
                (fuel - 1) as nat,
            );
        } else if k == lit_in_reply_to() {
            let (n, e) = parse_opt_num(s, v).unwrap();
            lemma_parse_opt_num_gives_valid(s, v);
            lemma_parse_members_gives_valid(
                s,
                e,
                FieldsV { in_reply_to: Some(n), ..f },
                (fuel - 1) as nat,
            );
        } else if k == lit_node_id() {
            let (t, e) = parse_quoted(s, v).unwrap();
            lemma_parse_members_gives_valid(
                s,
                e,
                FieldsV { node_id: Some(t), ..f },
                (fuel - 1) as nat,
            );
        } else if k == lit_node_ids() {
            let (ts, e) = parse_str_array(s, v, fuel).unwrap();
            lemma_parse_members_gives_valid(
                s,
                e,
                FieldsV { node_ids: Some(ts), ..f },
                (fuel - 1) as nat,
            );
        } else if k == lit_echo() {
            let (t, e) = parse_quoted(s, v).unwrap();
            lemma_parse_members_gives_valid(
                s,
                e,
                FieldsV { echo: Some(t), ..f },
                (fuel - 1) as nat,
            );
        } else {
            let (t, e) = parse_quoted(s, v).unwrap();
            lemma_parse_members_gives_valid(
                s,
                e,
                FieldsV { guid: Some(t), ..f },
                (fuel - 1) as nat,
            );
        }
    }
}

/// A parsed body carries wire-valid ids.
pub proof fn lemma_parse_body_gives_valid(s: Seq<u8>, i: int, fuel: nat)
    requires
        parse_body(s, i, fuel) is Some,
    ensures
        valid_id(parse_body(s, i, fuel).unwrap().0.id),
        valid_id(parse_body(s, i, fuel).unwrap().0.to),
{
    let a = parse_key_colon(s, ws_end(s, i + 1), lit_type()).unwrap();
    let (tag, j) = parse_quoted(s, a).unwrap();
    lemma_parse_members_gives_valid(s, j, no_fields(), fuel);
}

/// The envelope members a body joins are wire-valid where the body is.
pub open spec fn valid_msg_fields(f: MsgFieldsV) -> bool {
    match f.body {
        Some(b) => valid_id(b.id) && valid_id(b.to),
        None => true,
    }
}

/// One envelope member keeps the recorded body wire-valid.
pub proof fn lemma_parse_msg_member_gives_valid(s: Seq<u8>, i: int, f: MsgFieldsV, fuel: nat)
    requires
        valid_msg_fields(f),
        parse_msg_member(s, i, f, fuel) is Some,
    ensures
        valid_msg_fields(parse_msg_member(s, i, f, fuel).unwrap().0),
{
    let (k, j) = parse_quoted(s, i).unwrap();
    let v = ws_end(s, ws_end(s, j) + 1);
    if k == lit_src() {
    } else if k == lit_dest() {
    } else {
        lemma_parse_body_gives_valid(s, v, fuel);
    }
}

/// The envelope members loop keeps the recorded body wire-valid.
pub proof fn lemma_parse_msg_members_gives_valid(s: Seq<u8>, i: int, f: MsgFieldsV, fuel: nat)
    requires
        valid_msg_fields(f),
        parse_msg_members(s, i, f, fuel) is Some,
    ensures
        valid_msg_fields(parse_msg_members(s, i, f, fuel).unwrap().0),
    decreases fuel,
{
    let j = ws_end(s, i);
    if byte_at(s, j, 125) {
    } else {
        lemma_parse_msg_member_gives_valid(s, ws_end(s, j + 1), f, fuel);
        let (f2, e) = parse_msg_member(s, ws_end(s, j + 1), f, fuel).unwrap();
        lemma_parse_msg_members_gives_valid(s, e, f2, (fuel - 1) as nat);
    }
}

/// Whatever line decodes at all decodes to a wire-valid message.
pub proof fn lemma_decode_valid(s: Seq<u8>)
    requires
        spec_decode(s) is Some,
    ensures
        valid_message(spec_decode(s).unwrap()),
{
    let fuel = s.len();
    let i0 = ws_end(s, 0);
    lemma_parse_msg_member_gives_valid(s, ws_end(s, i0 + 1), no_msg_fields(), fuel);
    let (f1, e) = parse_msg_member(s, ws_end(s, i0 + 1), no_msg_fields(), fuel).unwrap();
    lemma_parse_msg_members_gives_valid(s, e, f1, fuel);
}

} // verus!
