//! The executable encoder: lays a message out exactly as the spec-level
//! encoding describes, and appends the newline that ends a wire record.

use vstd::prelude::*;
use vstd::slice::slice_to_vec;

use crate::codec::{
    dec_digits, enc_elems, enc_key, enc_opt_num, enc_payload_fields, enc_str, enc_str_array, esc,
    esc_byte, lit_body, lit_dest, lit_echo, lit_echo_ok, lit_generate, lit_generate_ok, lit_id,
    lit_in_reply_to, lit_init, lit_init_ok, lit_msg_id, lit_node_id, lit_node_ids, lit_null,
    lit_src, lit_type, push_bytes, spec_enc_msg, tag_of,
};
use crate::protocol::{Message, Payload};

verus! {

/// The bytes of `src`, as a runtime value.
pub fn bytes_src() -> (r: Vec<u8>)
    ensures
        r@ == lit_src(),
{
    let a: [u8; 3] = [115u8, 114u8, 99u8];
    let v = slice_to_vec(a.as_slice());
    proof {
        assert(v@ =~= lit_src());
    }
    v
}

/// The bytes of `dest`, as a runtime value.
pub fn bytes_dest() -> (r: Vec<u8>)
    ensures
        r@ == lit_dest(),
{
    let a: [u8; 4] = [100u8, 101u8, 115u8, 116u8];
    let v = slice_to_vec(a.as_slice());
    proof {
        assert(v@ =~= lit_dest());
    }
    v
}

/// The bytes of `body`, as a runtime value.
pub fn bytes_body() -> (r: Vec<u8>)
    ensures
        r@ == lit_body(),
{
    let a: [u8; 4] = [98u8, 111u8, 100u8, 121u8];
    let v = slice_to_vec(a.as_slice());
    proof {
        assert(v@ =~= lit_body());
    }
    v
}

/// The bytes of `type`, as a runtime value.
pub fn bytes_type() -> (r: Vec<u8>)
    ensures
        r@ == lit_type(),
{
    let a: [u8; 4] = [116u8, 121u8, 112u8, 101u8];
    let v = slice_to_vec(a.as_slice());
    proof {
        assert(v@ =~= lit_type());
    }
    v
}

/// The bytes of `msg_id`, as a runtime value.
pub fn bytes_msg_id() -> (r: Vec<u8>)
    ensures
        r@ == lit_msg_id(),
{
    let a: [u8; 6] = [109u8, 115u8, 103u8, 95u8, 105u8, 100u8];
    let v = slice_to_vec(a.as_slice());
    proof {
        assert(v@ =~= lit_msg_id());
    }
    v
}

/// The bytes of `in_reply_to`, as a runtime value.
pub fn bytes_in_reply_to() -> (r: Vec<u8>)
    ensures
        r@ == lit_in_reply_to(),
{
    let a: [u8; 11] = [105u8, 110u8, 95u8, 114u8, 101u8, 112u8, 108u8, 121u8, 95u8, 116u8, 111u8];
    let v = slice_to_vec(a.as_slice());
    proof {
        assert(v@ =~= lit_in_reply_to());
    }
    v
}

/// The bytes of `node_id`, as a runtime value.
pub fn bytes_node_id() -> (r: Vec<u8>)
    ensures
        r@ == lit_node_id(),
{
    let a: [u8; 7] = [110u8, 111u8, 100u8, 101u8, 95u8, 105u8, 100u8];
    let v = slice_to_vec(a.as_slice());
    proof {
        assert(v@ =~= lit_node_id());
    }
    v
}

/// The bytes of `node_ids`, as a runtime value.
pub fn bytes_node_ids() -> (r: Vec<u8>)
    ensures
        r@ == lit_node_ids(),
{
    let a: [u8; 8] = [110u8, 111u8, 100u8, 101u8, 95u8, 105u8, 100u8, 115u8];
    let v = slice_to_vec(a.as_slice());
    proof {
        assert(v@ =~= lit_node_ids());
    }
    v
}

/// The bytes of `echo`, as a runtime value.
pub fn bytes_echo() -> (r: Vec<u8>)
    ensures
        r@ == lit_echo(),
{
    let a: [u8; 4] = [101u8, 99u8, 104u8, 111u8];
    let v = slice_to_vec(a.as_slice());
    proof {
        assert(v@ =~= lit_echo());
    }
    v
}

/// The bytes of `id`, as a runtime value.
pub fn bytes_id() -> (r: Vec<u8>)
    ensures
        r@ == lit_id(),
{
    let a: [u8; 2] = [105u8, 100u8];
    let v = slice_to_vec(a.as_slice());
    proof {
        assert(v@ =~= lit_id());
    }
    v
}

/// The bytes of `init`, as a runtime value.
pub fn bytes_init() -> (r: Vec<u8>)
    ensures
        r@ == lit_init(),
{
    let a: [u8; 4] = [105u8, 110u8, 105u8, 116u8];
    let v = slice_to_vec(a.as_slice());
    proof {
        assert(v@ =~= lit_init());
    }
    v
}

/// The bytes of `init_ok`, as a runtime value.
pub fn bytes_init_ok() -> (r: Vec<u8>)
    ensures
        r@ == lit_init_ok(),
{
    let a: [u8; 7] = [105u8, 110u8, 105u8, 116u8, 95u8, 111u8, 107u8];
    let v = slice_to_vec(a.as_slice());
    proof {
        assert(v@ =~= lit_init_ok());
    }
    v
}

/// The bytes of `echo_ok`, as a runtime value.
pub fn bytes_echo_ok() -> (r: Vec<u8>)
    ensures
        r@ == lit_echo_ok(),
{
    let a: [u8; 7] = [101u8, 99u8, 104u8, 111u8, 95u8, 111u8, 107u8];
    let v = slice_to_vec(a.as_slice());
    proof {
        assert(v@ =~= lit_echo_ok());
    }
    v
}

/// The bytes of `generate`, as a runtime value.
pub fn bytes_generate() -> (r: Vec<u8>)
    ensures
        r@ == lit_generate(),
{
    let a: [u8; 8] = [103u8, 101u8, 110u8, 101u8, 114u8, 97u8, 116u8, 101u8];
    let v = slice_to_vec(a.as_slice());
    proof {
        assert(v@ =~= lit_generate());
    }
    v
}

/// The bytes of `generate_ok`, as a runtime value.
pub fn bytes_generate_ok() -> (r: Vec<u8>)
    ensures
        r@ == lit_generate_ok(),
{
    let a: [u8; 11] = [103u8, 101u8, 110u8, 101u8, 114u8, 97u8, 116u8, 101u8, 95u8, 111u8, 107u8];
    let v = slice_to_vec(a.as_slice());
    proof {
        assert(v@ =~= lit_generate_ok());
    }
    v
}

/// The bytes of `null`, as a runtime value.
pub fn bytes_null() -> (r: Vec<u8>)
    ensures
        r@ == lit_null(),
{
    let a: [u8; 4] = [110u8, 117u8, 108u8, 108u8];
    let v = slice_to_vec(a.as_slice());
    proof {
        assert(v@ =~= lit_null());
    }
    v
}

/// Escaping distributes over extending the string by one byte.
proof fn lemma_esc_snoc(p: Seq<u8>, x: u8)
    ensures
        esc(p + seq![x]) == esc(p) + esc_byte(x),
    decreases p.len(),
{
    let px = p + seq![x];
    assert(px.len() == p.len() + 1);
    if p.len() == 0 {
        assert(px[0] == x);
        assert(px.skip(1) =~= Seq::<u8>::empty());
        assert(esc(px) == esc_byte(x) + esc(px.skip(1)));
        assert(esc(Seq::<u8>::empty()) == Seq::<u8>::empty());
        assert(esc(p) == Seq::<u8>::empty());
        assert(esc_byte(x) + Seq::<u8>::empty() =~= esc_byte(x));
        assert(esc(px) =~= esc(p) + esc_byte(x));
    } else {
        assert(px[0] == p[0]);
        assert(px.skip(1) =~= p.skip(1) + seq![x]);
        lemma_esc_snoc(p.skip(1), x);
        assert(esc(px) == esc_byte(p[0]) + esc(px.skip(1)));
        assert(esc(p) == esc_byte(p[0]) + esc(p.skip(1)));
        assert(esc(px) =~= esc(p) + esc_byte(x));
    }
}

/// Appends a string's contents, escaped byte for byte.
fn push_esc(out: &mut Vec<u8>, t: &[u8])
    ensures
        final(out)@ == old(out)@ + esc(t@),
{
    let mut i: usize = 0;
    proof {
        assert(esc(t@.take(0)) =~= Seq::<u8>::empty());
        assert(out@ =~= old(out)@ + esc(t@.take(0)));
    }
    while i < t.len()
        invariant
            i <= t@.len(),
            out@ == old(out)@ + esc(t@.take(i as int)),
        decreases t@.len() - i,
    {
        let b = t[i];
        let ghost pre = out@;
        if b == 34 {
            out.push(92);
            out.push(34);
        } else if b == 92 {
            out.push(92);
            out.push(92);
        } else if b == 8 {
            out.push(92);
            out.push(98);
        } else if b == 12 {
            out.push(92);
            out.push(102);
        } else if b == 10 {
            out.push(92);
            out.push(110);
        } else if b == 13 {
            out.push(92);
            out.push(114);
        } else if b == 9 {
            out.push(92);
            out.push(116);
        } else if b < 32 {
            out.push(92);
            out.push(117);
            out.push(48);
            out.push(48);
            let hi: u8 = b / 16;
            let lo: u8 = b % 16;
            out.push(
                if hi < 10 {
                    48 + hi
                } else {
                    87 + hi
                },
            );
            out.push(
                if lo < 10 {
                    48 + lo
                } else {
                    87 + lo
                },
            );
        } else {
            out.push(b);
        }
        proof {
            assert(out@ =~= pre + esc_byte(t@[i as int]));
            assert(t@.take(i as int) + seq![t@[i as int]] =~= t@.take(i + 1));
            lemma_esc_snoc(t@.take(i as int), t@[i as int]);
            assert(out@ =~= old(out)@ + esc(t@.take(i + 1)));
        }
        i += 1;
    }
    proof {
        assert(t@.take(t@.len() as int) =~= t@);
    }
}

/// Appends a quoted string, escaped as the wire requires.
pub fn push_quoted(out: &mut Vec<u8>, t: &[u8])
    ensures
        final(out)@ == old(out)@ + enc_str(t@),
{
    out.push(34);
    push_esc(out, t);
    out.push(34);
    proof {
        assert(final(out)@ =~= old(out)@ + enc_str(t@));
    }
}

/// Appends a quoted key and its colon.
pub fn push_key(out: &mut Vec<u8>, k: &[u8])
    ensures
        final(out)@ == old(out)@ + enc_key(k@),
{
    push_quoted(out, k);
    out.push(58);
    proof {
        assert(final(out)@ =~= old(out)@ + enc_key(k@));
    }
}

/// Appends the decimal digits of a number.
pub fn push_num(n: usize, out: &mut Vec<u8>)
    ensures
        final(out)@ == old(out)@ + dec_digits(n as int),
    decreases n,
{
    if n < 10 {
        out.push(48 + n as u8);
        proof {
            assert(final(out)@ =~= old(out)@ + dec_digits(n as int));
        }
    } else {
        push_num(n / 10, out);
        out.push(48 + (n % 10) as u8);
        proof {
            assert(final(out)@ =~= old(out)@ + dec_digits(n as int));
        }
    }
}

/// Appends an optional id: its digits, or `null`.
pub fn push_opt_num(v: &Option<usize>, out: &mut Vec<u8>)
    ensures
        final(out)@ == old(out)@ + enc_opt_num(
            match v {
                Some(n) => Some(*n as int),
                None => None,
            },
        ),
{
    match v {
        Some(n) => push_num(*n, out),
        None => {
            let lit = bytes_null();
            push_bytes(out, lit.as_slice());
        },
    }
}

/// Appends the elements of a string array from index `i` on.
fn push_elems(xs: &Vec<Vec<u8>>, i: usize, out: &mut Vec<u8>)
    requires
        i < xs@.len(),
    ensures
        final(out)@ == old(out)@ + enc_elems(xs.deep_view().skip(i as int)),
    decreases xs@.len() - i,
{
    let ghost d = xs.deep_view();
    proof {
        assert(d.len() == xs@.len());
        assert(d.skip(i as int)[0] == d[i as int]);
        assert(d[i as int] == xs@[i as int]@);
    }
    push_quoted(out, xs[i].as_slice());
    if i < xs.len() - 1 {
        out.push(44);
        push_elems(xs, i + 1, out);
        proof {
            assert(d.skip(i as int).skip(1) =~= d.skip(i + 1));
            assert(enc_elems(d.skip(i as int)) == enc_str(d[i as int]) + seq![44u8] + enc_elems(
                d.skip(i + 1),
            ));
            assert(final(out)@ =~= old(out)@ + enc_elems(d.skip(i as int)));
        }
    } else {
        proof {
            assert(d.skip(i as int).len() == 1);
            assert(enc_elems(d.skip(i as int)) == enc_str(d[i as int]));
        }
    }
}

/// Appends a string array.
pub fn push_str_array(xs: &Vec<Vec<u8>>, out: &mut Vec<u8>)
    ensures
        final(out)@ == old(out)@ + enc_str_array(xs.deep_view()),
{
    out.push(91);
    if xs.len() > 0 {
        push_elems(xs, 0, out);
        proof {
            assert(xs.deep_view().skip(0) =~= xs.deep_view());
        }
    } else {
        proof {
            assert(xs.deep_view().len() == 0);
        }
    }
    out.push(93);
    proof {
        assert(final(out)@ =~= old(out)@ + enc_str_array(xs.deep_view()));
    }
}

/// Appends the members a payload adds to the body after the tag.
fn push_payload_fields(p: &Payload, out: &mut Vec<u8>)
    ensures
        final(out)@ == old(out)@ + enc_payload_fields(p@),
{
    match p {
        Payload::Init { node_id, node_ids } => {
            out.push(44);
            let k = bytes_node_id();
            push_key(out, k.as_slice());
            push_quoted(out, node_id.as_slice());
            out.push(44);
            let k2 = bytes_node_ids();
            push_key(out, k2.as_slice());
            push_str_array(node_ids, out);
            proof {
                assert(final(out)@ =~= old(out)@ + enc_payload_fields(p@));
            }
        },
        Payload::InitOk => {
            proof {
                assert(final(out)@ =~= old(out)@ + enc_payload_fields(p@));
            }
        },
        Payload::Echo { echo } => {
            out.push(44);
            let k = bytes_echo();
            push_key(out, k.as_slice());
            push_quoted(out, echo.as_slice());
            proof {
                assert(final(out)@ =~= old(out)@ + enc_payload_fields(p@));
            }
        },
        Payload::EchoOk { echo } => {
            out.push(44);
            let k = bytes_echo();
            push_key(out, k.as_slice());
            push_quoted(out, echo.as_slice());
            proof {
                assert(final(out)@ =~= old(out)@ + enc_payload_fields(p@));
            }
        },
        Payload::Generate => {
            proof {
                assert(final(out)@ =~= old(out)@ + enc_payload_fields(p@));
            }
        },
        Payload::GenerateOk { guid } => {
            out.push(44);
            let k = bytes_id();
            push_key(out, k.as_slice());
            push_quoted(out, guid.as_slice());
            proof {
                assert(final(out)@ =~= old(out)@ + enc_payload_fields(p@));
            }
        },
    }
}

/// Appends the wire tag of a payload.
fn push_tag(p: &Payload, out: &mut Vec<u8>)
    ensures
        final(out)@ == old(out)@ + enc_str(tag_of(p@)),
{
    let tag = match p {
        Payload::Init { .. } => bytes_init(),
        Payload::InitOk => bytes_init_ok(),
        Payload::Echo { .. } => bytes_echo(),
        Payload::EchoOk { .. } => bytes_echo_ok(),
        Payload::Generate => bytes_generate(),
        Payload::GenerateOk { .. } => bytes_generate_ok(),
    };
    push_quoted(out, tag.as_slice());
}

impl Message {
    /// Encodes the message as one JSON object, without the record newline.
    pub fn encode(&self) -> (r: Vec<u8>)
        ensures
            r@ == spec_enc_msg(self@),
    {
        let mut out: Vec<u8> = Vec::new();
        out.push(123);
        let k_src = bytes_src();
        push_key(&mut out, k_src.as_slice());
        push_quoted(&mut out, self.src.as_slice());
        out.push(44);
        let k_dest = bytes_dest();
        push_key(&mut out, k_dest.as_slice());
        push_quoted(&mut out, self.dst.as_slice());
        out.push(44);
        let k_body = bytes_body();
        push_key(&mut out, k_body.as_slice());
        // the body object
        out.push(123);
        let k_type = bytes_type();
        push_key(&mut out, k_type.as_slice());
        push_tag(&self.body.payload, &mut out);
        push_payload_fields(&self.body.payload, &mut out);
        out.push(44);
        let k_id = bytes_msg_id();
        push_key(&mut out, k_id.as_slice());
        push_opt_num(&self.body.id, &mut out);
        out.push(44);
        let k_to = bytes_in_reply_to();
        push_key(&mut out, k_to.as_slice());
        push_opt_num(&self.body.to, &mut out);
        out.push(125);
        out.push(125);
        proof {
            assert(out@ =~= spec_enc_msg(self@));
        }
        out
    }

    /// Appends the encoded message and the trailing newline to an output
    /// buffer: one whole wire record, framing included.
    pub fn send(&self, out: &mut Vec<u8>)
        ensures
            final(out)@ == old(out)@ + spec_enc_msg(self@) + seq![10u8],
    {
        let enc = self.encode();
        push_bytes(out, enc.as_slice());
        out.push(10);
        proof {
            assert(final(out)@ =~= old(out)@ + spec_enc_msg(self@) + seq![10u8]);
        }
    }
}

} // verus!
