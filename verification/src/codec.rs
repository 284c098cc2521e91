//! RESP wire encoding: the specification of the byte encoding of a reply
//! tree and of a multi-bulk command, and the verified encoder that produces
//! those exact bytes. Arguments are opaque byte strings, never interpolated
//! into a format string, so no escaping or quoting is ever involved.

use vstd::prelude::*;
use crate::reply::{AbsReply, Reply, views_of, lemma_views_of};

verus! {

/// Sigil and terminator bytes of the RESP framing.
pub const BYTE_CR: u8 = 13;
pub const BYTE_LF: u8 = 10;
pub const BYTE_PLUS: u8 = 43;
pub const BYTE_MINUS: u8 = 45;
pub const BYTE_COLON: u8 = 58;
pub const BYTE_DOLLAR: u8 = 36;
pub const BYTE_STAR: u8 = 42;

pub open spec fn crlf() -> Seq<u8> {
    seq![BYTE_CR, BYTE_LF]
}

/// The decimal digits of `n`, most significant first, as ASCII bytes.
pub open spec fn dec_digits(n: nat) -> Seq<u8>
    decreases n,
{
    if n < 10 {
        seq![(48 + n) as u8]
    } else {
        dec_digits(n / 10) + seq![(48 + n % 10) as u8]
    }
}

/// The ASCII decimal rendering of `i`, with a leading minus sign when
/// negative.
pub open spec fn dec_int(i: int) -> Seq<u8> {
    if i < 0 {
        seq![BYTE_MINUS] + dec_digits((-i) as nat)
    } else {
        dec_digits(i as nat)
    }
}

/// The RESP wire encoding of a reply tree. `Nil` is rendered in its
/// bulk-string form `$-1\r\n`.
pub open spec fn encoding(r: AbsReply) -> Seq<u8>
    decreases r,
{
    match r {
        AbsReply::Status(s) => seq![BYTE_PLUS] + s + crlf(),
        AbsReply::Error(s) => seq![BYTE_MINUS] + s + crlf(),
        AbsReply::Integer(i) => seq![BYTE_COLON] + dec_int(i) + crlf(),
        AbsReply::String(b) => seq![BYTE_DOLLAR] + dec_int(b.len() as int) + crlf() + b + crlf(),
        AbsReply::Nil => seq![BYTE_DOLLAR, BYTE_MINUS, 49u8] + crlf(),
        AbsReply::Array(es) => seq![BYTE_STAR] + dec_int(es.len() as int) + crlf()
            + encoding_list(es),
    }
}

/// The concatenated encodings of a sequence of replies, in order.
pub open spec fn encoding_list(es: Seq<AbsReply>) -> Seq<u8>
    decreases es,
{
    if es.len() == 0 {
        Seq::empty()
    } else {
        encoding(es.first()) + encoding_list(es.drop_first())
    }
}

/// The multi-bulk encoding of a command: exactly the encoding of an array of
/// bulk strings, one per argument.
pub open spec fn cmd_encoding(args: Seq<Seq<u8>>) -> Seq<u8> {
    encoding(AbsReply::Array(args.map_values(|a: Seq<u8>| AbsReply::String(a))))
}

/// Appending one more element extends the encoded list by that element's
/// encoding.
pub proof fn lemma_encoding_list_push(es: Seq<AbsReply>, r: AbsReply)
    ensures
        encoding_list(es.push(r)) == encoding_list(es) + encoding(r),
    decreases es,
{
    if es.len() == 0 {
        assert(es.push(r).drop_first() =~= Seq::<AbsReply>::empty());
        assert(es.push(r).first() == r);
        assert(encoding_list(es.push(r)) == encoding(r) + encoding_list(Seq::<AbsReply>::empty()));
        assert(encoding(r) + Seq::<u8>::empty() =~= encoding(r));
        assert(encoding_list(es) + encoding(r) =~= encoding(r));
    } else {
        assert(es.push(r).first() == es.first());
        assert(es.push(r).drop_first() =~= es.drop_first().push(r));
        lemma_encoding_list_push(es.drop_first(), r);
        assert(encoding_list(es.push(r))
            == encoding(es.first()) + (encoding_list(es.drop_first()) + encoding(r)));
        assert(encoding(es.first()) + (encoding_list(es.drop_first()) + encoding(r))
            =~= (encoding(es.first()) + encoding_list(es.drop_first())) + encoding(r));
    }
}

/// Appends the ASCII decimal digits of `n` to `out`.
fn push_decimal(out: &mut Vec<u8>, n: u64)
    ensures
        final(out)@ == old(out)@ + dec_digits(n as nat),
    decreases n,
{
    if n >= 10 {
        push_decimal(out, n / 10);
    }
    out.push(48 + (n % 10) as u8);
    proof {
        if n < 10 {
            assert(out@ =~= old(out)@ + dec_digits(n as nat));
        } else {
            assert(out@ =~= old(out)@ + (dec_digits((n as nat) / 10)
                + seq![(48 + (n as nat) % 10) as u8]));
        }
    }
}

/// Appends the ASCII decimal rendering of `i`, sign included, to `out`.
fn push_decimal_i64(out: &mut Vec<u8>, i: i64)
    ensures
        final(out)@ == old(out)@ + dec_int(i as int),
{
    if i < 0 {
        out.push(BYTE_MINUS);
        let mag: u64 = if i == i64::MIN {
            9223372036854775808u64
        } else {
            (-i) as u64
        };
        push_decimal(out, mag);
        proof {
            assert(out@ =~= old(out)@ + (seq![BYTE_MINUS] + dec_digits(mag as nat)));
        }
    } else {
        push_decimal(out, i as u64);
    }
}

/// Appends all of `bytes` to `out`.
fn push_all(out: &mut Vec<u8>, bytes: &Vec<u8>)
    ensures
        final(out)@ == old(out)@ + bytes@,
{
    let mut i: usize = 0;
    while i < bytes.len()
        invariant
            i <= bytes@.len(),
            out@ == old(out)@ + bytes@.subrange(0, i as int),
        decreases bytes@.len() - i,
    {
        out.push(bytes[i]);
        proof {
            assert(bytes@.subrange(0, i + 1) =~= bytes@.subrange(0, i as int).push(bytes@[i as int]));
            assert(out@ =~= old(out)@ + bytes@.subrange(0, i + 1));
        }
        i = i + 1;
    }
    proof {
        assert(bytes@.subrange(0, bytes@.len() as int) =~= bytes@);
    }
}

/// Appends the `\r\n` terminator to `out`.
fn push_crlf(out: &mut Vec<u8>)
    ensures
        final(out)@ == old(out)@ + crlf(),
{
    out.push(BYTE_CR);
    out.push(BYTE_LF);
    proof {
        assert(out@ =~= old(out)@ + crlf());
    }
}

/// Appends the RESP encoding of `r` to `out`: the exact bytes of
/// `encoding(r@)`.
#[verifier::loop_isolation(false)]
pub fn encode_reply(out: &mut Vec<u8>, r: &Reply)
    ensures
        final(out)@ == old(out)@ + encoding(r@),
    decreases r,
{
    match r {
        Reply::Status(s) => {
            out.push(BYTE_PLUS);
            push_all(out, s);
            push_crlf(out);
            proof {
                assert(out@ =~= old(out)@ + (seq![BYTE_PLUS] + s@ + crlf()));
            }
        }
        Reply::Error(s) => {
            out.push(BYTE_MINUS);
            push_all(out, s);
            push_crlf(out);
            proof {
                assert(out@ =~= old(out)@ + (seq![BYTE_MINUS] + s@ + crlf()));
            }
        }
        Reply::Integer(i) => {
            out.push(BYTE_COLON);
            push_decimal_i64(out, *i);
            push_crlf(out);
            proof {
                assert(out@ =~= old(out)@ + (seq![BYTE_COLON] + dec_int(*i as int) + crlf()));
            }
        }
        Reply::Nil => {
            out.push(BYTE_DOLLAR);
            out.push(BYTE_MINUS);
            out.push(49);
            push_crlf(out);
            proof {
                assert(out@ =~= old(out)@ + (seq![BYTE_DOLLAR, BYTE_MINUS, 49u8] + crlf()));
            }
        }
        Reply::String(b) => {
            out.push(BYTE_DOLLAR);
            push_decimal(out, b.len() as u64);
            push_crlf(out);
            push_all(out, b);
            push_crlf(out);
            proof {
                assert(dec_int(b@.len() as int) == dec_digits(b@.len() as nat));
                assert(out@ =~= old(out)@ + (seq![BYTE_DOLLAR] + dec_int(b@.len() as int)
                    + crlf() + b@ + crlf()));
            }
        }
        Reply::Array(es) => {
            out.push(BYTE_STAR);
            push_decimal(out, es.len() as u64);
            push_crlf(out);
            let ghost head: Seq<u8> = out@;
            proof {
                assert(dec_int(es@.len() as int) == dec_digits(es@.len() as nat));
                assert(head =~= old(out)@ + (seq![BYTE_STAR] + dec_int(es@.len() as int) + crlf()));
                lemma_views_of(es@);
                assert(encoding_list(views_of(es@).subrange(0, 0)) =~= Seq::<u8>::empty());
                assert(out@ =~= head + encoding_list(views_of(es@).subrange(0, 0)));
            }
            let mut i: usize = 0;
            while i < es.len()
                invariant
                    i <= es@.len(),
                    out@ == head + encoding_list(views_of(es@).subrange(0, i as int)),
                    head == old(out)@ + (seq![BYTE_STAR] + dec_int(es@.len() as int) + crlf()),
                    views_of(es@).len() == es@.len(),
                    forall|j: int| 0 <= j < es@.len() ==> views_of(es@)[j] == #[trigger] es@[j]@,
                decreases es@.len() - i,
            {
                proof {
                    broadcast use vstd::std_specs::vec::group_vec_axioms;
                    let ghost rv = *r;
                    let ghost ev = *es;
                    assert(decreases_to!(rv => ev));
                    assert(decreases_to!(rv => ev[i as int]));
                }
                encode_reply(out, &es[i]);
                proof {
                    let vs = views_of(es@);
                    assert(vs.subrange(0, i + 1) =~= vs.subrange(0, i as int).push(vs[i as int]));
                    lemma_encoding_list_push(vs.subrange(0, i as int), vs[i as int]);
                    assert(out@ =~= head + encoding_list(vs.subrange(0, i + 1)));
                }
                i = i + 1;
            }
            proof {
                let vs = views_of(es@);
                assert(vs.subrange(0, vs.len() as int) =~= vs);
                assert(out@ =~= old(out)@ + encoding(r@));
            }
        }
    }
}

/// An attempt to encode a command with no arguments at all: the one caller
/// error the encoder reports.
#[derive(Clone, Copy, PartialEq, Eq, Structural, Debug)]
pub struct EncodingError;

/// Encodes a command (name plus operands, each an opaque byte string) as a
/// RESP multi-bulk request. Returns `Err(EncodingError)` exactly when
/// `args` is empty, and otherwise the precise wire bytes of the command.
pub fn encode_command(args: &Vec<Vec<u8>>) -> (r: Result<Vec<u8>, EncodingError>)
    ensures
        args@.len() == 0 <==> r is Err,
        args@.len() > 0 ==> (r matches Ok(out) && out@ == cmd_encoding(args.deep_view())),
{
    if args.len() == 0 {
        return Err(EncodingError);
    }
    let mut out: Vec<u8> = Vec::new();
    out.push(BYTE_STAR);
    push_decimal(&mut out, args.len() as u64);
    push_crlf(&mut out);
    let ghost views = args.deep_view().map_values(|a: Seq<u8>| AbsReply::String(a));
    let ghost head: Seq<u8> = out@;
    proof {
        assert(args.deep_view().len() == args@.len());
        assert(views.len() == args@.len());
        assert(dec_int(views.len() as int) == dec_digits(args@.len() as nat));
        assert(head =~= seq![BYTE_STAR] + dec_int(views.len() as int) + crlf());
        assert(encoding_list(views.subrange(0, 0)) =~= Seq::<u8>::empty());
    }
    let mut i: usize = 0;
    while i < args.len()
        invariant
            i <= args@.len(),
            views == args.deep_view().map_values(|a: Seq<u8>| AbsReply::String(a)),
            views.len() == args@.len(),
            head == seq![BYTE_STAR] + dec_int(views.len() as int) + crlf(),
            out@ == head + encoding_list(views.subrange(0, i as int)),
        decreases args@.len() - i,
    {
        let a = &args[i];
        out.push(BYTE_DOLLAR);
        push_decimal(&mut out, a.len() as u64);
        push_crlf(&mut out);
        push_all(&mut out, a);
        push_crlf(&mut out);
        proof {
            assert(args.deep_view()[i as int] =~= args@[i as int]@);
            assert(views[i as int] == AbsReply::String(args@[i as int]@));
            assert(dec_int(a@.len() as int) == dec_digits(a@.len() as nat));
            assert(encoding(views[i as int]) =~= seq![BYTE_DOLLAR] + dec_int(a@.len() as int)
                + crlf() + a@ + crlf());
            assert(views.subrange(0, i + 1) =~= views.subrange(0, i as int).push(views[i as int]));
            lemma_encoding_list_push(views.subrange(0, i as int), views[i as int]);
            assert(out@ =~= head + encoding_list(views.subrange(0, i + 1)));
        }
        i = i + 1;
    }
    proof {
        assert(views.subrange(0, views.len() as int) =~= views);
        assert(out@ =~= cmd_encoding(args.deep_view()));
    }
    Ok(out)
}

} // verus!
