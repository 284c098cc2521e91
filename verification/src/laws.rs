//! The laws relating the encoder and the parser: any well-formed reply
//! tree, serialized by `encoding`, parses back to exactly the same tree
//! (the framing round trip), and the reader's outcome depends on the
//! buffered bytes alone, so arbitrary chunking of the transport's delivery
//! cannot change the parsed reply.

use vstd::prelude::*;
use crate::reply::AbsReply;
use crate::codec::{encoding, encoding_list, dec_digits, dec_int, crlf, BYTE_CR, BYTE_LF,
    BYTE_MINUS};
use crate::reader::{parse_at, parse_elems, parse_i64, parse_int_content, find_crlf, is_digits,
    digits_val, ParseStep, ElemsStep, Reader, MAX_DEPTH};

verus! {

/// Payload bytes that a `\r\n`-terminated line can carry without being cut
/// short: no carriage return and no line feed.
pub open spec fn line_safe(s: Seq<u8>) -> bool {
    forall|i: int| 0 <= i < s.len() ==> #[trigger] s[i] != BYTE_CR && s[i] != BYTE_LF
}

/// A reply tree the wire format can represent faithfully: integers fit the
/// 64-bit signed range, status and error payloads carry no line terminator,
/// bulk payloads stay under the configured ceiling, and array lengths fit
/// the signed range of a count line.
pub open spec fn wf_reply(r: AbsReply, maxlen: int) -> bool
    decreases r,
{
    match r {
        AbsReply::String(b) => b.len() <= maxlen && b.len() <= i64::MAX,
        AbsReply::Integer(i) => i64::MIN <= i <= i64::MAX,
        AbsReply::Array(es) => es.len() <= i64::MAX && wf_list(es, maxlen),
        AbsReply::Nil => true,
        AbsReply::Status(s) => line_safe(s),
        AbsReply::Error(s) => line_safe(s),
    }
}

/// Every element of the sequence is well formed.
pub open spec fn wf_list(es: Seq<AbsReply>, maxlen: int) -> bool
    decreases es,
{
    if es.len() == 0 {
        true
    } else {
        wf_reply(es.first(), maxlen) && wf_list(es.drop_first(), maxlen)
    }
}

/// The nesting depth of a reply tree: 1 for a leaf, one more than the
/// deepest element for an array.
pub open spec fn abs_depth(r: AbsReply) -> nat
    decreases r,
{
    match r {
        AbsReply::Array(es) => 1 + depth_list(es),
        _ => 1,
    }
}

/// The deepest nesting depth among the elements.
pub open spec fn depth_list(es: Seq<AbsReply>) -> nat
    decreases es,
{
    if es.len() == 0 {
        0
    } else if abs_depth(es.first()) >= depth_list(es.drop_first()) {
        abs_depth(es.first())
    } else {
        depth_list(es.drop_first())
    }
}

/// The decimal rendering of a natural number is one or more digit bytes.
proof fn lemma_dec_digits_are_digits(n: nat)
    ensures
        dec_digits(n).len() >= 1,
        is_digits(dec_digits(n)),
    decreases n,
{
    if n >= 10 {
        lemma_dec_digits_are_digits(n / 10);
    }
}

/// Rendering a natural number and reading the digits back gives the number.
proof fn lemma_digits_val_of_dec_digits(n: nat)
    ensures
        digits_val(dec_digits(n)) == n,
    decreases n,
{
    if n < 10 {
        let s = dec_digits(n);
        assert(s == seq![(48 + n) as u8]);
        assert(s.drop_last() =~= Seq::<u8>::empty());
        assert(digits_val(Seq::<u8>::empty()) == 0);
        assert(s.last() as int == 48 + n);
        assert(digits_val(s) == digits_val(s.drop_last()) * 10 + (s.last() - 48));
    } else {
        lemma_digits_val_of_dec_digits(n / 10);
        let s = dec_digits(n);
        assert(s == dec_digits(n / 10) + seq![(48 + n % 10) as u8]);
        assert(s.drop_last() =~= dec_digits(n / 10));
        assert(s.last() == (48 + n % 10) as u8);
        assert(digits_val(s) == digits_val(dec_digits(n / 10)) * 10 + (n % 10));
        assert((n / 10) * 10 + n % 10 == n) by (nonlinear_arith);
    }
}

/// Reading back the decimal rendering of any 64-bit signed integer yields
/// that integer.
proof fn lemma_parse_i64_of_dec_int(i: int)
    requires
        i64::MIN <= i <= i64::MAX,
    ensures
        parse_i64(dec_int(i)) == Some(i),
{
    if i < 0 {
        let mag = (-i) as nat;
        lemma_dec_digits_are_digits(mag);
        lemma_digits_val_of_dec_digits(mag);
        let s = dec_int(i);
        assert(s == seq![BYTE_MINUS] + dec_digits(mag));
        assert(s[0] == BYTE_MINUS);
        assert(s.drop_first() =~= dec_digits(mag));
        assert(s.len() > 1);
        assert(parse_int_content(s) == Some(-digits_val(dec_digits(mag))));
        assert(parse_int_content(s) == Some(i));
    } else {
        let mag = i as nat;
        lemma_dec_digits_are_digits(mag);
        lemma_digits_val_of_dec_digits(mag);
        let s = dec_int(i);
        assert(s == dec_digits(mag));
        assert(48 <= s[0] <= 57);
        assert(s[0] != BYTE_MINUS);
        assert(parse_int_content(s) == Some(digits_val(dec_digits(mag))));
        assert(parse_int_content(s) == Some(i));
    }
}

/// A decimal rendering contains no line terminator.
proof fn lemma_dec_int_line_safe(i: int)
    ensures
        line_safe(dec_int(i)),
{
    if i < 0 {
        lemma_dec_digits_are_digits((-i) as nat);
    } else {
        lemma_dec_digits_are_digits(i as nat);
    }
}

/// When the bytes from `pos` up to `e` are free of line terminators and a
/// `\r\n` pair sits at `e`, the scan from `pos` finds exactly `e`.
proof fn lemma_find_crlf_at(s: Seq<u8>, pos: int, e: int)
    requires
        0 <= pos <= e,
        e + 2 <= s.len(),
        forall|j: int| pos <= j < e ==> #[trigger] s[j] != BYTE_CR,
        s[e] == BYTE_CR,
        s[e + 1] == BYTE_LF,
    ensures
        find_crlf(s, pos) == Some(e),
    decreases e - pos,
{
    if pos < e {
        lemma_find_crlf_at(s, pos + 1, e);
    }
}

/// Splits knowledge of a concatenation occupying `s[pos..]` into knowledge
/// of its two halves.
proof fn lemma_subrange_cat(s: Seq<u8>, pos: int, a: Seq<u8>, b: Seq<u8>)
    requires
        0 <= pos,
        pos + a.len() + b.len() <= s.len(),
        s.subrange(pos, pos + a.len() + b.len()) == a + b,
    ensures
        s.subrange(pos, pos + a.len() as int) == a,
        s.subrange(pos + a.len() as int, pos + a.len() + b.len()) == b,
{
    let whole = s.subrange(pos, pos + a.len() + b.len());
    assert forall|k: int| 0 <= k < a.len() implies s.subrange(pos, pos + a.len() as int)[k]
        == a[k] by {
        assert(whole[k] == s[pos + k]);
        assert((a + b)[k] == a[k]);
    }
    assert(s.subrange(pos, pos + a.len() as int) =~= a);
    assert forall|k: int| 0 <= k < b.len() implies s.subrange(pos + a.len() as int,
        pos + a.len() + b.len())[k] == b[k] by {
        assert(whole[a.len() + k] == s[pos + a.len() + k]);
        assert((a + b)[a.len() + k] == b[k]);
    }
    assert(s.subrange(pos + a.len() as int, pos + a.len() + b.len()) =~= b);
}

/// A nesting depth is at least 1.
proof fn lemma_abs_depth_pos(r: AbsReply)
    ensures
        abs_depth(r) >= 1,
{
}

/// Parsing from a buffer that carries the encoding of a well-formed reply
/// at `pos` yields exactly that reply and consumes exactly its bytes,
/// whatever else surrounds it, for any depth budget that covers the tree.
pub proof fn lemma_parse_of_encoding(s: Seq<u8>, pos: int, r: AbsReply, d: nat, maxlen: int)
    requires
        0 <= pos,
        pos + encoding(r).len() <= s.len(),
        s.subrange(pos, pos + encoding(r).len() as int) == encoding(r),
        wf_reply(r, maxlen),
        abs_depth(r) <= d,
    ensures
        parse_at(s, pos, d, maxlen) == ParseStep::Done(r, pos + encoding(r).len() as int),
    decreases d, 0nat, 0nat,
{
    let enc = encoding(r);
    let len = enc.len() as int;
    lemma_abs_depth_pos(r);
    assert(d >= 1);
    match r {
        AbsReply::Status(bb) => {
            assert(enc =~= seq![crate::codec::BYTE_PLUS] + (bb + crlf()));
            lemma_subrange_cat(s, pos, seq![crate::codec::BYTE_PLUS], bb + crlf());
            lemma_subrange_cat(s, pos + 1, bb, crlf());
            assert(s[pos] == s.subrange(pos, pos + 1)[0]);
            let e = pos + 1 + bb.len();
            assert(s[e] == s.subrange(e, e + 2)[0]);
            assert(s[e + 1] == s.subrange(e, e + 2)[1]);
            assert forall|j: int| pos + 1 <= j < e implies #[trigger] s[j] != BYTE_CR by {
                assert(s[j] == s.subrange(pos + 1, e)[j - (pos + 1)]);
                assert(s.subrange(pos + 1, e)[j - (pos + 1)] == bb[j - (pos + 1)]);
            }
            lemma_find_crlf_at(s, pos + 1, e);
            assert(parse_at(s, pos, d, maxlen)
                == ParseStep::Done(AbsReply::Status(s.subrange(pos + 1, e)), e + 2));
        },
        AbsReply::Error(bb) => {
            assert(enc =~= seq![BYTE_MINUS] + (bb + crlf()));
            lemma_subrange_cat(s, pos, seq![BYTE_MINUS], bb + crlf());
            lemma_subrange_cat(s, pos + 1, bb, crlf());
            assert(s[pos] == s.subrange(pos, pos + 1)[0]);
            let e = pos + 1 + bb.len();
            assert(s[e] == s.subrange(e, e + 2)[0]);
            assert(s[e + 1] == s.subrange(e, e + 2)[1]);
            assert forall|j: int| pos + 1 <= j < e implies #[trigger] s[j] != BYTE_CR by {
                assert(s[j] == s.subrange(pos + 1, e)[j - (pos + 1)]);
                assert(s.subrange(pos + 1, e)[j - (pos + 1)] == bb[j - (pos + 1)]);
            }
            lemma_find_crlf_at(s, pos + 1, e);
            assert(parse_at(s, pos, d, maxlen)
                == ParseStep::Done(AbsReply::Error(s.subrange(pos + 1, e)), e + 2));
        },
        AbsReply::Integer(iv) => {
            let di = dec_int(iv);
            assert(enc =~= seq![crate::codec::BYTE_COLON] + (di + crlf()));
            lemma_subrange_cat(s, pos, seq![crate::codec::BYTE_COLON], di + crlf());
            lemma_subrange_cat(s, pos + 1, di, crlf());
            assert(s[pos] == s.subrange(pos, pos + 1)[0]);
            let e = pos + 1 + di.len();
            assert(s[e] == s.subrange(e, e + 2)[0]);
            assert(s[e + 1] == s.subrange(e, e + 2)[1]);
            lemma_dec_int_line_safe(iv);
            assert forall|j: int| pos + 1 <= j < e implies #[trigger] s[j] != BYTE_CR by {
                assert(s[j] == s.subrange(pos + 1, e)[j - (pos + 1)]);
                assert(s.subrange(pos + 1, e)[j - (pos + 1)] == di[j - (pos + 1)]);
            }
            lemma_find_crlf_at(s, pos + 1, e);
            lemma_parse_i64_of_dec_int(iv);
            assert(parse_at(s, pos, d, maxlen) == ParseStep::Done(AbsReply::Integer(iv), e + 2));
        },
        AbsReply::Nil => {
            let head = seq![crate::codec::BYTE_DOLLAR, BYTE_MINUS, 49u8];
            assert(enc =~= head + crlf());
            lemma_subrange_cat(s, pos, head, crlf());
            assert(s[pos] == s.subrange(pos, pos + 3)[0]);
            assert(s[pos + 1] == s.subrange(pos, pos + 3)[1]);
            assert(s[pos + 2] == s.subrange(pos, pos + 3)[2]);
            let e = pos + 3;
            assert(s[e] == s.subrange(e, e + 2)[0]);
            assert(s[e + 1] == s.subrange(e, e + 2)[1]);
            assert forall|j: int| pos + 1 <= j < e implies #[trigger] s[j] != BYTE_CR by {}
            lemma_find_crlf_at(s, pos + 1, e);
            let content = s.subrange(pos + 1, e);
            assert(content =~= seq![BYTE_MINUS, 49u8]);
            assert(content[0] == BYTE_MINUS);
            let digits = content.drop_first();
            assert(digits =~= seq![49u8]);
            assert(is_digits(digits));
            assert(digits.drop_last() =~= Seq::<u8>::empty());
            assert(digits_val(Seq::<u8>::empty()) == 0);
            assert(digits_val(digits) == 1);
            assert(parse_i64(content) == Some(-1int));
            assert(parse_at(s, pos, d, maxlen) == ParseStep::Done(AbsReply::Nil, e + 2));
        },
        AbsReply::String(bb) => {
            let di = dec_int(bb.len() as int);
            assert(enc =~= seq![crate::codec::BYTE_DOLLAR] + (di + (crlf() + (bb + crlf()))));
            lemma_subrange_cat(s, pos, seq![crate::codec::BYTE_DOLLAR],
                di + (crlf() + (bb + crlf())));
            lemma_subrange_cat(s, pos + 1, di, crlf() + (bb + crlf()));
            let e = pos + 1 + di.len();
            lemma_subrange_cat(s, e, crlf(), bb + crlf());
            lemma_subrange_cat(s, e + 2, bb, crlf());
            assert(s[pos] == s.subrange(pos, pos + 1)[0]);
            assert(s[e] == s.subrange(e, e + 2)[0]);
            assert(s[e + 1] == s.subrange(e, e + 2)[1]);
            lemma_dec_int_line_safe(bb.len() as int);
            assert forall|j: int| pos + 1 <= j < e implies #[trigger] s[j] != BYTE_CR by {
                assert(s[j] == s.subrange(pos + 1, e)[j - (pos + 1)]);
                assert(s.subrange(pos + 1, e)[j - (pos + 1)] == di[j - (pos + 1)]);
            }
            lemma_find_crlf_at(s, pos + 1, e);
            lemma_parse_i64_of_dec_int(bb.len() as int);
            let l = bb.len() as int;
            let body = e + 2;
            assert(s[body + l] == s.subrange(body + l, body + l + 2)[0]);
            assert(s[body + l + 1] == s.subrange(body + l, body + l + 2)[1]);
            assert(s[body + l] == BYTE_CR && s[body + l + 1] == BYTE_LF);
            assert(body + l + 2 == pos + len);
            assert(s.subrange(body, body + l) == bb);
            assert(parse_at(s, pos, d, maxlen)
                == ParseStep::Done(AbsReply::String(bb), pos + len));
        },
        AbsReply::Array(es) => {
            let di = dec_int(es.len() as int);
            let tail = encoding_list(es);
            assert(enc =~= seq![crate::codec::BYTE_STAR] + (di + (crlf() + tail)));
            lemma_subrange_cat(s, pos, seq![crate::codec::BYTE_STAR], di + (crlf() + tail));
            lemma_subrange_cat(s, pos + 1, di, crlf() + tail);
            let e = pos + 1 + di.len();
            lemma_subrange_cat(s, e, crlf(), tail);
            assert(s[pos] == s.subrange(pos, pos + 1)[0]);
            assert(s[e] == s.subrange(e, e + 2)[0]);
            assert(s[e + 1] == s.subrange(e, e + 2)[1]);
            lemma_dec_int_line_safe(es.len() as int);
            assert forall|j: int| pos + 1 <= j < e implies #[trigger] s[j] != BYTE_CR by {
                assert(s[j] == s.subrange(pos + 1, e)[j - (pos + 1)]);
                assert(s.subrange(pos + 1, e)[j - (pos + 1)] == di[j - (pos + 1)]);
            }
            lemma_find_crlf_at(s, pos + 1, e);
            lemma_parse_i64_of_dec_int(es.len() as int);
            let body = e + 2;
            assert(depth_list(es) <= d - 1);
            lemma_parse_elems_of_encoding(s, body, es, (d - 1) as nat, maxlen);
            assert(parse_elems(s, body, es.len(), (d - 1) as nat, maxlen)
                == ElemsStep::Done(es, body + tail.len()));
            assert(body + tail.len() == pos + len);
            assert(parse_at(s, pos, d, maxlen)
                == ParseStep::Done(AbsReply::Array(es), pos + len));
        },
    }
}

/// Parsing a run of elements from a buffer that carries their concatenated
/// encodings yields exactly those elements, consuming exactly their bytes.
pub proof fn lemma_parse_elems_of_encoding(s: Seq<u8>, pos: int, es: Seq<AbsReply>, d: nat,
    maxlen: int)
    requires
        0 <= pos,
        pos + encoding_list(es).len() <= s.len(),
        s.subrange(pos, pos + encoding_list(es).len() as int) == encoding_list(es),
        wf_list(es, maxlen),
        depth_list(es) <= d,
    ensures
        parse_elems(s, pos, es.len(), d, maxlen)
            == ElemsStep::Done(es, pos + encoding_list(es).len() as int),
    decreases d, 1nat, es.len(),
{
    if es.len() == 0 {
        assert(es =~= Seq::<AbsReply>::empty());
        assert(parse_elems(s, pos, es.len(), d, maxlen)
            == ElemsStep::Done(Seq::<AbsReply>::empty(), pos));
    } else {
        let first = es.first();
        let rest = es.drop_first();
        let e1 = encoding(first);
        let erest = encoding_list(rest);
        assert(encoding_list(es) == e1 + erest);
        lemma_subrange_cat(s, pos, e1, erest);
        assert(abs_depth(first) <= depth_list(es));
        lemma_parse_of_encoding(s, pos, first, d, maxlen);
        let mid = pos + e1.len();
        assert(depth_list(rest) <= depth_list(es));
        lemma_parse_elems_of_encoding(s, mid, rest, d, maxlen);
        assert(parse_elems(s, mid, rest.len(), d, maxlen)
            == ElemsStep::Done(rest, mid + erest.len()));
        assert(parse_elems(s, pos, es.len(), d, maxlen)
            == ElemsStep::Done(seq![first] + rest, mid + erest.len()));
        assert(seq![first] + rest =~= es);
        assert(mid + erest.len() == pos + encoding_list(es).len());
    }
}

/// Framing round-trip: serializing any well-formed reply tree whose depth
/// stays within the nesting bound and parsing the bytes back, with anything
/// at all following them in the buffer, yields exactly that tree and
/// consumes exactly its encoding.
pub proof fn lemma_round_trip(r: AbsReply, rest: Seq<u8>, maxlen: int)
    requires
        wf_reply(r, maxlen),
        abs_depth(r) <= MAX_DEPTH as nat,
    ensures
        parse_at(encoding(r) + rest, 0, MAX_DEPTH as nat, maxlen)
            == ParseStep::Done(r, encoding(r).len() as int),
{
    let s = encoding(r) + rest;
    assert(s.subrange(0, encoding(r).len() as int) =~= encoding(r));
    lemma_parse_of_encoding(s, 0, r, MAX_DEPTH as nat, maxlen);
}

/// The round trip at the reader's own interface: a reader whose buffer
/// begins with the encoding of a well-formed, depth-bounded tree is bound
/// by `get_reply`'s contract to deliver exactly that tree, consuming
/// exactly its bytes.
pub proof fn lemma_reader_round_trip(r: Reader, t: AbsReply, rest: Seq<u8>)
    requires
        r.buffer() == encoding(t) + rest,
        wf_reply(t, r.max_bulk()),
        abs_depth(t) <= MAX_DEPTH as nat,
    ensures
        r.outcome() == ParseStep::Done(t, encoding(t).len() as int),
{
    lemma_round_trip(t, rest, r.max_bulk());
}

/// The buffer a reader holds after being handed each chunk in order, given
/// that `Reader::feed` does nothing but append.
pub open spec fn fed_buffer(init: Seq<u8>, chunks: Seq<Seq<u8>>) -> Seq<u8>
    decreases chunks,
{
    if chunks.len() == 0 {
        init
    } else {
        fed_buffer(init + chunks.first(), chunks.drop_first())
    }
}

/// Incremental feed invariance, first half: splitting a byte sequence into
/// any chunks and feeding them one at a time leaves the reader with the
/// same buffer as feeding the concatenation whole.
pub proof fn lemma_fed_buffer_flatten(init: Seq<u8>, chunks: Seq<Seq<u8>>)
    ensures
        fed_buffer(init, chunks) == init + chunks.flatten(),
    decreases chunks,
{
    if chunks.len() == 0 {
        assert(init + chunks.flatten() =~= init);
    } else {
        lemma_fed_buffer_flatten(init + chunks.first(), chunks.drop_first());
        assert((init + chunks.first()) + chunks.drop_first().flatten()
            =~= init + (chunks.first() + chunks.drop_first().flatten()));
        assert(chunks.flatten() == chunks.first() + chunks.drop_first().flatten());
    }
}

/// `k` array headers in a row, each declaring a single element: the
/// canonical crafted input that nests arrays `k` deep.
pub open spec fn nested_array_headers(k: nat) -> Seq<u8>
    decreases k,
{
    if k == 0 {
        Seq::<u8>::empty()
    } else {
        seq![crate::codec::BYTE_STAR, 49u8, BYTE_CR, BYTE_LF]
            + nested_array_headers((k - 1) as nat)
    }
}

/// Depth bound, generalized over the parse position.
proof fn lemma_depth_bound_at(s: Seq<u8>, pos: int, k: nat, d: nat, maxlen: int)
    requires
        0 <= pos,
        pos + nested_array_headers(k).len() <= s.len(),
        s.subrange(pos, pos + nested_array_headers(k).len() as int) == nested_array_headers(k),
        k > d,
    ensures
        parse_at(s, pos, d, maxlen) == ParseStep::Fail,
    decreases d,
{
    if d > 0 {
        let head = seq![crate::codec::BYTE_STAR, 49u8, BYTE_CR, BYTE_LF];
        let tail = nested_array_headers((k - 1) as nat);
        assert(nested_array_headers(k) == head + tail);
        assert(nested_array_headers(k).len() == 4 + tail.len());
        lemma_subrange_cat(s, pos, head, tail);
        assert(s[pos] == s.subrange(pos, pos + 4)[0]);
        assert(s[pos + 1] == s.subrange(pos, pos + 4)[1]);
        assert(s[pos + 2] == s.subrange(pos, pos + 4)[2]);
        assert(s[pos + 3] == s.subrange(pos, pos + 4)[3]);
        assert forall|j: int| pos + 1 <= j < pos + 2 implies #[trigger] s[j] != BYTE_CR by {}
        lemma_find_crlf_at(s, pos + 1, pos + 2);
        let content = s.subrange(pos + 1, pos + 2);
        assert(content =~= seq![49u8]);
        assert(is_digits(content));
        assert(content.drop_last() =~= Seq::<u8>::empty());
        assert(digits_val(Seq::<u8>::empty()) == 0);
        assert(digits_val(content) == 1);
        assert(parse_i64(content) == Some(1int));
        lemma_depth_bound_at(s, pos + 4, (k - 1) as nat, (d - 1) as nat, maxlen);
        assert(parse_elems(s, pos + 4, 1nat, (d - 1) as nat, maxlen) == ElemsStep::Fail);
        assert(parse_at(s, pos, d, maxlen) == ParseStep::Fail);
    }
}

/// Depth bound: an input whose array nesting exceeds the parser's budget is
/// a protocol error, whatever follows the headers — the parse fails
/// outright instead of recursing without bound.
pub proof fn lemma_depth_bound(k: nat, rest: Seq<u8>, maxlen: int)
    requires
        k > MAX_DEPTH as nat,
    ensures
        parse_at(nested_array_headers(k) + rest, 0, MAX_DEPTH as nat, maxlen)
            == ParseStep::Fail,
{
    let s = nested_array_headers(k) + rest;
    assert(s.subrange(0, nested_array_headers(k).len() as int) =~= nested_array_headers(k));
    lemma_depth_bound_at(s, 0, k, MAX_DEPTH as nat, maxlen);
}

/// Incremental feed invariance, second half: what `get_reply` is bound to
/// produce depends on the buffered bytes and the configured ceiling alone,
/// so two readers holding the same bytes — however they arrived — parse
/// the same reply.
pub proof fn lemma_outcome_depends_on_buffer(r1: Reader, r2: Reader)
    requires
        r1.buffer() == r2.buffer(),
        r1.max_bulk() == r2.max_bulk(),
    ensures
        r1.outcome() == r2.outcome(),
{
}

} // verus!
