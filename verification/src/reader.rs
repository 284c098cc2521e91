//! The protocol reader: an incremental RESP parser. `feed` appends raw bytes
//! to an internal buffer; `get_reply` either consumes exactly one complete
//! top-level reply from the front of that buffer, reports that the buffer is
//! still incomplete (consuming nothing), or reports a protocol error and
//! moves the reader into a failed state that refuses further work until it
//! is reset. The reader never blocks and performs no I/O.
//!
//! The whole behaviour is specified by the pure parsing function `parse_at`
//! below; `get_reply` is proved to act exactly as `parse_at` says on the
//! buffered bytes.

use vstd::prelude::*;
use crate::reply::{AbsReply, Reply, views_of, lemma_views_of, lemma_views_of_push};
use crate::codec::{BYTE_CR, BYTE_LF, BYTE_PLUS, BYTE_MINUS, BYTE_COLON, BYTE_DOLLAR, BYTE_STAR};

verus! {

/// Nesting ceiling for arrays-within-arrays: a tree deeper than this is a
/// protocol error, never unbounded recursion.
pub const MAX_DEPTH: u32 = 9;

/// Default ceiling on a single declared bulk-string length.
pub const DEFAULT_MAX_BULK: usize = 536870912;

/// Ceiling any configured bulk-length limit must stay under, so that offset
/// arithmetic on buffer positions cannot overflow a `usize`.
pub const MAX_BULK_CEILING: usize = 1073741824;

/// Outcome of parsing one reply at a position: a finished reply and the
/// position just past it, a request for more bytes, or a protocol error.
pub enum ParseStep {
    Done(AbsReply, int),
    Incomplete,
    Fail,
}

/// Outcome of parsing a run of array elements.
pub enum ElemsStep {
    Done(Seq<AbsReply>, int),
    Incomplete,
    Fail,
}

/// The position of the first `\r\n` pair at or after `pos`, if one is
/// wholly inside the buffer.
pub open spec fn find_crlf(s: Seq<u8>, pos: int) -> Option<int>
    decreases s.len() - pos,
{
    if pos + 2 > s.len() {
        None::<int>
    } else if s[pos] == BYTE_CR && s[pos + 1] == BYTE_LF {
        Some(pos)
    } else {
        find_crlf(s, pos + 1)
    }
}

/// Every byte is an ASCII decimal digit.
pub open spec fn is_digits(s: Seq<u8>) -> bool {
    forall|i: int| 0 <= i < s.len() ==> 48 <= #[trigger] s[i] <= 57
}

/// The value of a digit string, most significant digit first.
pub open spec fn digits_val(s: Seq<u8>) -> int
    decreases s.len(),
{
    if s.len() == 0 {
        0
    } else {
        digits_val(s.drop_last()) * 10 + (s.last() - 48)
    }
}

/// A signed decimal integer line: an optional leading minus sign followed by
/// at least one digit, as the protocol's metadata lines carry.
pub open spec fn parse_int_content(s: Seq<u8>) -> Option<int> {
    if s.len() > 0 && s[0] == BYTE_MINUS {
        if s.len() > 1 && is_digits(s.drop_first()) {
            Some(-digits_val(s.drop_first()))
        } else {
            None::<int>
        }
    } else {
        if s.len() > 0 && is_digits(s) {
            Some(digits_val(s))
        } else {
            None::<int>
        }
    }
}

/// An integer line whose value fits a 64-bit signed machine integer; a
/// larger value is a protocol error, as is malformed content.
pub open spec fn parse_i64(s: Seq<u8>) -> Option<int> {
    match parse_int_content(s) {
        Some(i) => if -9223372036854775808 <= i <= 9223372036854775807 {
            Some(i)
        } else {
            None::<int>
        },
        None => None::<int>,
    }
}

/// Parses one reply from `s` starting at `pos`, with `depth_left` nesting
/// budget and `maxlen` as the bulk-length ceiling. This is the complete
/// specification of RESP reply framing:
/// `+`/`-` lines are status/error payloads up to `\r\n`; `:` is a signed
/// decimal integer; `$` a length-prefixed bulk string with `-1` denoting
/// `Nil`; `*` a counted array with `-1` denoting `Nil`; anything else is a
/// protocol error. Missing bytes yield `Incomplete`, never an error.
pub open spec fn parse_at(s: Seq<u8>, pos: int, depth_left: nat, maxlen: int) -> ParseStep
    decreases depth_left, 0nat, 0nat,
{
    if depth_left == 0 {
        ParseStep::Fail
    } else if pos >= s.len() {
        ParseStep::Incomplete
    } else {
        let sig = s[pos];
        if sig == BYTE_PLUS || sig == BYTE_MINUS {
            match find_crlf(s, pos + 1) {
                None => ParseStep::Incomplete,
                Some(e) => {
                    let content = s.subrange(pos + 1, e);
                    if sig == BYTE_PLUS {
                        ParseStep::Done(AbsReply::Status(content), e + 2)
                    } else {
                        ParseStep::Done(AbsReply::Error(content), e + 2)
                    }
                },
            }
        } else if sig == BYTE_COLON {
            match find_crlf(s, pos + 1) {
                None => ParseStep::Incomplete,
                Some(e) => match parse_i64(s.subrange(pos + 1, e)) {
                    None => ParseStep::Fail,
                    Some(i) => ParseStep::Done(AbsReply::Integer(i), e + 2),
                },
            }
        } else if sig == BYTE_DOLLAR {
            match find_crlf(s, pos + 1) {
                None => ParseStep::Incomplete,
                Some(e) => match parse_i64(s.subrange(pos + 1, e)) {
                    None => ParseStep::Fail,
                    Some(l) => if l == -1 {
                        ParseStep::Done(AbsReply::Nil, e + 2)
                    } else if l < 0 || l > maxlen {
                        ParseStep::Fail
                    } else if e + 2 + l + 2 > s.len() {
                        ParseStep::Incomplete
                    } else if s[e + 2 + l] == BYTE_CR && s[e + 2 + l + 1] == BYTE_LF {
                        ParseStep::Done(AbsReply::String(s.subrange(e + 2, e + 2 + l)), e + 2 + l + 2)
                    } else {
                        ParseStep::Fail
                    },
                },
            }
        } else if sig == BYTE_STAR {
            match find_crlf(s, pos + 1) {
                None => ParseStep::Incomplete,
                Some(e) => match parse_i64(s.subrange(pos + 1, e)) {
                    None => ParseStep::Fail,
                    Some(n) => if n == -1 {
                        ParseStep::Done(AbsReply::Nil, e + 2)
                    } else if n < 0 {
                        ParseStep::Fail
                    } else {
                        match parse_elems(s, e + 2, n as nat, (depth_left - 1) as nat, maxlen) {
                            ElemsStep::Done(es, p) => ParseStep::Done(AbsReply::Array(es), p),
                            ElemsStep::Incomplete => ParseStep::Incomplete,
                            ElemsStep::Fail => ParseStep::Fail,
                        }
                    },
                },
            }
        } else {
            ParseStep::Fail
        }
    }
}

/// Parses `n` consecutive replies starting at `pos`, each with nesting
/// budget `depth_left`, collecting them in arrival order.
pub open spec fn parse_elems(s: Seq<u8>, pos: int, n: nat, depth_left: nat, maxlen: int) -> ElemsStep
    decreases depth_left, 1nat, n,
{
    if n == 0 {
        ElemsStep::Done(Seq::empty(), pos)
    } else {
        match parse_at(s, pos, depth_left, maxlen) {
            ParseStep::Done(r, p) => match parse_elems(s, p, (n - 1) as nat, depth_left, maxlen) {
                ElemsStep::Done(es, p2) => ElemsStep::Done(seq![r] + es, p2),
                ElemsStep::Incomplete => ElemsStep::Incomplete,
                ElemsStep::Fail => ElemsStep::Fail,
            },
            ParseStep::Incomplete => ElemsStep::Incomplete,
            ParseStep::Fail => ElemsStep::Fail,
        }
    }
}

/// A digit string's value is never negative.
proof fn lemma_digits_val_nonneg(s: Seq<u8>)
    requires
        is_digits(s),
    ensures
        digits_val(s) >= 0,
    decreases s.len(),
{
    if s.len() > 0 {
        assert(is_digits(s.drop_last()));
        lemma_digits_val_nonneg(s.drop_last());
    }
}

/// Dropping trailing digits can only shrink the value: the value of a prefix
/// is a lower bound of the whole string's value.
proof fn lemma_digits_val_prefix(s: Seq<u8>, k: int)
    requires
        is_digits(s),
        0 <= k <= s.len(),
    ensures
        digits_val(s.subrange(0, k)) <= digits_val(s),
    decreases s.len() - k,
{
    if k == s.len() {
        assert(s.subrange(0, k) =~= s);
    } else {
        let t = s.subrange(0, s.len() - 1);
        assert(t == s.drop_last());
        assert(is_digits(t));
        lemma_digits_val_prefix(t, k);
        assert(t.subrange(0, k) =~= s.subrange(0, k));
        lemma_digits_val_nonneg(t);
        assert(48 <= s[s.len() - 1] <= 57);
        assert(s.last() == s[s.len() - 1]);
        assert(digits_val(s) == digits_val(t) * 10 + (s.last() - 48));
        assert(digits_val(t) * 10 >= digits_val(t)) by (nonlinear_arith)
            requires digits_val(t) >= 0;
    }
}

/// Scans for the first `\r\n` pair at or after `pos`, exactly as
/// `find_crlf` describes.
fn find_terminator(buf: &Vec<u8>, pos: usize) -> (r: Option<usize>)
    requires
        pos <= buf@.len(),
    ensures
        match r {
            Some(e) => find_crlf(buf@, pos as int) == Some(e as int) && pos <= e
                && e + 2 <= buf@.len(),
            None => find_crlf(buf@, pos as int) is None,
        },
{
    let mut i: usize = pos;
    while i < buf.len() && i + 1 < buf.len()
        invariant
            pos <= i <= buf@.len(),
            find_crlf(buf@, pos as int) == find_crlf(buf@, i as int),
        decreases buf@.len() - i,
    {
        if buf[i] == BYTE_CR && buf[i + 1] == BYTE_LF {
            return Some(i);
        }
        proof {
            assert(find_crlf(buf@, i as int) == find_crlf(buf@, i + 1));
        }
        i = i + 1;
    }
    None
}

/// Reads the signed decimal integer line occupying `buf[start..end]`,
/// exactly as `parse_i64` describes: `None` on malformed content or a value
/// outside the 64-bit signed range.
#[verifier::loop_isolation(false)]
fn parse_int_line(buf: &Vec<u8>, start: usize, end: usize) -> (r: Option<i64>)
    requires
        start <= end <= buf@.len(),
    ensures
        match r {
            Some(v) => parse_i64(buf@.subrange(start as int, end as int)) == Some(v as int),
            None => parse_i64(buf@.subrange(start as int, end as int)) is None,
        },
{
    let ghost content = buf@.subrange(start as int, end as int);
    if start == end {
        return None;
    }
    let neg = buf[start] == BYTE_MINUS;
    let digits_start: usize = if neg { start + 1 } else { start };
    if digits_start == end {
        return None;
    }
    let ghost digits = buf@.subrange(digits_start as int, end as int);
    proof {
        if neg {
            assert(content[0] == BYTE_MINUS);
            assert(content.drop_first() =~= digits);
        } else {
            assert(content =~= digits);
            assert(content[0] == buf@[start as int]);
        }
    }
    let limit: u64 = if neg {
        9223372036854775808u64
    } else {
        9223372036854775807u64
    };
    let mut mag: u64 = 0;
    let mut i: usize = digits_start;
    while i < end
        invariant
            digits_start <= i <= end <= buf@.len(),
            digits == buf@.subrange(digits_start as int, end as int),
            is_digits(buf@.subrange(digits_start as int, i as int)),
            mag as int == digits_val(buf@.subrange(digits_start as int, i as int)),
            mag <= limit,
            limit == if neg { 9223372036854775808u64 } else { 9223372036854775807u64 },
        decreases end - i,
    {
        let b = buf[i];
        if b < 48 || b > 57 {
            proof {
                assert(digits[i - digits_start] == b);
                assert(!is_digits(digits));
            }
            return None;
        }
        let d: u64 = (b - 48) as u64;
        let ghost pre = buf@.subrange(digits_start as int, i as int);
        let ghost pre1 = buf@.subrange(digits_start as int, i + 1);
        proof {
            assert(pre1.drop_last() =~= pre);
            assert(pre1.last() == b);
            assert(is_digits(pre1));
            assert(digits_val(pre1) == digits_val(pre) * 10 + (b - 48));
        }
        if mag > (limit - d) / 10 {
            // The digits read so far already exceed the representable range;
            // the remaining digits can only make the value larger.
            proof {
                assert(mag * 10 + d > limit) by (nonlinear_arith)
                    requires
                        mag > (limit - d) / 10,
                        0 <= d <= 9,
                        d <= limit,
                        limit <= 9223372036854775808u64,
                        mag >= 0;
                assert(digits_val(pre1) > limit);
                assert(forall|j: int| 0 <= j < digits.len() ==> #[trigger] digits[j] == buf@[digits_start + j]);
                if is_digits(digits) {
                    lemma_digits_val_prefix(digits, i + 1 - digits_start);
                    assert(digits.subrange(0, i + 1 - digits_start) =~= pre1);
                    assert(digits_val(digits) > limit);
                    lemma_digits_val_nonneg(digits);
                }
            }
            return None;
        }
        proof {
            assert(mag * 10 + d <= limit) by (nonlinear_arith)
                requires
                    mag <= (limit - d) / 10,
                    0 <= d <= 9,
                    d <= limit,
                    mag >= 0;
        }
        mag = mag * 10 + d;
        i = i + 1;
    }
    proof {
        assert(buf@.subrange(digits_start as int, end as int) =~= digits);
        assert(is_digits(digits));
        assert(mag as int == digits_val(digits));
        lemma_digits_val_nonneg(digits);
    }
    if neg {
        if mag == 9223372036854775808u64 {
            Some(i64::MIN)
        } else {
            Some(-(mag as i64))
        }
    } else {
        Some(mag as i64)
    }
}

/// Copies `buf[from..to]` into a fresh vector.
fn copy_range(buf: &Vec<u8>, from: usize, to: usize) -> (r: Vec<u8>)
    requires
        from <= to <= buf@.len(),
    ensures
        r@ == buf@.subrange(from as int, to as int),
{
    let mut out: Vec<u8> = Vec::new();
    let mut i: usize = from;
    while i < to
        invariant
            from <= i <= to <= buf@.len(),
            out@ == buf@.subrange(from as int, i as int),
        decreases to - i,
    {
        out.push(buf[i]);
        proof {
            assert(buf@.subrange(from as int, i + 1)
                =~= buf@.subrange(from as int, i as int).push(buf@[i as int]));
        }
        i = i + 1;
    }
    out
}

/// Result of one attempt to take a reply out of the buffer.
enum ParseOutcome {
    Complete(Reply, usize),
    Incomplete,
    Malformed,
}

/// Prefixes already-parsed elements onto the outcome of parsing the rest.
pub open spec fn elems_then(pre: Seq<AbsReply>, st: ElemsStep) -> ElemsStep {
    match st {
        ElemsStep::Done(es, p) => ElemsStep::Done(pre + es, p),
        ElemsStep::Incomplete => ElemsStep::Incomplete,
        ElemsStep::Fail => ElemsStep::Fail,
    }
}

/// `elems_then` composes by concatenating the prefixes.
proof fn lemma_elems_then_assoc(a: Seq<AbsReply>, b: Seq<AbsReply>, st: ElemsStep)
    ensures
        elems_then(a, elems_then(b, st)) == elems_then(a + b, st),
{
    match st {
        ElemsStep::Done(es, p) => {
            assert(a + (b + es) =~= (a + b) + es);
        },
        ElemsStep::Incomplete => {},
        ElemsStep::Fail => {},
    }
}

/// Attempts to parse one reply from `buf` at `pos`, acting exactly as the
/// specification `parse_at` prescribes on those bytes.
#[verifier::loop_isolation(false)]
fn parse_reply_at(buf: &Vec<u8>, pos: usize, depth_left: u32, maxlen: usize) -> (r: ParseOutcome)
    requires
        pos <= buf@.len(),
        maxlen <= MAX_BULK_CEILING,
    ensures
        ({
            let st = parse_at(buf@, pos as int, depth_left as nat, maxlen as int);
            match r {
                ParseOutcome::Complete(rep, end) => st == ParseStep::Done(rep@, end as int)
                    && pos < end <= buf@.len(),
                ParseOutcome::Incomplete => st is Incomplete,
                ParseOutcome::Malformed => st is Fail,
            }
        }),
    decreases depth_left,
{
    if depth_left == 0 {
        return ParseOutcome::Malformed;
    }
    if pos >= buf.len() {
        return ParseOutcome::Incomplete;
    }
    let sig = buf[pos];
    if sig == BYTE_PLUS || sig == BYTE_MINUS {
        match find_terminator(buf, pos + 1) {
            None => ParseOutcome::Incomplete,
            Some(e) => {
                let content = copy_range(buf, pos + 1, e);
                if sig == BYTE_PLUS {
                    ParseOutcome::Complete(Reply::Status(content), e + 2)
                } else {
                    ParseOutcome::Complete(Reply::Error(content), e + 2)
                }
            },
        }
    } else if sig == BYTE_COLON {
        match find_terminator(buf, pos + 1) {
            None => ParseOutcome::Incomplete,
            Some(e) => match parse_int_line(buf, pos + 1, e) {
                None => ParseOutcome::Malformed,
                Some(v) => ParseOutcome::Complete(Reply::Integer(v), e + 2),
            },
        }
    } else if sig == BYTE_DOLLAR {
        match find_terminator(buf, pos + 1) {
            None => ParseOutcome::Incomplete,
            Some(e) => match parse_int_line(buf, pos + 1, e) {
                None => ParseOutcome::Malformed,
                Some(l) => {
                    if l == -1 {
                        return ParseOutcome::Complete(Reply::Nil, e + 2);
                    }
                    if l < 0 || l > maxlen as i64 {
                        return ParseOutcome::Malformed;
                    }
                    let lu = l as usize;
                    let body = e + 2;
                    let rem = buf.len() - body;
                    if rem < 2 || lu > rem - 2 {
                        return ParseOutcome::Incomplete;
                    }
                    if buf[body + lu] == BYTE_CR && buf[body + lu + 1] == BYTE_LF {
                        let payload = copy_range(buf, body, body + lu);
                        ParseOutcome::Complete(Reply::String(payload), body + lu + 2)
                    } else {
                        ParseOutcome::Malformed
                    }
                },
            },
        }
    } else if sig == BYTE_STAR {
        match find_terminator(buf, pos + 1) {
            None => ParseOutcome::Incomplete,
            Some(e) => match parse_int_line(buf, pos + 1, e) {
                None => ParseOutcome::Malformed,
                Some(n) => {
                    if n == -1 {
                        return ParseOutcome::Complete(Reply::Nil, e + 2);
                    }
                    if n < 0 {
                        return ParseOutcome::Malformed;
                    }
                    let count = n as u64;
                    let body = e + 2;
                    let ghost dchild = (depth_left - 1) as nat;
                    let mut elems: Vec<Reply> = Vec::new();
                    let mut p: usize = body;
                    let mut i: u64 = 0;
                    proof {
                        lemma_views_of(elems@);
                        assert(views_of(elems@) =~= Seq::<AbsReply>::empty());
                        assert(elems_then(views_of(elems@),
                            parse_elems(buf@, body as int, count as nat, dchild, maxlen as int))
                            == parse_elems(buf@, body as int, count as nat, dchild, maxlen as int));
                    }
                    while i < count
                        invariant
                            i <= count,
                            body <= p <= buf@.len(),
                            views_of(elems@).len() == i as int,
                            parse_elems(buf@, body as int, count as nat, dchild, maxlen as int)
                                == elems_then(views_of(elems@),
                                    parse_elems(buf@, p as int, (count - i) as nat, dchild,
                                        maxlen as int)),
                        decreases count - i,
                    {
                        match parse_reply_at(buf, p, depth_left - 1, maxlen) {
                            ParseOutcome::Complete(rep, end) => {
                                proof {
                                    let rest = parse_elems(buf@, end as int, (count - i - 1) as nat,
                                        dchild, maxlen as int);
                                    assert(parse_elems(buf@, p as int, (count - i) as nat, dchild,
                                        maxlen as int) == elems_then(seq![rep@], rest));
                                    lemma_elems_then_assoc(views_of(elems@), seq![rep@], rest);
                                    lemma_views_of_push(elems@, rep);
                                    assert(views_of(elems@) + seq![rep@]
                                        =~= views_of(elems@.push(rep)));
                                }
                                elems.push(rep);
                                p = end;
                                i = i + 1;
                            },
                            ParseOutcome::Incomplete => {
                                return ParseOutcome::Incomplete;
                            },
                            ParseOutcome::Malformed => {
                                return ParseOutcome::Malformed;
                            },
                        }
                    }
                    proof {
                        assert(parse_elems(buf@, p as int, 0nat, dchild, maxlen as int)
                            == ElemsStep::Done(Seq::<AbsReply>::empty(), p as int));
                        assert(views_of(elems@) + Seq::<AbsReply>::empty() =~= views_of(elems@));
                        assert(parse_elems(buf@, body as int, count as nat, dchild, maxlen as int)
                            == ElemsStep::Done(views_of(elems@), p as int));
                    }
                    ParseOutcome::Complete(Reply::Array(elems), p)
                },
            },
        }
    } else {
        ParseOutcome::Malformed
    }
}

/// A malformed or oversized RESP input. Local to the reader, recoverable by
/// resetting it for a fresh stream.
#[derive(Clone, Copy, PartialEq, Eq, Structural, Debug)]
pub struct ProtocolError;

/// The incremental protocol reader. It owns only a byte buffer, a failure
/// flag and the configured bulk-length ceiling; `get_reply` acts on the
/// buffer exactly as `parse_at` prescribes.
pub struct Reader {
    buf: Vec<u8>,
    failed_state: bool,
    maxbulk: usize,
}

impl Reader {
    /// The bytes fed but not yet consumed.
    pub closed spec fn buffer(&self) -> Seq<u8> {
        self.buf@
    }

    /// Whether a protocol error has put the reader in its failed state.
    pub closed spec fn is_failed(&self) -> bool {
        self.failed_state
    }

    /// The configured ceiling on a declared bulk-string length.
    pub closed spec fn max_bulk(&self) -> int {
        self.maxbulk as int
    }

    /// The configured ceiling stays low enough that buffer-position
    /// arithmetic cannot overflow.
    pub closed spec fn wf(&self) -> bool {
        self.maxbulk <= MAX_BULK_CEILING
    }

    /// What the next `get_reply` is bound to do: the parse of the buffered
    /// bytes, under the nesting bound and the configured length ceiling.
    pub open spec fn outcome(&self) -> ParseStep {
        parse_at(self.buffer(), 0, MAX_DEPTH as nat, self.max_bulk())
    }

    /// A fresh reader with an empty buffer and the default length ceiling.
    pub fn new() -> (r: Reader)
        ensures
            r.wf(),
            r.buffer() == Seq::<u8>::empty(),
            !r.is_failed(),
            r.max_bulk() == DEFAULT_MAX_BULK as int,
    {
        Reader { buf: Vec::new(), failed_state: false, maxbulk: DEFAULT_MAX_BULK }
    }

    /// A fresh reader with a chosen ceiling on declared bulk lengths.
    pub fn with_max_bulk(maxbulk: usize) -> (r: Reader)
        requires
            maxbulk <= MAX_BULK_CEILING,
        ensures
            r.wf(),
            r.buffer() == Seq::<u8>::empty(),
            !r.is_failed(),
            r.max_bulk() == maxbulk as int,
    {
        Reader { buf: Vec::new(), failed_state: false, maxbulk }
    }

    /// Appends raw transport bytes to the buffer; no parsing happens here,
    /// so the transport may deliver chunks cut at any boundary. A failed
    /// reader refuses the bytes until it is reset.
    #[verifier::loop_isolation(false)]
    pub fn feed(&mut self, bytes: &Vec<u8>) -> (r: Result<(), ProtocolError>)
        ensures
            old(self).is_failed() ==> r is Err && *final(self) == *old(self),
            !old(self).is_failed() ==> r is Ok
                && final(self).buffer() == old(self).buffer() + bytes@
                && !final(self).is_failed()
                && final(self).max_bulk() == old(self).max_bulk()
                && final(self).wf() == old(self).wf(),
    {
        if self.failed_state {
            return Err(ProtocolError);
        }
        let mut i: usize = 0;
        while i < bytes.len()
            invariant
                i <= bytes@.len(),
                self.buf@ == old(self).buffer() + bytes@.subrange(0, i as int),
                self.failed_state == old(self).is_failed(),
                self.maxbulk == old(self).maxbulk,
            decreases bytes@.len() - i,
        {
            self.buf.push(bytes[i]);
            proof {
                assert(bytes@.subrange(0, i + 1)
                    =~= bytes@.subrange(0, i as int).push(bytes@[i as int]));
            }
            i = i + 1;
        }
        proof {
            assert(bytes@.subrange(0, bytes@.len() as int) =~= bytes@);
        }
        Ok(())
    }

    /// Attempts to consume one complete reply from the front of the buffer.
    /// `Ok(Some(_))` consumes exactly the reply's bytes; `Ok(None)` means
    /// the buffer is incomplete and consumes nothing; `Err(_)` reports a
    /// protocol error and moves the reader to its failed state, leaving the
    /// buffer as it was.
    pub fn get_reply(&mut self) -> (r: Result<Option<Reply>, ProtocolError>)
        requires
            old(self).wf(),
        ensures
            final(self).wf(),
            final(self).max_bulk() == old(self).max_bulk(),
            old(self).is_failed() ==> r is Err && *final(self) == *old(self),
            !old(self).is_failed() ==> match old(self).outcome() {
                ParseStep::Done(ar, n) => (r matches Ok(Some(rep)) && rep@ == ar)
                    && final(self).buffer()
                        == old(self).buffer().subrange(n, old(self).buffer().len() as int)
                    && !final(self).is_failed(),
                ParseStep::Incomplete => r == Ok::<Option<Reply>, ProtocolError>(None)
                    && *final(self) == *old(self),
                ParseStep::Fail => r is Err && final(self).is_failed()
                    && final(self).buffer() == old(self).buffer(),
            },
    {
        if self.failed_state {
            return Err(ProtocolError);
        }
        match parse_reply_at(&self.buf, 0, MAX_DEPTH, self.maxbulk) {
            ParseOutcome::Complete(rep, end) => {
                let rest = copy_range(&self.buf, end, self.buf.len());
                self.buf = rest;
                Ok(Some(rep))
            },
            ParseOutcome::Incomplete => Ok(None),
            ParseOutcome::Malformed => {
                self.failed_state = true;
                Err(ProtocolError)
            },
        }
    }

    /// Discards all buffered bytes and clears the failed state, readying the
    /// reader for a fresh stream.
    pub fn reset(&mut self)
        ensures
            final(self).buffer() == Seq::<u8>::empty(),
            !final(self).is_failed(),
            final(self).max_bulk() == old(self).max_bulk(),
            final(self).wf() == old(self).wf(),
    {
        self.buf = Vec::new();
        self.failed_state = false;
    }
}

} // verus!
