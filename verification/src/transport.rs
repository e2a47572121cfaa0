//! Length-prefixed framing of JSON-RPC messages over a byte stream.
//!
//! An outbound message body is framed as a `Content-Length` header
//! line, a blank line, and the raw body.  Inbound parsing reads header
//! lines until a blank line, accepting both `\r\n` and `\n` line
//! endings, takes the mandatory `Content-Length` value, and then takes
//! exactly that many bytes as the body.

use vstd::prelude::*;

use crate::text::{dec_bytes, is_digit, parse_usize_bytes, parse_usize_spec, subvec};

verus! {

/// How receiving a frame can fail: a `Content-Length` value that does
/// not parse as a number, a header block without any `Content-Length`,
/// a body shorter than the announced length, or a body that is not a
/// well-formed message.
#[derive(Clone, Copy, Debug, PartialEq, Eq, Structural)]
pub enum TransportError {
    MalformedLength,
    MissingLength,
    TruncatedBody,
    InvalidBody,
}

/// The ASCII bytes of `Content-Length:`.
pub open spec fn cl_prefix() -> Seq<u8> {
    seq![
        67u8,
        111u8,
        110u8,
        116u8,
        101u8,
        110u8,
        116u8,
        45u8,
        76u8,
        101u8,
        110u8,
        103u8,
        116u8,
        104u8,
        58u8,
    ]
}

/// A frame: the header line, a blank line, then the raw body.
pub open spec fn frame_bytes(body: Seq<u8>) -> Seq<u8> {
    cl_prefix() + seq![32u8] + dec_bytes(body.len()) + seq![10u8] + seq![10u8] + body
}

/// Frames a message body for sending.
pub fn frame_message(body: &Vec<u8>) -> (r: Vec<u8>)
    ensures
        r@ == frame_bytes(body@),
{
    let mut r = make_cl_prefix();
    r.push(32);
    let mut digits = crate::text::fmt_u64_bytes(body.len() as u64);
    r.append(&mut digits);
    r.push(10);
    r.push(10);
    let mut i: usize = 0;
    let ghost head = r@;
    while i < body.len()
        invariant
            i <= body@.len(),
            r@ == head + body@.take(i as int),
        decreases body@.len() - i,
    {
        r.push(body[i]);
        assert(head + body@.take(i as int).push(body@[i as int]) =~= head + body@.take(i + 1));
        i = i + 1;
    }
    proof {
        assert(head + body@.take(i as int) =~= head + body@);
        assert(r@ =~= frame_bytes(body@));
    }
    r
}

/// The `Content-Length:` prefix as a byte vector.
fn make_cl_prefix() -> (r: Vec<u8>)
    ensures
        r@ == cl_prefix(),
{
    let mut r: Vec<u8> = Vec::new();
    r.push(67);
    r.push(111);
    r.push(110);
    r.push(116);
    r.push(101);
    r.push(110);
    r.push(116);
    r.push(45);
    r.push(76);
    r.push(101);
    r.push(110);
    r.push(103);
    r.push(116);
    r.push(104);
    r.push(58);
    assert(r@ =~= cl_prefix());
    r
}

/// Whether `b` is stripped by trimming: space, tab, carriage return or
/// line feed.
pub open spec fn is_space(b: u8) -> bool {
    b == 32 || b == 9 || b == 13 || b == 10
}

/// `s` without its leading space bytes.
pub open spec fn trim_left(s: Seq<u8>) -> Seq<u8>
    decreases s.len(),
{
    if s.len() > 0 && is_space(s[0]) {
        trim_left(s.drop_first())
    } else {
        s
    }
}

/// `s` without its trailing space bytes.
pub open spec fn trim_right(s: Seq<u8>) -> Seq<u8>
    decreases s.len(),
{
    if s.len() > 0 && is_space(s.last()) {
        trim_right(s.drop_last())
    } else {
        s
    }
}

/// `s` without leading and trailing space bytes.
pub open spec fn trim_spec(s: Seq<u8>) -> Seq<u8> {
    trim_right(trim_left(s))
}

/// Whether `b` is stripped by trimming.
pub fn is_space_byte(b: u8) -> (r: bool)
    ensures
        r == is_space(b),
{
    b == 32 || b == 9 || b == 13 || b == 10
}

/// Trims leading and trailing space bytes.
pub fn trim_bytes(v: &Vec<u8>) -> (r: Vec<u8>)
    ensures
        r@ == trim_spec(v@),
{
    let mut a: usize = 0;
    proof {
        assert(v@.skip(0) =~= v@);
    }
    while a < v.len() && is_space_byte(v[a])
        invariant
            a <= v@.len(),
            trim_left(v@) == trim_left(v@.skip(a as int)),
        decreases v@.len() - a,
    {
        proof {
            assert(v@.skip(a as int).drop_first() =~= v@.skip(a + 1));
        }
        a = a + 1;
    }
    proof {
        if a < v@.len() {
            assert(trim_left(v@.skip(a as int)) == v@.skip(a as int));
        } else {
            assert(v@.skip(a as int) =~= Seq::<u8>::empty());
        }
    }
    let mut b: usize = v.len();
    proof {
        assert(v@.skip(a as int).take(b - a) =~= v@.skip(a as int));
    }
    while b > a && is_space_byte(v[b - 1])
        invariant
            a <= b <= v@.len(),
            trim_left(v@) == v@.skip(a as int),
            trim_right(v@.skip(a as int)) == trim_right(v@.skip(a as int).take(b - a)),
        decreases b,
    {
        proof {
            let t = v@.skip(a as int).take(b - a);
            assert(t.last() == v@[b - 1]);
            assert(t.drop_last() =~= v@.skip(a as int).take(b - 1 - a));
        }
        b = b - 1;
    }
    proof {
        let t = v@.skip(a as int).take(b - a);
        if b > a {
            assert(t.last() == v@[b - 1]);
            assert(trim_right(t) == t);
        } else {
            assert(t =~= Seq::<u8>::empty());
        }
        assert(v@.subrange(a as int, b as int) =~= v@.skip(a as int).take(b - a));
    }
    subvec(v, a, b)
}

/// Whether `s` begins with `p`.
pub open spec fn seq_starts_with(s: Seq<u8>, p: Seq<u8>) -> bool {
    s.len() >= p.len() && s.subrange(0, p.len() as int) == p
}

/// Whether `hay` begins with `needle`.
pub fn starts_with_bytes(hay: &Vec<u8>, needle: &Vec<u8>) -> (r: bool)
    ensures
        r == seq_starts_with(hay@, needle@),
{
    if hay.len() < needle.len() {
        return false;
    }
    let mut k: usize = 0;
    while k < needle.len()
        invariant
            k <= needle@.len() <= hay@.len(),
            forall|j: int| 0 <= j < k ==> hay@[j] == needle@[j],
        decreases needle@.len() - k,
    {
        if hay[k] != needle[k] {
            proof {
                if seq_starts_with(hay@, needle@) {
                    assert(hay@.subrange(0, needle@.len() as int)[k as int] == hay@[k as int]);
                }
            }
            return false;
        }
        k = k + 1;
    }
    proof {
        assert(hay@.subrange(0, needle@.len() as int) =~= needle@);
    }
    true
}

/// The index of the first occurrence of `b` in `s`, if any.
pub open spec fn first_byte(s: Seq<u8>, b: u8) -> Option<int>
    decreases s.len(),
{
    if s.len() == 0 {
        None
    } else if s[0] == b {
        Some(0int)
    } else {
        match first_byte(s.drop_first(), b) {
            None => None,
            Some(i) => Some(i + 1),
        }
    }
}

pub proof fn lemma_first_byte(s: Seq<u8>, b: u8)
    ensures
        match first_byte(s, b) {
            Some(i) => 0 <= i < s.len() && s[i] == b && forall|k: int| 0 <= k < i ==> s[k] != b,
            None => forall|k: int| 0 <= k < s.len() ==> s[k] != b,
        },
    decreases s.len(),
{
    if s.len() > 0 && s[0] != b {
        let t = s.drop_first();
        lemma_first_byte(t, b);
        match first_byte(s, b) {
            None => {
                assert forall|k: int| 0 <= k < s.len() implies s[k] != b by {
                    if k > 0 {
                        assert(t[k - 1] == s[k]);
                    }
                }
            }
            Some(i) => {
                assert(first_byte(t, b) == Some(i - 1));
                assert(t[i - 1] == s[i]);
                assert forall|k: int| 0 <= k < i implies s[k] != b by {
                    if k > 0 {
                        assert(t[k - 1] == s[k]);
                    }
                }
            }
        }
    }
}

/// The first occurrence of `b` in `s` is at `i` exactly when every
/// earlier byte differs from `b` and either `i` is in range and holds
/// `b`, or `i` is the length and `b` does not occur.
pub proof fn lemma_first_byte_at(s: Seq<u8>, b: u8, i: int)
    requires
        0 <= i <= s.len(),
        forall|k: int| 0 <= k < i ==> s[k] != b,
        i < s.len() ==> s[i] == b,
    ensures
        first_byte(s, b) == if i < s.len() {
            Some(i)
        } else {
            None::<int>
        },
{
    lemma_first_byte(s, b);
    match first_byte(s, b) {
        None => {
            if i < s.len() {
                assert(s[i] != b);
                assert(false);
            }
        }
        Some(j) => {
            if i >= s.len() {
                assert(s[j] != b);
                assert(false);
            } else {
                if j < i {
                    assert(s[j] != b);
                    assert(false);
                }
                if i < j {
                    assert(s[i] != b);
                    assert(false);
                }
            }
        }
    }
}

/// The position at which the line starting at `pos` ends: the first
/// line feed at or after `pos`, or the end of the input.
pub open spec fn line_end(input: Seq<u8>, pos: int) -> int {
    match first_byte(input.skip(pos), 10u8) {
        Some(i) => pos + i,
        None => input.len() as int,
    }
}

/// The index of the first line feed at or after `pos`, or the input's
/// length if there is none.
pub fn find_line_end(input: &Vec<u8>, pos: usize) -> (r: usize)
    requires
        pos <= input@.len(),
    ensures
        r == line_end(input@, pos as int),
        pos <= r <= input@.len(),
        r < input@.len() ==> input@[r as int] == 10,
{
    let mut i = pos;
    while i < input.len() && input[i] != 10
        invariant
            pos <= i <= input@.len(),
            forall|k: int| pos <= k < i ==> input@[k] != 10,
        decreases input@.len() - i,
    {
        i = i + 1;
    }
    proof {
        let rest = input@.skip(pos as int);
        assert forall|k: int| 0 <= k < i - pos implies rest[k] != 10u8 by {
            assert(rest[k] == input@[k + pos]);
        }
        if i < input@.len() {
            assert(rest[i - pos] == input@[i as int]);
        }
        lemma_first_byte_at(rest, 10u8, i - pos);
    }
    i
}

/// The segment of a `Content-Length` header line that holds the
/// value: everything after the prefix's colon, up to the next colon or
/// the end of the line.
pub open spec fn cl_value_seg(line: Seq<u8>) -> Seq<u8> {
    let rest = line.skip(cl_prefix().len() as int);
    match first_byte(rest, 58u8) {
        None => rest,
        Some(j) => rest.take(j),
    }
}

/// One step of header parsing: the position after the blank line that
/// ends the headers, and the last `Content-Length` value seen, or an
/// error for a `Content-Length` line whose value does not parse.
pub open spec fn parse_headers(input: Seq<u8>, pos: int, cl: Option<usize>) -> Result<
    (int, Option<usize>),
    TransportError,
>
    decreases input.len() - pos,
    when 0 <= pos <= input.len()
    via parse_headers_decreases
{
    if pos >= input.len() {
        Ok((pos, cl))
    } else {
        let le = line_end(input, pos);
        let line = trim_spec(input.subrange(pos, le));
        let next = if le < input.len() {
            le + 1
        } else {
            le
        };
        if line.len() == 0 {
            Ok((next, cl))
        } else if seq_starts_with(line, cl_prefix()) {
            match parse_usize_spec(trim_spec(cl_value_seg(line))) {
                Some(n) => parse_headers(input, next, Some(n)),
                None => Err(TransportError::MalformedLength),
            }
        } else {
            parse_headers(input, next, cl)
        }
    }
}

#[via_fn]
proof fn parse_headers_decreases(input: Seq<u8>, pos: int, cl: Option<usize>) {
    if 0 <= pos < input.len() {
        lemma_first_byte(input.skip(pos), 10u8);
    }
}

/// The result of reading one frame starting at `pos`: the body and
/// the position just past it, or the error the stream's contents
/// force.
pub open spec fn frame_spec(input: Seq<u8>, pos: int) -> Result<(Seq<u8>, int), TransportError> {
    match parse_headers(input, pos, None) {
        Err(e) => Err(e),
        Ok((bpos, cl)) => match cl {
            None => Err(TransportError::MissingLength),
            Some(n) => if bpos + n <= input.len() {
                Ok((input.subrange(bpos, bpos + n), bpos + n))
            } else {
                Err(TransportError::TruncatedBody)
            },
        },
    }
}

/// Trimming does nothing to a sequence whose first and last bytes are
/// not spaces.
proof fn lemma_trim_no_space(s: Seq<u8>)
    requires
        s.len() > 0 ==> !is_space(s[0]) && !is_space(s.last()),
    ensures
        trim_spec(s) == s,
{
    assert(trim_left(s) == s);
    assert(trim_right(s) == s);
}

/// Framing round-trip: reading a frame built for `body` back from the
/// start of the framed bytes yields exactly `body`, consuming the
/// whole frame.
pub proof fn lemma_frame_round_trip(body: Seq<u8>)
    requires
        body.len() <= usize::MAX,
    ensures
        frame_spec(frame_bytes(body), 0) == Ok::<_, TransportError>(
            (body, frame_bytes(body).len() as int),
        ),
{
    let f = frame_bytes(body);
    let d = dec_bytes(body.len());
    crate::text::lemma_dec_bytes_val(body.len());
    crate::text::lemma_parse_dec(body.len());
    let p = 16 + d.len() as int;
    assert(f.len() == p + 2 + body.len());
    assert forall|k: int| 0 <= k < 15 implies f[k] == cl_prefix()[k] by {}
    assert(f[15] == 32u8);
    assert forall|k: int| 16 <= k < p implies f[k] == d[k - 16] by {}
    assert(f[p] == 10u8);
    assert(f[p + 1] == 10u8);
    assert forall|k: int| p + 2 <= k < f.len() implies f[k] == body[k - (p + 2)] by {}
    // The first line runs to the line feed after the digits.
    assert forall|k: int| 0 <= k < p implies f.skip(0)[k] != 10u8 by {
        assert(f.skip(0)[k] == f[k]);
        if k < 15 {
            assert(cl_prefix()[k] != 10u8);
        } else if k >= 16 {
            assert(is_digit(d[k - 16]));
        }
    }
    assert(f.skip(0)[p] == f[p]);
    lemma_first_byte_at(f.skip(0), 10u8, p);
    assert(line_end(f, 0) == p);
    let raw = f.subrange(0, p);
    assert(raw[0] == 67u8);
    assert(raw.last() == d.last());
    assert(is_digit(d.last()));
    lemma_trim_no_space(raw);
    let line = trim_spec(raw);
    assert(line == raw);
    // It is a Content-Length line.
    assert(line.subrange(0, 15) =~= cl_prefix());
    assert(seq_starts_with(line, cl_prefix()));
    // Its value segment is the space and the digits; no colon follows.
    let rest = line.skip(15);
    assert(rest.len() == 1 + d.len());
    assert(rest[0] == 32u8);
    assert forall|k: int| 1 <= k < rest.len() implies rest[k] == d[k - 1] by {}
    assert forall|k: int| 0 <= k < rest.len() implies rest[k] != 58u8 by {
        if k >= 1 {
            assert(is_digit(d[k - 1]));
        }
    }
    lemma_first_byte_at(rest, 58u8, rest.len() as int);
    assert(cl_value_seg(line) == rest);
    // Trimming the value leaves the digits.
    assert(rest.drop_first() =~= d);
    assert(trim_left(rest) == trim_left(d));
    assert(is_digit(d[0]));
    assert(trim_left(d) == d);
    assert(trim_right(d) == d);
    assert(trim_spec(rest) == d);
    let n = body.len() as usize;
    assert(parse_usize_spec(d) == Some(n));
    // The headers therefore parse to the length, ending past the
    // blank line.
    assert(parse_headers(f, 0, None) == parse_headers(f, p + 1, Some(n)));
    assert(f.skip(p + 1)[0] == f[p + 1]);
    lemma_first_byte_at(f.skip(p + 1), 10u8, 0);
    assert(line_end(f, p + 1) == p + 1);
    assert(f.subrange(p + 1, p + 1) =~= Seq::<u8>::empty());
    assert(trim_left(Seq::<u8>::empty()) == Seq::<u8>::empty());
    assert(trim_spec(f.subrange(p + 1, p + 1)).len() == 0);
    assert(parse_headers(f, p + 1, Some(n)) == Ok::<_, TransportError>((p + 2, Some(n))));
    // The body is everything after the blank line.
    assert(f.subrange(p + 2, p + 2 + n) =~= body);
}

/// Trimming ignores a trailing carriage return.
pub proof fn lemma_trim_push_cr(s: Seq<u8>)
    ensures
        trim_spec(s.push(13u8)) == trim_spec(s),
    decreases s.len(),
{
    if s.len() == 0 {
        assert(s.push(13u8).drop_first() =~= Seq::<u8>::empty());
        assert(trim_left(s.push(13u8)) == trim_left(Seq::<u8>::empty()));
    } else if is_space(s[0]) {
        lemma_trim_push_cr(s.drop_first());
        assert(s.push(13u8)[0] == s[0]);
        assert(s.push(13u8).drop_first() =~= s.drop_first().push(13u8));
        assert(trim_left(s.push(13u8)) == trim_left(s.drop_first().push(13u8)));
        assert(trim_left(s) == trim_left(s.drop_first()));
    } else {
        assert(s.push(13u8)[0] == s[0]);
        assert(trim_left(s.push(13u8)) == s.push(13u8));
        assert(trim_left(s) == s);
        assert(s.push(13u8).last() == 13u8);
        assert(s.push(13u8).drop_last() =~= s);
        assert(trim_right(s.push(13u8)) == trim_right(s));
    }
}

/// Header robustness: a stream whose header and blank line end with
/// `\r\n` and one whose lines end with bare `\n` parse to the same
/// body, or fail with the same error.
pub proof fn lemma_header_terminator_irrelevant(h: Seq<u8>, body: Seq<u8>)
    requires
        forall|k: int| 0 <= k < h.len() ==> h[k] != 10,
    ensures
        ({
            let crlf = h + seq![13u8, 10u8, 13u8, 10u8] + body;
            let lf = h + seq![10u8, 10u8] + body;
            match (frame_spec(crlf, 0), frame_spec(lf, 0)) {
                (Ok((b1, _)), Ok((b2, _))) => b1 == b2,
                (Err(e1), Err(e2)) => e1 == e2,
                _ => false,
            }
        }),
{
    let crlf = h + seq![13u8, 10u8, 13u8, 10u8] + body;
    let lf = h + seq![10u8, 10u8] + body;
    let hl = h.len() as int;
    assert(crlf.len() == hl + 4 + body.len());
    assert(lf.len() == hl + 2 + body.len());
    assert forall|k: int| 0 <= k < hl implies crlf[k] == h[k] && lf[k] == h[k] by {}
    assert(crlf[hl] == 13u8 && crlf[hl + 1] == 10u8 && crlf[hl + 2] == 13u8 && crlf[hl + 3]
        == 10u8);
    assert(lf[hl] == 10u8 && lf[hl + 1] == 10u8);
    assert forall|k: int| 0 <= k < body.len() implies crlf[hl + 4 + k] == body[k] && lf[hl + 2 + k]
        == body[k] by {}
    // The first line of each stream is the header, with or without a
    // carriage return; both trim to the same text.
    assert forall|k: int| 0 <= k < hl + 1 implies crlf.skip(0)[k] != 10u8 by {
        assert(crlf.skip(0)[k] == crlf[k]);
    }
    assert(crlf.skip(0)[hl + 1] == 10u8);
    lemma_first_byte_at(crlf.skip(0), 10u8, hl + 1);
    assert(line_end(crlf, 0) == hl + 1);
    assert forall|k: int| 0 <= k < hl implies lf.skip(0)[k] != 10u8 by {
        assert(lf.skip(0)[k] == lf[k]);
    }
    assert(lf.skip(0)[hl] == 10u8);
    lemma_first_byte_at(lf.skip(0), 10u8, hl);
    assert(line_end(lf, 0) == hl);
    assert(crlf.subrange(0, hl + 1) =~= h.push(13u8));
    assert(lf.subrange(0, hl) =~= h);
    lemma_trim_push_cr(h);
    let line = trim_spec(h);
    // The second line of each stream is blank.
    assert(crlf.skip(hl + 2)[0] == crlf[hl + 2]);
    assert(crlf.skip(hl + 2)[1] == crlf[hl + 3]);
    lemma_first_byte_at(crlf.skip(hl + 2), 10u8, 1);
    assert(line_end(crlf, hl + 2) == hl + 3);
    assert(crlf.subrange(hl + 2, hl + 3) =~= seq![13u8]);
    assert(seq![13u8].drop_first() =~= Seq::<u8>::empty());
    assert(trim_left(seq![13u8]) == trim_left(Seq::<u8>::empty()));
    assert(trim_spec(crlf.subrange(hl + 2, hl + 3)).len() == 0);
    assert(lf.skip(hl + 1)[0] == lf[hl + 1]);
    lemma_first_byte_at(lf.skip(hl + 1), 10u8, 0);
    assert(line_end(lf, hl + 1) == hl + 1);
    assert(lf.subrange(hl + 1, hl + 1) =~= Seq::<u8>::empty());
    assert(trim_spec(lf.subrange(hl + 1, hl + 1)).len() == 0);
    // Headers end after the blank line, with the same value either
    // way; the bodies that follow are identical.
    if line.len() == 0 {
        assert(parse_headers(crlf, 0, None) == Ok::<_, TransportError>((hl + 2, None::<usize>)));
        assert(parse_headers(lf, 0, None) == Ok::<_, TransportError>((hl + 1, None::<usize>)));
    } else {
        let cl = if seq_starts_with(line, cl_prefix()) {
            parse_usize_spec(trim_spec(cl_value_seg(line)))
        } else {
            None
        };
        if seq_starts_with(line, cl_prefix()) && cl is None {
            assert(parse_headers(crlf, 0, None) == Err::<(int, Option<usize>), _>(
                TransportError::MalformedLength,
            ));
            assert(parse_headers(lf, 0, None) == Err::<(int, Option<usize>), _>(
                TransportError::MalformedLength,
            ));
        } else {
            let after = if seq_starts_with(line, cl_prefix()) {
                cl
            } else {
                None
            };
            assert(parse_headers(crlf, 0, None) == parse_headers(crlf, hl + 2, after));
            assert(parse_headers(lf, 0, None) == parse_headers(lf, hl + 1, after));
            assert(parse_headers(crlf, hl + 2, after) == Ok::<_, TransportError>(
                (hl + 4, after),
            ));
            assert(parse_headers(lf, hl + 1, after) == Ok::<_, TransportError>((hl + 2, after)));
            match after {
                None => {}
                Some(n) => {
                    if n <= body.len() {
                        assert(crlf.subrange(hl + 4, hl + 4 + n) =~= body.take(n as int));
                        assert(lf.subrange(hl + 2, hl + 2 + n) =~= body.take(n as int));
                    }
                }
            }
        }
    }
}

/// Extracts and parses the value of a `Content-Length` header line:
/// the text after the prefix's colon up to the next colon or the end
/// of the line, trimmed.
fn cl_line_value(line: &Vec<u8>) -> (r: Option<usize>)
    requires
        seq_starts_with(line@, cl_prefix()),
    ensures
        r == parse_usize_spec(trim_spec(cl_value_seg(line@))),
{
    let mut j: usize = 15;
    while j < line.len() && line[j] != 58
        invariant
            15 <= j <= line@.len(),
            forall|k: int| 15 <= k < j ==> line@[k] != 58,
        decreases line@.len() - j,
    {
        j = j + 1;
    }
    proof {
        let rest = line@.skip(15);
        assert forall|k: int| 0 <= k < j - 15 implies rest[k] != 58u8 by {
            assert(rest[k] == line@[k + 15]);
        }
        if j < line@.len() {
            assert(rest[j - 15] == line@[j as int]);
        }
        lemma_first_byte_at(rest, 58u8, j - 15);
        assert(cl_value_seg(line@) =~= line@.subrange(15, j as int));
    }
    let raw_val = subvec(line, 15, j);
    let val = trim_bytes(&raw_val);
    parse_usize_bytes(&val)
}

/// Scans the header lines starting at `pos`: returns the position
/// just past the blank line that ends the headers and the last
/// `Content-Length` value seen.
fn scan_headers(input: &Vec<u8>, pos: usize) -> (r: Result<
    (usize, Option<usize>),
    TransportError,
>)
    requires
        pos <= input@.len(),
    ensures
        match (r, parse_headers(input@, pos as int, None)) {
            (Ok((b1, c1)), Ok((b2, c2))) => b1 == b2 && c1 == c2 && b1 <= input@.len(),
            (Err(e1), Err(e2)) => e1 == e2,
            _ => false,
        },
{
    let prefix = make_cl_prefix();
    let mut cur = pos;
    let mut cl: Option<usize> = None;
    while cur < input.len()
        invariant
            pos <= cur <= input@.len(),
            prefix@ == cl_prefix(),
            parse_headers(input@, pos as int, None) == parse_headers(input@, cur as int, cl),
        decreases input@.len() - cur,
    {
        let le = find_line_end(input, cur);
        let raw = subvec(input, cur, le);
        let line = trim_bytes(&raw);
        let next = if le < input.len() {
            le + 1
        } else {
            le
        };
        if line.len() == 0 {
            proof {
                assert(parse_headers(input@, cur as int, cl) == Ok::<_, TransportError>(
                    (next as int, cl),
                ));
            }
            return Ok((next, cl));
        } else if starts_with_bytes(&line, &prefix) {
            match cl_line_value(&line) {
                None => {
                    proof {
                        assert(parse_headers(input@, cur as int, cl) == Err::<
                            (int, Option<usize>),
                            _,
                        >(TransportError::MalformedLength));
                    }
                    return Err(TransportError::MalformedLength);
                }
                Some(n) => {
                    proof {
                        assert(parse_headers(input@, cur as int, cl) == parse_headers(
                            input@,
                            next as int,
                            Some(n),
                        ));
                    }
                    cl = Some(n);
                }
            }
            cur = next;
        } else {
            proof {
                assert(parse_headers(input@, cur as int, cl) == parse_headers(
                    input@,
                    next as int,
                    cl,
                ));
            }
            cur = next;
        }
    }
    Ok((cur, cl))
}

/// Whether the bytes from `pos` on already settle the outcome of
/// reading a frame there, so that no later bytes could change it:
/// a blank line has closed the headers and either no `Content-Length`
/// was seen (the error is fixed) or the announced body is fully
/// present, or a terminated `Content-Length` line holds a value that
/// does not parse.  False while the current line, the headers or the
/// body may still grow.
pub open spec fn headers_decided(input: Seq<u8>, pos: int, cl: Option<usize>) -> bool
    decreases input.len() - pos,
    when 0 <= pos <= input.len()
    via headers_decided_decreases
{
    if pos >= input.len() {
        false
    } else {
        let le = line_end(input, pos);
        if le >= input.len() {
            false
        } else {
            let line = trim_spec(input.subrange(pos, le));
            let next = le + 1;
            if line.len() == 0 {
                match cl {
                    None => true,
                    Some(n) => next + n <= input.len(),
                }
            } else if seq_starts_with(line, cl_prefix()) {
                match parse_usize_spec(trim_spec(cl_value_seg(line))) {
                    Some(n) => headers_decided(input, next, Some(n)),
                    None => true,
                }
            } else {
                headers_decided(input, next, cl)
            }
        }
    }
}

#[via_fn]
proof fn headers_decided_decreases(input: Seq<u8>, pos: int, cl: Option<usize>) {
    if 0 <= pos < input.len() {
        lemma_first_byte(input.skip(pos), 10u8);
    }
}

/// Whether the bytes already settle what reading a frame at `pos`
/// returns.
pub open spec fn frame_decided(input: Seq<u8>, pos: int) -> bool {
    headers_decided(input, pos, None)
}

/// Whether the buffered bytes already settle the outcome of reading a
/// frame at `pos`.  A streaming reader waits for more bytes while
/// this is false, and acts on `read_frame`'s result — success or
/// error — as soon as it is true.
pub fn is_frame_decided(input: &Vec<u8>, pos: usize) -> (r: bool)
    requires
        pos <= input@.len(),
    ensures
        r == frame_decided(input@, pos as int),
{
    let prefix = make_cl_prefix();
    let mut cur = pos;
    let mut cl: Option<usize> = None;
    while cur < input.len()
        invariant
            pos <= cur <= input@.len(),
            prefix@ == cl_prefix(),
            frame_decided(input@, pos as int) == headers_decided(input@, cur as int, cl),
        decreases input@.len() - cur,
    {
        let le = find_line_end(input, cur);
        if le >= input.len() {
            return false;
        }
        let raw = subvec(input, cur, le);
        let line = trim_bytes(&raw);
        let next = le + 1;
        if line.len() == 0 {
            match cl {
                None => {
                    return true;
                }
                Some(n) => {
                    return n <= input.len() - next;
                }
            }
        } else if starts_with_bytes(&line, &prefix) {
            match cl_line_value(&line) {
                None => {
                    return true;
                }
                Some(n) => {
                    cl = Some(n);
                }
            }
            cur = next;
        } else {
            cur = next;
        }
    }
    false
}

/// The first occurrence of `b` in `s` stays the first occurrence
/// when more bytes are appended.
proof fn lemma_first_byte_prefix(s: Seq<u8>, t: Seq<u8>, b: u8)
    requires
        first_byte(s, b) is Some,
    ensures
        first_byte(s + t, b) == first_byte(s, b),
{
    lemma_first_byte(s, b);
    let i = first_byte(s, b)->Some_0;
    assert forall|k: int| 0 <= k < i implies (s + t)[k] != b by {
        assert((s + t)[k] == s[k]);
    }
    assert((s + t)[i] == s[i]);
    lemma_first_byte_at(s + t, b, i);
}

/// Once the headers are decided, appending bytes to the stream
/// changes neither the parse result nor, for a successful parse, the
/// fact that the announced body lies within the bytes already there.
proof fn lemma_headers_decided_stable(input: Seq<u8>, more: Seq<u8>, pos: int, cl: Option<usize>)
    requires
        0 <= pos <= input.len(),
        headers_decided(input, pos, cl),
    ensures
        parse_headers(input + more, pos, cl) == parse_headers(input, pos, cl),
        match parse_headers(input, pos, cl) {
            Ok((bpos, cl2)) => pos <= bpos <= input.len() && match cl2 {
                Some(n) => bpos + n <= input.len(),
                None => true,
            },
            Err(_) => true,
        },
    decreases input.len() - pos,
{
    let w = input + more;
    lemma_first_byte(input.skip(pos), 10u8);
    let le = line_end(input, pos);
    assert(pos <= le < input.len());
    assert(w.skip(pos) =~= input.skip(pos) + more);
    lemma_first_byte_prefix(input.skip(pos), more, 10u8);
    assert(line_end(w, pos) == le);
    assert(w.subrange(pos, le) =~= input.subrange(pos, le));
    let line = trim_spec(input.subrange(pos, le));
    let next = le + 1;
    if line.len() == 0 {
    } else if seq_starts_with(line, cl_prefix()) {
        match parse_usize_spec(trim_spec(cl_value_seg(line))) {
            Some(n) => {
                lemma_headers_decided_stable(input, more, next, Some(n));
            }
            None => {}
        }
    } else {
        lemma_headers_decided_stable(input, more, next, cl);
    }
}

/// A streaming reader is sound: once the buffered bytes decide the
/// frame at `pos`, reading it from any extension of the buffer gives
/// the same outcome — the same body and end position, or the same
/// error.
pub proof fn lemma_decided_frame_stable(input: Seq<u8>, more: Seq<u8>, pos: int)
    requires
        0 <= pos <= input.len(),
        frame_decided(input, pos),
    ensures
        frame_spec(input + more, pos) == frame_spec(input, pos),
{
    lemma_headers_decided_stable(input, more, pos, None);
    match parse_headers(input, pos, None) {
        Ok((bpos, cl)) => {
            match cl {
                Some(n) => {
                    assert((input + more).subrange(bpos, bpos + n) =~= input.subrange(
                        bpos,
                        bpos + n,
                    ));
                }
                None => {}
            }
        }
        Err(_) => {}
    }
}

/// Header parsing never moves backwards, and at the end of the input
/// it consumes nothing and keeps the value it has.
pub proof fn lemma_parse_headers_bounds(input: Seq<u8>, pos: int, cl: Option<usize>)
    requires
        0 <= pos <= input.len(),
    ensures
        match parse_headers(input, pos, cl) {
            Ok((bpos, cl2)) => pos <= bpos <= input.len() && (pos < input.len() ==> pos < bpos)
                && (pos >= input.len() ==> cl2 == cl),
            Err(_) => true,
        },
    decreases input.len() - pos,
{
    if pos < input.len() {
        lemma_first_byte(input.skip(pos), 10u8);
        let le = line_end(input, pos);
        assert(pos <= le <= input.len());
        let next = if le < input.len() {
            le + 1
        } else {
            le
        };
        let line = trim_spec(input.subrange(pos, le));
        if line.len() == 0 {
        } else if seq_starts_with(line, cl_prefix()) {
            match parse_usize_spec(trim_spec(cl_value_seg(line))) {
                Some(n) => {
                    lemma_parse_headers_bounds(input, next, Some(n));
                }
                None => {}
            }
        } else {
            lemma_parse_headers_bounds(input, next, cl);
        }
    }
}

/// A successfully read frame ends strictly after the position it
/// started at.
pub proof fn lemma_frame_spec_advances(input: Seq<u8>, pos: int)
    requires
        0 <= pos <= input.len(),
    ensures
        match frame_spec(input, pos) {
            Ok((body, next)) => pos < next <= input.len(),
            Err(_) => true,
        },
{
    lemma_parse_headers_bounds(input, pos, None);
}

/// Reads one frame from `input` starting at `pos`: header lines up to
/// a blank line, then exactly `Content-Length` bytes of body.
pub fn read_frame(input: &Vec<u8>, pos: usize) -> (r: Result<(Vec<u8>, usize), TransportError>)
    requires
        pos <= input@.len(),
    ensures
        match (r, frame_spec(input@, pos as int)) {
            (Ok((body, next)), Ok((sbody, snext))) => body@ == sbody && next == snext,
            (Err(e), Err(se)) => e == se,
            _ => false,
        },
{
    let (bpos, cl) = match scan_headers(input, pos) {
        Err(e) => {
            return Err(e);
        }
        Ok(p) => p,
    };
    match cl {
        None => Err(TransportError::MissingLength),
        Some(n) => {
            if n <= input.len() - bpos {
                let body = subvec(input, bpos, bpos + n);
                Ok((body, bpos + n))
            } else {
                Err(TransportError::TruncatedBody)
            }
        }
    }
}

} // verus!
