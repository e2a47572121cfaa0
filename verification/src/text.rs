//! Character- and byte-level text utilities shared by the transport,
//! the extractor and the persistence layer: decimal rendering of
//! numbers, decimal parsing, and helpers for building strings.

use vstd::prelude::*;

verus! {

/// The character for a single decimal digit.
pub open spec fn digit_char(d: nat) -> char {
    if d == 0 {
        '0'
    } else if d == 1 {
        '1'
    } else if d == 2 {
        '2'
    } else if d == 3 {
        '3'
    } else if d == 4 {
        '4'
    } else if d == 5 {
        '5'
    } else if d == 6 {
        '6'
    } else if d == 7 {
        '7'
    } else if d == 8 {
        '8'
    } else {
        '9'
    }
}

/// The usual decimal rendering of `n`, most significant digit first,
/// with no leading zeros (except for `n == 0` itself).
pub open spec fn dec_chars(n: nat) -> Seq<char>
    decreases n,
{
    if n < 10 {
        seq![digit_char(n)]
    } else {
        dec_chars(n / 10).push(digit_char(n % 10))
    }
}

/// The ASCII byte for a single decimal digit.
pub open spec fn digit_byte(d: nat) -> u8 {
    (48 + d % 10) as u8
}

/// The decimal rendering of `n` as ASCII bytes.
pub open spec fn dec_bytes(n: nat) -> Seq<u8>
    decreases n,
{
    if n < 10 {
        seq![digit_byte(n)]
    } else {
        dec_bytes(n / 10).push(digit_byte(n % 10))
    }
}

/// Renders `n` in decimal as characters.
pub fn fmt_u64(n: u64) -> (r: Vec<char>)
    ensures
        r@ == dec_chars(n as nat),
    decreases n,
{
    let d: u64 = n % 10;
    let c: char = match d {
        0 => '0',
        1 => '1',
        2 => '2',
        3 => '3',
        4 => '4',
        5 => '5',
        6 => '6',
        7 => '7',
        8 => '8',
        _ => '9',
    };
    if n < 10 {
        let mut r: Vec<char> = Vec::new();
        r.push(c);
        assert(r@ =~= seq![digit_char(n as nat)]);
        r
    } else {
        let mut r = fmt_u64(n / 10);
        r.push(c);
        assert(r@ =~= dec_chars((n / 10) as nat).push(digit_char((n % 10) as nat)));
        r
    }
}

/// Renders `n` in decimal as ASCII bytes.
pub fn fmt_u64_bytes(n: u64) -> (r: Vec<u8>)
    ensures
        r@ == dec_bytes(n as nat),
    decreases n,
{
    let d: u8 = (n % 10) as u8;
    let b: u8 = 48 + d;
    if n < 10 {
        let mut r: Vec<u8> = Vec::new();
        r.push(b);
        assert(r@ =~= seq![digit_byte(n as nat)]);
        r
    } else {
        let mut r = fmt_u64_bytes(n / 10);
        r.push(b);
        assert(r@ =~= dec_bytes((n / 10) as nat).push(digit_byte((n % 10) as nat)));
        r
    }
}

/// Whether `b` is an ASCII decimal digit.
pub open spec fn is_digit(b: u8) -> bool {
    48 <= b <= 57
}

/// Whether every byte of `s` is an ASCII decimal digit.
pub open spec fn all_digits(s: Seq<u8>) -> bool {
    forall|i: int| 0 <= i < s.len() ==> is_digit(s[i])
}

/// The number denoted by a sequence of ASCII digits, most significant
/// digit first.
pub open spec fn digits_val(s: Seq<u8>) -> nat
    decreases s.len(),
{
    if s.len() == 0 {
        0
    } else {
        digits_val(s.drop_last()) * 10 + (s.last() - 48) as nat
    }
}

/// The decimal rendering of `n` is one or more ASCII digits, and
/// denotes `n`.
pub proof fn lemma_dec_bytes_val(n: nat)
    ensures
        dec_bytes(n).len() >= 1,
        all_digits(dec_bytes(n)),
        digits_val(dec_bytes(n)) == n,
    decreases n,
{
    if n < 10 {
        let s = dec_bytes(n);
        assert(s =~= seq![digit_byte(n)]);
        assert(s.drop_last() =~= Seq::<u8>::empty());
        assert(digits_val(Seq::<u8>::empty()) == 0);
    } else {
        lemma_dec_bytes_val(n / 10);
        let s = dec_bytes(n / 10);
        let d = digit_byte(n % 10);
        assert(s.push(d).drop_last() =~= s);
        assert(s.push(d).last() == d);
        assert forall|i: int| 0 <= i < s.push(d).len() implies is_digit(s.push(d)[i]) by {
            if i < s.len() {
                assert(s.push(d)[i] == s[i]);
            }
        }
        assert(digits_val(s.push(d)) == digits_val(s) * 10 + (d - 48) as nat);
    }
}

/// The number denoted by `s` under the grammar that `usize::from_str`
/// accepts for non-negative input: an optional leading `+`, then one
/// or more ASCII digits, denoting a value that fits in `usize`.
pub open spec fn parse_usize_spec(s: Seq<u8>) -> Option<usize> {
    let t = if s.len() > 0 && s[0] == 43 {
        s.drop_first()
    } else {
        s
    };
    if t.len() > 0 && all_digits(t) && digits_val(t) <= usize::MAX {
        Some(digits_val(t) as usize)
    } else {
        None
    }
}

/// Parsing the decimal rendering of `n` gives back `n`.
pub proof fn lemma_parse_dec(n: nat)
    requires
        n <= usize::MAX,
    ensures
        parse_usize_spec(dec_bytes(n)) == Some(n as usize),
{
    lemma_dec_bytes_val(n);
    let s = dec_bytes(n);
    assert(is_digit(s[0]));
    assert(s[0] != 43);
}

proof fn lemma_digits_val_step(t: Seq<u8>, j: int)
    requires
        0 <= j < t.len(),
    ensures
        digits_val(t.take(j + 1)) == digits_val(t.take(j)) * 10 + (t[j] - 48) as nat,
{
    assert(t.take(j + 1).drop_last() =~= t.take(j));
    assert(t.take(j + 1).last() == t[j]);
}

/// Parses `s` as a decimal `usize`, accepting an optional leading `+`.
pub fn parse_usize_bytes(s: &Vec<u8>) -> (r: Option<usize>)
    ensures
        r == parse_usize_spec(s@),
{
    let ghost t: Seq<u8> = if s@.len() > 0 && s@[0] == 43 {
        s@.drop_first()
    } else {
        s@
    };
    let offset: usize = if s.len() > 0 && s[0] == 43 {
        1
    } else {
        0
    };
    if s.len() == offset {
        return None;
    }
    let mut i: usize = offset;
    let mut val: usize = 0;
    let mut too_big = false;
    while i < s.len()
        invariant
            offset <= 1,
            offset <= i <= s@.len(),
            offset == 1 ==> s@.len() > 0 && s@[0] == 43,
            offset == 0 ==> !(s@.len() > 0 && s@[0] == 43),
            offset == 0 ==> t == s@,
            offset == 1 ==> t == s@.drop_first(),
            t.len() == s@.len() - offset,
            forall|k: int| 0 <= k < t.len() ==> t[k] == s@[k + offset],
            all_digits(t.take(i - offset)),
            !too_big ==> val == digits_val(t.take(i - offset)),
            too_big ==> digits_val(t.take(i - offset)) > usize::MAX,
        decreases s@.len() - i,
    {
        let b = s[i];
        if !(48 <= b && b <= 57) {
            proof {
                let j = i - offset;
                assert(!is_digit(t[j]));
                assert(!all_digits(t));
            }
            return None;
        }
        let d: usize = (b - 48) as usize;
        proof {
            lemma_digits_val_step(t, i - offset);
        }
        if too_big {
            proof {
                let j = i - offset;
                assert(digits_val(t.take(j + 1)) == digits_val(t.take(j)) * 10 + (t[j] - 48) as nat);
                assert(digits_val(t.take(j)) * 10 >= digits_val(t.take(j)));
            }
        } else {
            match val.checked_mul(10) {
                None => {
                    too_big = true;
                }
                Some(v10) => {
                    match v10.checked_add(d) {
                        None => {
                            too_big = true;
                        }
                        Some(v) => {
                            val = v;
                        }
                    }
                }
            }
        }
        assert(t.take(i + 1 - offset).drop_last() =~= t.take(i - offset));
        i = i + 1;
    }
    assert(t.take(i - offset) =~= t);
    if too_big {
        None
    } else {
        Some(val)
    }
}

/// Relies on `String::push`: appends exactly the given character.
#[verifier::external_body]
pub(crate) fn push_char(s: &mut String, c: char)
    ensures
        final(s)@ == old(s)@.push(c),
{
    s.push(c);
}

/// Builds the string holding exactly the given characters.
pub fn chars_to_string(v: &Vec<char>) -> (r: String)
    ensures
        r@ == v@,
{
    let mut s = String::new();
    let mut i: usize = 0;
    while i < v.len()
        invariant
            i <= v@.len(),
            s@ == v@.take(i as int),
        decreases v@.len() - i,
    {
        push_char(&mut s, v[i]);
        assert(v@.take(i as int).push(v@[i as int]) =~= v@.take(i + 1));
        i = i + 1;
    }
    assert(v@.take(i as int) =~= v@);
    s
}

/// The characters of `s`, in order.
pub fn str_to_chars(s: &str) -> (r: Vec<char>)
    ensures
        r@ == s@,
{
    let n = s.unicode_len();
    let mut r: Vec<char> = Vec::new();
    let mut i: usize = 0;
    while i < n
        invariant
            n == s@.len(),
            i <= n,
            r@ == s@.take(i as int),
        decreases n - i,
    {
        r.push(s.get_char(i));
        assert(s@.take(i as int).push(s@[i as int]) =~= s@.take(i + 1));
        i = i + 1;
    }
    assert(s@.take(i as int) =~= s@);
    r
}

/// The index of the first newline character in `s`, if any.
pub open spec fn first_nl(s: Seq<char>) -> Option<int>
    decreases s.len(),
{
    if s.len() == 0 {
        None
    } else if s[0] == '\n' {
        Some(0int)
    } else {
        match first_nl(s.drop_first()) {
            None => None,
            Some(i) => Some(i + 1),
        }
    }
}

pub proof fn lemma_first_nl(s: Seq<char>)
    ensures
        match first_nl(s) {
            Some(i) => 0 <= i < s.len() && s[i] == '\n' && forall|k: int|
                0 <= k < i ==> s[k] != '\n',
            None => forall|k: int| 0 <= k < s.len() ==> s[k] != '\n',
        },
    decreases s.len(),
{
    if s.len() > 0 && s[0] != '\n' {
        let t = s.drop_first();
        lemma_first_nl(t);
        match first_nl(s) {
            None => {
                assert forall|k: int| 0 <= k < s.len() implies s[k] != '\n' by {
                    if k > 0 {
                        assert(t[k - 1] == s[k]);
                    }
                }
            }
            Some(i) => {
                assert(first_nl(t) == Some(i - 1));
                assert(t[i - 1] == s[i]);
                assert forall|k: int| 0 <= k < i implies s[k] != '\n' by {
                    if k > 0 {
                        assert(t[k - 1] == s[k]);
                    }
                }
            }
        }
    }
}

/// A line with a trailing carriage return stripped.
pub open spec fn drop_cr(s: Seq<char>) -> Seq<char> {
    if s.len() > 0 && s.last() == '\r' {
        s.drop_last()
    } else {
        s
    }
}

/// The lines of `s`, split at `\n` or `\r\n`, the final line ending
/// optional, matching `str::lines`.
pub open spec fn split_lines_spec(s: Seq<char>) -> Seq<Seq<char>>
    decreases s.len(),
    via split_lines_spec_decreases
{
    if s.len() == 0 {
        Seq::empty()
    } else {
        match first_nl(s) {
            None => seq![s],
            Some(i) => seq![drop_cr(s.take(i))] + split_lines_spec(s.skip(i + 1)),
        }
    }
}

#[via_fn]
proof fn split_lines_spec_decreases(s: Seq<char>) {
    lemma_first_nl(s);
}

/// The views of a sequence of owned strings.
pub open spec fn line_views(v: Seq<String>) -> Seq<Seq<char>> {
    Seq::new(v.len(), |i: int| v[i]@)
}

proof fn lemma_split_at_nl(p: Seq<char>, rest: Seq<char>)
    requires
        forall|k: int| 0 <= k < p.len() ==> p[k] != '\n',
    ensures
        split_lines_spec(p + seq!['\n'] + rest) == seq![drop_cr(p)] + split_lines_spec(rest),
{
    let w = p + seq!['\n'] + rest;
    lemma_first_nl(w);
    assert(w[p.len() as int] == '\n');
    match first_nl(w) {
        None => {
            assert(false);
        }
        Some(i) => {
            assert(w[i] == '\n');
            if i < p.len() {
                assert(w[i] == p[i]);
                assert(false);
            }
            if i > p.len() {
                assert(false);
            }
            assert(i == p.len());
            assert(w.take(i) =~= p);
            assert(w.skip(i + 1) =~= rest);
        }
    }
}

/// Splits `s` into its lines, as `str::lines` does: lines end at `\n`,
/// a `\r` immediately before the `\n` is stripped, and the final line
/// ending is optional.
pub fn split_lines(s: &str) -> (r: Vec<String>)
    ensures
        line_views(r@) == split_lines_spec(s@),
{
    let chars = str_to_chars(s);
    let n = chars.len();
    let mut result: Vec<String> = Vec::new();
    let mut cur: Vec<char> = Vec::new();
    let mut i: usize = 0;
    proof {
        assert(cur@ + s@.skip(0) =~= s@);
        assert(line_views(result@) + split_lines_spec(s@) =~= split_lines_spec(s@));
    }
    while i < n
        invariant
            n == chars@.len(),
            chars@ == s@,
            i <= n,
            forall|k: int| 0 <= k < cur@.len() ==> cur@[k] != '\n',
            split_lines_spec(s@) == line_views(result@) + split_lines_spec(
                cur@ + s@.skip(i as int),
            ),
        decreases n - i,
    {
        let ghost rest = s@.skip(i + 1);
        let c = chars[i];
        if c == '\n' {
            let mut line = cur;
            cur = Vec::new();
            let ghost line0 = line@;
            if line.len() > 0 && line[line.len() - 1] == '\r' {
                line.pop();
            }
            assert(line@ == drop_cr(line0));
            let text = chars_to_string(&line);
            let ghost r0 = result@;
            result.push(text);
            proof {
                assert(line0 + s@.skip(i as int) =~= line0 + seq!['\n'] + rest);
                lemma_split_at_nl(line0, rest);
                assert(cur@ + rest =~= rest);
                assert(line_views(result@) =~= line_views(r0).push(drop_cr(line0)));
                assert(line_views(r0).push(drop_cr(line0)) + split_lines_spec(rest) =~= line_views(
                    r0,
                ) + (seq![drop_cr(line0)] + split_lines_spec(rest)));
            }
        } else {
            let ghost cur0 = cur@;
            cur.push(c);
            proof {
                assert(cur0 + s@.skip(i as int) =~= cur@ + rest);
            }
        }
        i = i + 1;
    }
    proof {
        assert(cur@ + s@.skip(i as int) =~= cur@);
    }
    if cur.len() > 0 {
        proof {
            lemma_first_nl(cur@);
            if first_nl(cur@) is Some {
                let j = first_nl(cur@)->Some_0;
                assert(cur@[j] != '\n');
                assert(false);
            }
            assert(split_lines_spec(cur@) == seq![cur@]);
        }
        let text = chars_to_string(&cur);
        let ghost r0 = result@;
        result.push(text);
        proof {
            assert(line_views(result@) =~= line_views(r0).push(cur@));
            assert(line_views(r0) + seq![cur@] =~= line_views(r0).push(cur@));
        }
    } else {
        proof {
            assert(split_lines_spec(cur@) =~= Seq::<Seq<char>>::empty());
            assert(line_views(result@) + Seq::<Seq<char>>::empty() =~= line_views(result@));
        }
    }
    result
}

/// The text of lines `start` through `end`, inclusive, joined with
/// single newlines.
pub open spec fn join_lines(lines: Seq<Seq<char>>, start: int, end: int) -> Seq<char>
    recommends
        0 <= start <= end < lines.len(),
    decreases end - start,
{
    if end <= start {
        lines[start]
    } else {
        join_lines(lines, start, end - 1) + seq!['\n'] + lines[end]
    }
}

/// Joins lines `start` through `end`, inclusive, with newlines.
pub fn join_range(lines: &Vec<String>, start: usize, end: usize) -> (r: String)
    requires
        start <= end < lines@.len(),
    ensures
        r@ == join_lines(line_views(lines@), start as int, end as int),
{
    let mut content = lines[start].clone();
    let mut k = start;
    while k < end
        invariant
            start <= k <= end < lines@.len(),
            content@ == join_lines(line_views(lines@), start as int, k as int),
        decreases end - k,
    {
        push_char(&mut content, '\n');
        content.append(lines[k + 1].as_str());
        proof {
            assert(content@ =~= join_lines(line_views(lines@), start as int, k as int) + seq![
                '\n',
            ] + line_views(lines@)[k + 1]);
        }
        k = k + 1;
    }
    content
}

/// Whether two strings hold the same characters.
pub fn str_eq(a: &str, b: &str) -> (r: bool)
    ensures
        r == (a@ == b@),
{
    let na = a.unicode_len();
    let nb = b.unicode_len();
    if na != nb {
        proof {
            assert(a@ != b@);
        }
        return false;
    }
    let mut i: usize = 0;
    while i < na
        invariant
            na == a@.len() == b@.len(),
            i <= na,
            forall|k: int| 0 <= k < i ==> a@[k] == b@[k],
        decreases na - i,
    {
        if a.get_char(i) != b.get_char(i) {
            proof {
                assert(a@[i as int] != b@[i as int]);
            }
            return false;
        }
        i = i + 1;
    }
    proof {
        assert(a@ =~= b@);
    }
    true
}

/// The bytes of `v` from `from` (inclusive) to `to` (exclusive).
pub fn subvec<T: Copy>(v: &Vec<T>, from: usize, to: usize) -> (r: Vec<T>)
    requires
        from <= to <= v@.len(),
    ensures
        r@ == v@.subrange(from as int, to as int),
{
    let mut r: Vec<T> = Vec::new();
    let mut i: usize = from;
    while i < to
        invariant
            from <= i <= to <= v@.len(),
            r@ == v@.subrange(from as int, i as int),
        decreases to - i,
    {
        r.push(v[i]);
        assert(v@.subrange(from as int, i as int).push(v@[i as int]) =~= v@.subrange(
            from as int,
            i + 1,
        ));
        i = i + 1;
    }
    r
}

} // verus!
