//! Stable on-disk naming of chunks: filesystem-safe names, per-chunk
//! file names, the per-file manifest text, and the extension filter
//! for source discovery.
//!
//! Everything here is a pure function of its inputs, so repeated runs
//! over the same chunks produce the same names and the same manifest.

use vstd::prelude::*;

use crate::chunking::{chunk_views, ChunkModel, CodeChunk};
use crate::text::{chars_to_string, dec_chars, fmt_u64, push_char, str_to_chars, subvec};

verus! {

/// A name made filesystem-safe: structural separators and angle
/// brackets are replaced with spelled-out substitutes.
pub open spec fn sanitize_spec(s: Seq<char>) -> Seq<char>
    decreases s.len(),
{
    if s.len() == 0 {
        Seq::empty()
    } else if s.len() >= 2 && s[0] == ':' && s[1] == ':' {
        "_doublecolon_"@ + sanitize_spec(s.skip(2))
    } else if s[0] == '<' {
        "_less_"@ + sanitize_spec(s.skip(1))
    } else if s[0] == '>' {
        "_greater_"@ + sanitize_spec(s.skip(1))
    } else if s[0] == '/' {
        "_slash_"@ + sanitize_spec(s.skip(1))
    } else {
        seq![s[0]] + sanitize_spec(s.skip(1))
    }
}

/// The UTF-8 byte length names are truncated to after sanitization.
pub const SANITIZED_NAME_LIMIT: usize = 200;

/// The number of bytes the UTF-8 encoding of `c` takes.
pub open spec fn utf8_len(c: char) -> int {
    if (c as u32) < 0x80 {
        1
    } else if (c as u32) < 0x800 {
        2
    } else if (c as u32) < 0x10000 {
        3
    } else {
        4
    }
}

/// The longest prefix of `s` whose UTF-8 encoding fits in `limit`
/// bytes: truncation never splits a character.
pub open spec fn take_within(s: Seq<char>, limit: int) -> Seq<char>
    decreases s.len(),
{
    if s.len() == 0 {
        s
    } else if utf8_len(s[0]) > limit {
        Seq::empty()
    } else {
        seq![s[0]] + take_within(s.drop_first(), limit - utf8_len(s[0]))
    }
}

/// A sanitized name, truncated at the largest character boundary
/// whose encoding does not exceed the byte limit.
pub open spec fn sanitize_name_spec(s: Seq<char>) -> Seq<char> {
    take_within(sanitize_spec(s), SANITIZED_NAME_LIMIT as int)
}

/// The number of bytes the UTF-8 encoding of `c` takes.
fn char_utf8_len(c: char) -> (r: usize)
    ensures
        r == utf8_len(c),
        1 <= r <= 4,
{
    let u = c as u32;
    if u < 0x80 {
        1
    } else if u < 0x800 {
        2
    } else if u < 0x10000 {
        3
    } else {
        4
    }
}

/// The longest prefix of `v` whose UTF-8 encoding fits in `limit`
/// bytes.
fn truncate_to_bytes(v: &Vec<char>, limit: usize) -> (r: Vec<char>)
    ensures
        r@ == take_within(v@, limit as int),
{
    let mut out: Vec<char> = Vec::new();
    let mut remaining = limit;
    let mut k: usize = 0;
    let mut stopped = false;
    proof {
        assert(v@.skip(0) =~= v@);
        assert(out@ + take_within(v@, limit as int) =~= take_within(v@, limit as int));
    }
    while k < v.len() && !stopped
        invariant
            k <= v@.len(),
            remaining <= limit,
            !stopped ==> take_within(v@, limit as int) == out@ + take_within(
                v@.skip(k as int),
                remaining as int,
            ),
            stopped ==> take_within(v@, limit as int) == out@,
        decreases v@.len() - k, (if stopped { 0int } else { 1int }),
    {
        let c = v[k];
        let cl = char_utf8_len(c);
        let ghost rest = v@.skip(k as int);
        let ghost out0 = out@;
        if cl > remaining {
            stopped = true;
            proof {
                assert(take_within(rest, remaining as int) =~= Seq::<char>::empty());
                assert(out0 + Seq::<char>::empty() =~= out0);
            }
        } else {
            out.push(c);
            remaining = remaining - cl;
            proof {
                assert(rest.drop_first() =~= v@.skip(k + 1));
                assert(out0 + (seq![rest[0]] + take_within(rest.drop_first(), remaining as int))
                    =~= out@ + take_within(v@.skip(k + 1), remaining as int));
            }
            k = k + 1;
        }
    }
    proof {
        if !stopped {
            assert(v@.skip(k as int) =~= Seq::<char>::empty());
            assert(out@ + take_within(Seq::<char>::empty(), remaining as int) =~= out@);
        }
    }
    out
}

/// Replaces `::`, `<`, `>` and `/` with spelled-out substitutes and
/// truncates the result at the largest character boundary within the
/// byte limit.
pub fn sanitize_name(s: &str) -> (r: String)
    ensures
        r@ == sanitize_name_spec(s@),
{
    let v = str_to_chars(s);
    let mut out = String::new();
    let mut i: usize = 0;
    proof {
        assert(v@.skip(0) =~= v@);
        assert(out@ + sanitize_spec(v@) =~= sanitize_spec(v@));
    }
    while i < v.len()
        invariant
            i <= v@.len(),
            v@ == s@,
            sanitize_spec(s@) == out@ + sanitize_spec(v@.skip(i as int)),
        decreases v@.len() - i,
    {
        let ghost rest = v@.skip(i as int);
        let ghost out0 = out@;
        let c = v[i];
        if c == ':' && i + 1 < v.len() && v[i + 1] == ':' {
            out.append("_doublecolon_");
            proof {
                assert(rest.skip(2) =~= v@.skip(i + 2));
                assert(out0 + ("_doublecolon_"@ + sanitize_spec(rest.skip(2))) =~= out@
                    + sanitize_spec(v@.skip(i + 2)));
            }
            i = i + 2;
        } else {
            if c == '<' {
                out.append("_less_");
            } else if c == '>' {
                out.append("_greater_");
            } else if c == '/' {
                out.append("_slash_");
            } else {
                push_char(&mut out, c);
            }
            proof {
                assert(rest.skip(1) =~= v@.skip(i + 1));
                if c == '<' {
                    assert(out0 + ("_less_"@ + sanitize_spec(rest.skip(1))) =~= out@
                        + sanitize_spec(v@.skip(i + 1)));
                } else if c == '>' {
                    assert(out0 + ("_greater_"@ + sanitize_spec(rest.skip(1))) =~= out@
                        + sanitize_spec(v@.skip(i + 1)));
                } else if c == '/' {
                    assert(out0 + ("_slash_"@ + sanitize_spec(rest.skip(1))) =~= out@
                        + sanitize_spec(v@.skip(i + 1)));
                } else {
                    assert(sanitize_spec(rest) == seq![rest[0]] + sanitize_spec(rest.skip(1)));
                    assert(out0 + (seq![rest[0]] + sanitize_spec(rest.skip(1))) =~= out@
                        + sanitize_spec(v@.skip(i + 1)));
                }
            }
            i = i + 1;
        }
    }
    proof {
        assert(v@.skip(i as int) =~= Seq::<char>::empty());
        assert(out@ + sanitize_spec(Seq::<char>::empty()) =~= out@);
    }
    let chars = str_to_chars(out.as_str());
    let t = truncate_to_bytes(&chars, SANITIZED_NAME_LIMIT);
    chars_to_string(&t)
}

/// A 1-based sequence number rendered as at least three digits, the
/// smaller ones padded with leading zeros.
pub open spec fn pad3(n: nat) -> Seq<char> {
    if n < 10 {
        seq!['0', '0'] + dec_chars(n)
    } else if n < 100 {
        seq!['0'] + dec_chars(n)
    } else {
        dec_chars(n)
    }
}

/// The file name of one chunk: its 1-based zero-padded position, the
/// sanitized qualified name, the kind, the 1-based start line, and
/// the originating source file's extension.
pub open spec fn chunk_filename_spec(
    index: nat,
    name: Seq<char>,
    kind: Seq<char>,
    start_line: nat,
    ext: Seq<char>,
) -> Seq<char> {
    pad3(index + 1) + seq!['_'] + sanitize_name_spec(name) + seq!['_'] + kind + seq!['_']
        + dec_chars(start_line + 1) + seq!['.'] + ext
}

/// Appends the decimal rendering of `n`.
fn push_u64(out: &mut String, n: u64)
    ensures
        final(out)@ == old(out)@ + dec_chars(n as nat),
{
    let d = fmt_u64(n);
    let s = chars_to_string(&d);
    out.append(s.as_str());
}

/// The file name for the chunk at 0-based position `index` of its
/// file's chunk sequence, carrying the source file's extension.
pub fn chunk_filename(index: usize, chunk: &CodeChunk, ext: &str) -> (r: String)
    requires
        index < usize::MAX,
        chunk.start_line < usize::MAX,
    ensures
        r@ == chunk_filename_spec(
            index as nat,
            chunk.name@,
            chunk.kind@,
            chunk.start_line as nat,
            ext@,
        ),
{
    let mut out = String::new();
    let seq_no = index + 1;
    if seq_no < 10 {
        out.append("00");
    } else if seq_no < 100 {
        out.append("0");
    }
    push_u64(&mut out, seq_no as u64);
    push_char(&mut out, '_');
    let sanitized = sanitize_name(chunk.name.as_str());
    out.append(sanitized.as_str());
    push_char(&mut out, '_');
    out.append(chunk.kind.as_str());
    push_char(&mut out, '_');
    push_u64(&mut out, (chunk.start_line + 1) as u64);
    push_char(&mut out, '.');
    out.append(ext);
    proof {
        reveal_strlit("00");
        reveal_strlit("0");
        assert("00"@ =~= seq!['0', '0']);
        assert("0"@ =~= seq!['0']);
        assert(out@ =~= chunk_filename_spec(
            index as nat,
            chunk.name@,
            chunk.kind@,
            chunk.start_line as nat,
            ext@,
        ));
    }
    out
}

/// The opening lines of a per-file manifest: the source path, the
/// chunk count, and the record delimiter.
pub open spec fn manifest_header(source: Seq<char>, count: nat) -> Seq<char> {
    "Source file: "@ + source + seq!['\n'] + "Number of chunks: "@ + dec_chars(count) + seq![
        '\n',
    ] + "---"@ + seq!['\n']
}

/// One chunk's manifest record: its file name, qualified name, kind,
/// 1-based inclusive line range, parent if present, and the
/// delimiter.
pub open spec fn manifest_entry(c: ChunkModel, index: nat, ext: Seq<char>) -> Seq<char> {
    "Chunk: "@ + chunk_filename_spec(index, c.name, c.kind, c.start_line as nat, ext) + seq!['\n']
        + "  Name: "@ + c.name + seq!['\n'] + "  Kind: "@ + c.kind + seq!['\n'] + "  Lines: "@
        + dec_chars((c.start_line + 1) as nat) + seq!['-'] + dec_chars((c.end_line + 1) as nat)
        + seq!['\n'] + (match c.parent {
        Some(p) => "  Parent: "@ + p + seq!['\n'],
        None => Seq::<char>::empty(),
    }) + "---"@ + seq!['\n']
}

/// The records of the chunks from `from` on, in order.
pub open spec fn manifest_entries(chunks: Seq<ChunkModel>, from: int, ext: Seq<char>) -> Seq<char>
    decreases chunks.len() - from,
    when 0 <= from <= chunks.len()
{
    if from >= chunks.len() {
        Seq::empty()
    } else {
        manifest_entry(chunks[from], from as nat, ext) + manifest_entries(chunks, from + 1, ext)
    }
}

/// The whole manifest for one source file.
pub open spec fn manifest_spec(source: Seq<char>, chunks: Seq<ChunkModel>, ext: Seq<char>) -> Seq<
    char,
> {
    manifest_header(source, chunks.len()) + manifest_entries(chunks, 0, ext)
}

/// Builds the text of the `_index.txt` manifest for one source file's
/// chunks.
#[verifier::rlimit(50)]
pub fn manifest_text(source_path: &str, chunks: &Vec<CodeChunk>, ext: &str) -> (r: String)
    requires
        chunks@.len() < usize::MAX,
        forall|i: int|
            0 <= i < chunks@.len() ==> (#[trigger] chunks@[i]).start_line < chunks@[i].end_line
                < usize::MAX,
    ensures
        r@ == manifest_spec(source_path@, chunk_views(chunks@), ext@),
{
    let ghost cv = chunk_views(chunks@);
    let mut out = String::new();
    out.append("Source file: ");
    out.append(source_path);
    push_char(&mut out, '\n');
    out.append("Number of chunks: ");
    push_u64(&mut out, chunks.len() as u64);
    push_char(&mut out, '\n');
    out.append("---");
    push_char(&mut out, '\n');
    proof {
        assert(out@ =~= manifest_header(source_path@, cv.len()));
    }
    let mut i: usize = 0;
    while i < chunks.len()
        invariant
            i <= chunks@.len(),
            cv == chunk_views(chunks@),
            chunks@.len() < usize::MAX,
            forall|k: int|
                0 <= k < chunks@.len() ==> (#[trigger] chunks@[k]).start_line
                    < chunks@[k].end_line < usize::MAX,
            manifest_spec(source_path@, cv, ext@) == out@ + manifest_entries(cv, i as int, ext@),
        decreases chunks@.len() - i,
    {
        let ghost out0 = out@;
        let chunk = &chunks[i];
        out.append("Chunk: ");
        let filename = chunk_filename(i, chunk, ext);
        out.append(filename.as_str());
        push_char(&mut out, '\n');
        out.append("  Name: ");
        out.append(chunk.name.as_str());
        push_char(&mut out, '\n');
        out.append("  Kind: ");
        out.append(chunk.kind.as_str());
        push_char(&mut out, '\n');
        out.append("  Lines: ");
        push_u64(&mut out, (chunk.start_line + 1) as u64);
        push_char(&mut out, '-');
        push_u64(&mut out, (chunk.end_line + 1) as u64);
        push_char(&mut out, '\n');
        match &chunk.parent {
            Some(p) => {
                out.append("  Parent: ");
                out.append(p.as_str());
                push_char(&mut out, '\n');
            }
            None => {}
        }
        out.append("---");
        push_char(&mut out, '\n');
        proof {
            assert(cv[i as int] == chunks@[i as int]@);
            assert(out@ =~= out0 + manifest_entry(cv[i as int], i as nat, ext@));
            assert(out0 + (manifest_entry(cv[i as int], i as nat, ext@) + manifest_entries(
                cv,
                i + 1,
                ext@,
            )) =~= out@ + manifest_entries(cv, i + 1, ext@));
        }
        i = i + 1;
    }
    proof {
        assert(out@ + manifest_entries(cv, i as int, ext@) =~= out@);
    }
    out
}

} // verus!
