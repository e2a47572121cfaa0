//! Flattening of hierarchical symbol trees into ordered chunk lists.
//!
//! A symbol tree, as returned by the external analysis process, is
//! turned into a flat, pre-order sequence of named, line-bounded
//! chunks.  Symbols of unrecognized kinds are skipped together with
//! their whole subtree, and symbols whose line range is empty or runs
//! past the end of the file are skipped the same way.

use vstd::prelude::*;

use crate::text::{join_lines, join_range, line_views, split_lines, split_lines_spec};

verus! {

pub const SYMBOL_KIND_NAMESPACE: u8 = 3;

pub const SYMBOL_KIND_CLASS: u8 = 5;

pub const SYMBOL_KIND_METHOD: u8 = 6;

pub const SYMBOL_KIND_FUNCTION: u8 = 12;

/// A position in a document: 0-based line and column.  The column is
/// carried through but never read by the extractor.
#[derive(Debug)]
pub struct Position {
    pub line: usize,
    pub character: usize,
}

/// A line range, start and end inclusive.
#[derive(Debug)]
pub struct Range {
    pub start: Position,
    pub end: Position,
}

/// One node of the symbol outline of a document: a name, a kind code,
/// a line range and the symbols nested inside it.
#[derive(Debug)]
pub struct Symbol {
    pub name: String,
    pub kind: u8,
    pub range: Range,
    pub children: Vec<Symbol>,
}

/// A code chunk extracted from a source file.
#[derive(Debug)]
pub struct CodeChunk {
    pub name: String,
    pub content: String,
    pub start_line: usize,
    pub end_line: usize,
    pub kind: String,
    pub parent: Option<String>,
}

/// The mathematical model of a chunk.
pub struct ChunkModel {
    pub name: Seq<char>,
    pub content: Seq<char>,
    pub start_line: int,
    pub end_line: int,
    pub kind: Seq<char>,
    pub parent: Option<Seq<char>>,
}

impl View for CodeChunk {
    type V = ChunkModel;

    open spec fn view(&self) -> ChunkModel {
        ChunkModel {
            name: self.name@,
            content: self.content@,
            start_line: self.start_line as int,
            end_line: self.end_line as int,
            kind: self.kind@,
            parent: match self.parent {
                Some(p) => Some(p@),
                None => None,
            },
        }
    }
}

/// The models of a sequence of chunks.
pub open spec fn chunk_views(chunks: Seq<CodeChunk>) -> Seq<ChunkModel> {
    Seq::new(chunks.len(), |i: int| chunks[i]@)
}

/// The chunk-kind label for a symbol-kind code, or `None` for a code
/// that is not chunk-worthy.
pub open spec fn kind_label(kind: u8) -> Option<Seq<char>> {
    if kind == SYMBOL_KIND_FUNCTION {
        Some("function"@)
    } else if kind == SYMBOL_KIND_METHOD {
        Some("method"@)
    } else if kind == SYMBOL_KIND_CLASS {
        Some("class"@)
    } else if kind == SYMBOL_KIND_NAMESPACE {
        Some("namespace"@)
    } else {
        None
    }
}

/// The chunk-kind label, as a string.
pub fn kind_name(kind: u8) -> (r: Option<&'static str>)
    ensures
        match r {
            Some(s) => kind_label(kind) == Some(s@),
            None => kind_label(kind) is None,
        },
{
    if kind == SYMBOL_KIND_FUNCTION {
        Some("function")
    } else if kind == SYMBOL_KIND_METHOD {
        Some("method")
    } else if kind == SYMBOL_KIND_CLASS {
        Some("class")
    } else if kind == SYMBOL_KIND_NAMESPACE {
        Some("namespace")
    } else {
        None
    }
}

/// A name qualified by the `::`-joined chain of its enclosing chunks.
pub open spec fn qualified_name(parent: Option<Seq<char>>, name: Seq<char>) -> Seq<char> {
    match parent {
        Some(p) => p + "::"@ + name,
        None => name,
    }
}

/// Whether a symbol's line range satisfies the chunk invariants for a
/// file of `line_count` lines: a non-empty range that stays inside the
/// file.
pub open spec fn range_ok(sym: Symbol, line_count: nat) -> bool {
    sym.range.start.line < sym.range.end.line && sym.range.end.line < line_count
}

/// The chunk emitted for a recognized, in-range symbol.
pub open spec fn chunk_for(sym: Symbol, lines: Seq<Seq<char>>, parent: Option<Seq<char>>) -> ChunkModel {
    ChunkModel {
        name: qualified_name(parent, sym.name@),
        content: join_lines(lines, sym.range.start.line as int, sym.range.end.line as int),
        start_line: sym.range.start.line as int,
        end_line: sym.range.end.line as int,
        kind: kind_label(sym.kind)->Some_0,
        parent,
    }
}

/// The chunks of one symbol and its subtree, in pre-order: the
/// symbol's own chunk, then its children's, left to right.  A symbol
/// of unrecognized kind or with an invalid range contributes nothing,
/// and its children are not visited.
pub open spec fn flatten_symbol(
    sym: Symbol,
    lines: Seq<Seq<char>>,
    parent: Option<Seq<char>>,
) -> Seq<ChunkModel>
    decreases sym,
{
    if kind_label(sym.kind) is None {
        Seq::empty()
    } else if !range_ok(sym, lines.len()) {
        Seq::empty()
    } else {
        seq![chunk_for(sym, lines, parent)] + flatten_symbols(
            sym.children@,
            lines,
            Some(qualified_name(parent, sym.name@)),
        )
    }
}

/// The chunks of a sequence of sibling symbols, in document order.
pub open spec fn flatten_symbols(
    syms: Seq<Symbol>,
    lines: Seq<Seq<char>>,
    parent: Option<Seq<char>>,
) -> Seq<ChunkModel>
    decreases syms,
{
    if syms.len() == 0 {
        Seq::empty()
    } else {
        flatten_symbol(syms[0], lines, parent) + flatten_symbols(syms.drop_first(), lines, parent)
    }
}

/// The view of an optional borrowed name.
pub open spec fn opt_view(p: Option<&String>) -> Option<Seq<char>> {
    match p {
        Some(s) => Some(s@),
        None => None,
    }
}

fn flatten_one(sym: &Symbol, lines: &Vec<String>, parent: Option<&String>, out: &mut Vec<CodeChunk>)
    ensures
        chunk_views(final(out)@) == chunk_views(old(out)@) + flatten_symbol(
            *sym,
            line_views(lines@),
            opt_view(parent),
        ),
    decreases *sym, 0int,
{
    let kind_str = match kind_name(sym.kind) {
        None => {
            proof {
                assert(chunk_views(out@) + Seq::<ChunkModel>::empty() =~= chunk_views(out@));
            }
            return ;
        }
        Some(k) => k,
    };
    let start = sym.range.start.line;
    let end = sym.range.end.line;
    if start >= end || end >= lines.len() {
        proof {
            assert(chunk_views(out@) + Seq::<ChunkModel>::empty() =~= chunk_views(out@));
        }
        return ;
    }
    let qualified: String = match parent {
        Some(p) => {
            let mut q = p.clone();
            q.append("::");
            q.append(sym.name.as_str());
            proof {
                assert(q@ =~= qualified_name(opt_view(parent), sym.name@));
            }
            q
        }
        None => sym.name.clone(),
    };
    let content = join_range(lines, start, end);
    let chunk = CodeChunk {
        name: qualified.clone(),
        content,
        start_line: start,
        end_line: end,
        kind: kind_str.to_owned(),
        parent: match parent {
            Some(p) => Some(p.clone()),
            None => None,
        },
    };
    let ghost out0 = out@;
    out.push(chunk);
    proof {
        assert(chunk_views(out@) =~= chunk_views(out0).push(
            chunk_for(*sym, line_views(lines@), opt_view(parent)),
        ));
    }
    flatten_from(&sym.children, 0, lines, Some(&qualified), out);
    proof {
        let lv = line_views(lines@);
        let pv = opt_view(parent);
        let qn = qualified_name(pv, sym.name@);
        assert(sym.children@.skip(0) =~= sym.children@);
        assert(chunk_views(out0).push(chunk_for(*sym, lv, pv)) + flatten_symbols(
            sym.children@,
            lv,
            Some(qn),
        ) =~= chunk_views(out0) + (seq![chunk_for(*sym, lv, pv)] + flatten_symbols(
            sym.children@,
            lv,
            Some(qn),
        )));
    }
}

fn flatten_from(
    syms: &Vec<Symbol>,
    from: usize,
    lines: &Vec<String>,
    parent: Option<&String>,
    out: &mut Vec<CodeChunk>,
)
    requires
        from <= syms@.len(),
    ensures
        chunk_views(final(out)@) == chunk_views(old(out)@) + flatten_symbols(
            syms@.skip(from as int),
            line_views(lines@),
            opt_view(parent),
        ),
    decreases syms@, syms@.len() - from,
{
    if from == syms.len() {
        proof {
            assert(syms@.skip(from as int) =~= Seq::<Symbol>::empty());
            assert(chunk_views(out@) + Seq::<ChunkModel>::empty() =~= chunk_views(out@));
        }
        return ;
    }
    let ghost out0 = out@;
    flatten_one(&syms[from], lines, parent, out);
    let ghost out1 = out@;
    flatten_from(syms, from + 1, lines, parent, out);
    proof {
        let lv = line_views(lines@);
        let pv = opt_view(parent);
        let rest = syms@.skip(from as int);
        assert(rest[0] == syms@[from as int]);
        assert(rest.drop_first() =~= syms@.skip(from + 1));
        assert(chunk_views(out0) + flatten_symbol(syms@[from as int], lv, pv) + flatten_symbols(
            syms@.skip(from + 1),
            lv,
            pv,
        ) =~= chunk_views(out0) + (flatten_symbol(syms@[from as int], lv, pv) + flatten_symbols(
            syms@.skip(from + 1),
            lv,
            pv,
        )));
    }
}

/// A symbol of unrecognized kind produces no chunk, and none of its
/// descendants are visited: the whole subtree is absent from the
/// output.
pub proof fn lemma_unrecognized_kind_skips_subtree(
    sym: Symbol,
    lines: Seq<Seq<char>>,
    parent: Option<Seq<char>>,
)
    requires
        kind_label(sym.kind) is None,
    ensures
        flatten_symbol(sym, lines, parent) == Seq::<ChunkModel>::empty(),
{
}

/// A symbol whose range is empty (`start_line >= end_line`) or runs
/// past the end of the file (`end_line >= line_count`) produces no
/// chunk and is excluded from the output, together with its subtree.
pub proof fn lemma_invalid_range_skipped(
    sym: Symbol,
    lines: Seq<Seq<char>>,
    parent: Option<Seq<char>>,
)
    requires
        sym.range.start.line >= sym.range.end.line || sym.range.end.line >= lines.len(),
    ensures
        flatten_symbol(sym, lines, parent) == Seq::<ChunkModel>::empty(),
{
}

/// The output is a pre-order traversal: a recognized, in-range symbol
/// contributes its own chunk first, then the flattening of its
/// children in document order, qualified by its name.
pub proof fn lemma_preorder(sym: Symbol, lines: Seq<Seq<char>>, parent: Option<Seq<char>>)
    requires
        kind_label(sym.kind) is Some,
        range_ok(sym, lines.len()),
    ensures
        flatten_symbol(sym, lines, parent) == seq![chunk_for(sym, lines, parent)]
            + flatten_symbols(sym.children@, lines, Some(qualified_name(parent, sym.name@))),
{
}

/// Sibling symbols contribute their chunks in document order: the
/// flattening of a sequence is the concatenation of the flattenings
/// of its head and of the remaining siblings.
pub proof fn lemma_sibling_order(syms: Seq<Symbol>, lines: Seq<Seq<char>>, parent: Option<Seq<char>>)
    requires
        syms.len() > 0,
    ensures
        flatten_symbols(syms, lines, parent) == flatten_symbol(syms[0], lines, parent)
            + flatten_symbols(syms.drop_first(), lines, parent),
{
}

/// A function nested in a class nested in a namespace is emitted with
/// the fully qualified name built from the whole ancestor chain
/// (`N::C::f`), and its chunk's parent is the qualified name of the
/// enclosing chunk (`N::C`).
pub proof fn lemma_name_qualification(ns: Symbol, cls: Symbol, f: Symbol, lines: Seq<Seq<char>>)
    requires
        ns.kind == SYMBOL_KIND_NAMESPACE,
        cls.kind == SYMBOL_KIND_CLASS,
        f.kind == SYMBOL_KIND_FUNCTION,
        ns.children@ == seq![cls],
        cls.children@ == seq![f],
        f.children@.len() == 0,
        range_ok(ns, lines.len()),
        range_ok(cls, lines.len()),
        range_ok(f, lines.len()),
    ensures
        flatten_symbol(ns, lines, None).len() == 3,
        flatten_symbol(ns, lines, None)[2].name == ns.name@ + "::"@ + cls.name@ + "::"@
            + f.name@,
        flatten_symbol(ns, lines, None)[2].parent == Some(ns.name@ + "::"@ + cls.name@),
{
    let n_q = ns.name@;
    let c_q = ns.name@ + "::"@ + cls.name@;
    let f_chunks = flatten_symbol(f, lines, Some(c_q));
    assert(f.children@ =~= Seq::<Symbol>::empty());
    assert(f_chunks == seq![chunk_for(f, lines, Some(c_q))] + flatten_symbols(
        f.children@,
        lines,
        Some(qualified_name(Some(c_q), f.name@)),
    ));
    assert(f_chunks =~= seq![chunk_for(f, lines, Some(c_q))]);
    assert(cls.children@.drop_first() =~= Seq::<Symbol>::empty());
    let cf_chunks = flatten_symbols(cls.children@, lines, Some(c_q));
    assert(cf_chunks == f_chunks + flatten_symbols(Seq::<Symbol>::empty(), lines, Some(c_q)));
    assert(cf_chunks =~= f_chunks);
    let c_chunks = flatten_symbol(cls, lines, Some(n_q));
    assert(qualified_name(Some(n_q), cls.name@) == c_q);
    assert(c_chunks == seq![chunk_for(cls, lines, Some(n_q))] + cf_chunks);
    assert(ns.children@.drop_first() =~= Seq::<Symbol>::empty());
    let nc_chunks = flatten_symbols(ns.children@, lines, Some(n_q));
    assert(ns.children@[0] == cls);
    assert(nc_chunks == c_chunks + flatten_symbols(Seq::<Symbol>::empty(), lines, Some(n_q)));
    assert(nc_chunks =~= c_chunks);
    let out = flatten_symbol(ns, lines, None);
    assert(qualified_name(None, ns.name@) == n_q);
    assert(out == seq![chunk_for(ns, lines, None)] + nc_chunks);
    assert(out.len() == 3);
    assert(out[2] == chunk_for(f, lines, Some(c_q)));
    assert(out[2].name == qualified_name(Some(c_q), f.name@));
}

/// Every chunk the extractor emits satisfies the range invariants:
/// `start_line < end_line` and `end_line < line_count`.
pub proof fn lemma_flatten_symbol_ranges_valid(
    sym: Symbol,
    lines: Seq<Seq<char>>,
    parent: Option<Seq<char>>,
)
    ensures
        forall|i: int|
            0 <= i < flatten_symbol(sym, lines, parent).len() ==> {
                let c = #[trigger] flatten_symbol(sym, lines, parent)[i];
                0 <= c.start_line < c.end_line < lines.len()
            },
    decreases sym, 0int,
{
    if kind_label(sym.kind) is Some && range_ok(sym, lines.len()) {
        let qn = Some(qualified_name(parent, sym.name@));
        lemma_flatten_symbols_ranges_valid(sym.children@, lines, qn);
        assert forall|i: int|
            0 <= i < flatten_symbol(sym, lines, parent).len() implies {
            let c = #[trigger] flatten_symbol(sym, lines, parent)[i];
            0 <= c.start_line < c.end_line < lines.len()
        } by {
            if i > 0 {
                assert(flatten_symbol(sym, lines, parent)[i] == flatten_symbols(
                    sym.children@,
                    lines,
                    qn,
                )[i - 1]);
            }
        }
    }
}

/// Every chunk emitted for a sequence of symbols satisfies the range
/// invariants.
pub proof fn lemma_flatten_symbols_ranges_valid(
    syms: Seq<Symbol>,
    lines: Seq<Seq<char>>,
    parent: Option<Seq<char>>,
)
    ensures
        forall|i: int|
            0 <= i < flatten_symbols(syms, lines, parent).len() ==> {
                let c = #[trigger] flatten_symbols(syms, lines, parent)[i];
                0 <= c.start_line < c.end_line < lines.len()
            },
    decreases syms, 1int,
{
    if syms.len() > 0 {
        lemma_flatten_symbol_ranges_valid(syms[0], lines, parent);
        lemma_flatten_symbols_ranges_valid(syms.drop_first(), lines, parent);
        let head = flatten_symbol(syms[0], lines, parent);
        let tail = flatten_symbols(syms.drop_first(), lines, parent);
        assert forall|i: int|
            0 <= i < flatten_symbols(syms, lines, parent).len() implies {
            let c = #[trigger] flatten_symbols(syms, lines, parent)[i];
            0 <= c.start_line < c.end_line < lines.len()
        } by {
            if i < head.len() {
                assert(flatten_symbols(syms, lines, parent)[i] == head[i]);
            } else {
                assert(flatten_symbols(syms, lines, parent)[i] == tail[i - head.len()]);
            }
        }
    }
}

pub uninterp spec fn lower_of(s: Seq<char>) -> Seq<char>;

/// Relies on `str::to_lowercase`: the result depends on the
/// characters alone.
#[verifier::external_body]
fn lowercase(s: &str) -> (r: String)
    ensures
        r@ == lower_of(s@),
{
    s.to_lowercase()
}

/// The lowercased extensions that mark a file as a source file to be
/// segmented.
pub open spec fn is_source_extension_lower(e: Seq<char>) -> bool {
    e == "cpp"@ || e == "cxx"@ || e == "cc"@ || e == "h"@ || e == "hpp"@ || e == "hxx"@
}

/// Whether a file extension, compared case-insensitively, marks a
/// source file that discovery hands to the segmentation engine.
pub fn has_source_extension(ext: &str) -> (r: bool)
    ensures
        r == is_source_extension_lower(lower_of(ext@)),
{
    let low = lowercase(ext);
    let l = low.as_str();
    crate::text::str_eq(l, "cpp") || crate::text::str_eq(l, "cxx") || crate::text::str_eq(
        l,
        "cc",
    ) || crate::text::str_eq(l, "h") || crate::text::str_eq(l, "hpp") || crate::text::str_eq(
        l,
        "hxx",
    )
}

/// Drives the structural segmentation of one project: where the
/// sources live, where chunks are written, how the analysis process is
/// started, and where the diagnostic log goes.
pub struct Chunker {
    pub project_dir: String,
    pub output_dir: String,
    pub clangd_path: String,
    pub lsp_log_file: String,
}

impl Chunker {
    pub fn new(
        project_dir: String,
        output_dir: String,
        clangd_path: String,
        lsp_log_file: String,
    ) -> (r: Chunker)
        ensures
            r.project_dir@ == project_dir@,
            r.output_dir@ == output_dir@,
            r.clangd_path@ == clangd_path@,
            r.lsp_log_file@ == lsp_log_file@,
    {
        Chunker { project_dir, output_dir, clangd_path, lsp_log_file }
    }

    /// Extracts the chunks of one file: the symbol trees are flattened
    /// in pre-order against the file's lines.
    pub fn extract_chunks(&self, file_content: &str, symbols: &Vec<Symbol>) -> (r: Vec<CodeChunk>)
        ensures
            chunk_views(r@) == flatten_symbols(symbols@, split_lines_spec(file_content@), None),
    {
        let lines = split_lines(file_content);
        let mut chunks: Vec<CodeChunk> = Vec::new();
        flatten_from(symbols, 0, &lines, None, &mut chunks);
        proof {
            assert(symbols@.skip(0) =~= symbols@);
            assert(chunk_views(Seq::<CodeChunk>::empty()) =~= Seq::<ChunkModel>::empty());
            assert(Seq::<ChunkModel>::empty() + flatten_symbols(
                symbols@,
                line_views(lines@),
                None,
            ) =~= flatten_symbols(symbols@, line_views(lines@), None));
        }
        chunks
    }
}

} // verus!
