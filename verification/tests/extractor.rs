use cppembedder::chunking::{
    has_source_extension, Chunker, Position, Range, Symbol, SYMBOL_KIND_CLASS,
    SYMBOL_KIND_FUNCTION, SYMBOL_KIND_METHOD, SYMBOL_KIND_NAMESPACE,
};

fn symbol(name: &str, kind: u8, start: usize, end: usize, children: Vec<Symbol>) -> Symbol {
    Symbol {
        name: name.to_string(),
        kind,
        range: Range {
            start: Position {
                line: start,
                character: 0,
            },
            end: Position {
                line: end,
                character: 0,
            },
        },
        children,
    }
}

fn chunker() -> Chunker {
    Chunker::new(
        "proj".to_string(),
        "out".to_string(),
        "clangd".to_string(),
        "lsp.log".to_string(),
    )
}

#[test]
fn chunker_new_keeps_its_arguments() {
    let c = Chunker::new(
        "a".to_string(),
        "b".to_string(),
        "c".to_string(),
        "d".to_string(),
    );
    assert_eq!(c.project_dir, "a");
    assert_eq!(c.output_dir, "b");
    assert_eq!(c.clangd_path, "c");
    assert_eq!(c.lsp_log_file, "d");
}

#[test]
fn one_function_over_the_whole_file() {
    let text = "int f() {\n  int x = 1;\n  int y = 2;\n  return x + y;\n}";
    let symbols = vec![symbol("f", SYMBOL_KIND_FUNCTION, 0, 4, Vec::new())];
    let chunks = chunker().extract_chunks(text, &symbols);
    assert_eq!(chunks.len(), 1);
    assert_eq!(chunks[0].name, "f");
    assert_eq!(chunks[0].content, text);
    assert_eq!(chunks[0].start_line, 0);
    assert_eq!(chunks[0].end_line, 4);
    assert_eq!(chunks[0].kind, "function");
    assert_eq!(chunks[0].parent, None);
}

#[test]
fn flattening_is_preorder_and_skips_unrecognized_subtrees() {
    let text = "a\nb\nc\nd\ne\nf\ng\nh\n";
    let symbols = vec![
        symbol(
            "var",
            13,
            0,
            7,
            vec![symbol("hidden", SYMBOL_KIND_METHOD, 1, 2, Vec::new())],
        ),
        symbol(
            "ns",
            SYMBOL_KIND_NAMESPACE,
            0,
            7,
            vec![
                symbol("g", SYMBOL_KIND_FUNCTION, 1, 2, Vec::new()),
                symbol("h", SYMBOL_KIND_FUNCTION, 3, 4, Vec::new()),
            ],
        ),
        symbol("tail", SYMBOL_KIND_FUNCTION, 5, 6, Vec::new()),
    ];
    let chunks = chunker().extract_chunks(text, &symbols);
    let names: Vec<&str> = chunks.iter().map(|c| c.name.as_str()).collect();
    assert_eq!(names, vec!["ns", "ns::g", "ns::h", "tail"]);
}

#[test]
fn invalid_ranges_produce_no_chunk() {
    let text = "a\nb\nc\n";
    let symbols = vec![
        symbol("empty_range", SYMBOL_KIND_FUNCTION, 1, 1, Vec::new()),
        symbol("past_the_end", SYMBOL_KIND_FUNCTION, 0, 3, Vec::new()),
        symbol("ok", SYMBOL_KIND_FUNCTION, 0, 2, Vec::new()),
    ];
    let chunks = chunker().extract_chunks(text, &symbols);
    assert_eq!(chunks.len(), 1);
    assert_eq!(chunks[0].name, "ok");
}

#[test]
fn invalid_range_hides_valid_children() {
    let text = "a\nb\nc\n";
    let symbols = vec![symbol(
        "bad",
        SYMBOL_KIND_CLASS,
        2,
        2,
        vec![symbol("inner", SYMBOL_KIND_METHOD, 0, 1, Vec::new())],
    )];
    let chunks = chunker().extract_chunks(text, &symbols);
    assert_eq!(chunks.len(), 0);
}

#[test]
fn names_are_qualified_by_the_ancestor_chain() {
    let text = "l0\nl1\nl2\nl3\nl4\nl5\nl6\n";
    let symbols = vec![symbol(
        "N",
        SYMBOL_KIND_NAMESPACE,
        0,
        6,
        vec![symbol(
            "C",
            SYMBOL_KIND_CLASS,
            1,
            5,
            vec![symbol("f", SYMBOL_KIND_METHOD, 2, 4, Vec::new())],
        )],
    )];
    let chunks = chunker().extract_chunks(text, &symbols);
    assert_eq!(chunks.len(), 3);
    assert_eq!(chunks[2].name, "N::C::f");
    assert_eq!(chunks[2].parent, Some("N::C".to_string()));
    assert_eq!(chunks[1].name, "N::C");
    assert_eq!(chunks[1].parent, Some("N".to_string()));
    assert_eq!(chunks[0].name, "N");
    assert_eq!(chunks[0].parent, None);
}

#[test]
fn content_is_the_inclusive_line_range() {
    let text = "zero\none\ntwo\nthree\nfour";
    let symbols = vec![symbol("mid", SYMBOL_KIND_FUNCTION, 1, 3, Vec::new())];
    let chunks = chunker().extract_chunks(text, &symbols);
    assert_eq!(chunks[0].content, "one\ntwo\nthree");
}

#[test]
fn crlf_line_endings_are_stripped_from_content() {
    let text = "zero\r\none\r\ntwo\r\nthree\r\n";
    let symbols = vec![symbol("f", SYMBOL_KIND_FUNCTION, 0, 2, Vec::new())];
    let chunks = chunker().extract_chunks(text, &symbols);
    assert_eq!(chunks[0].content, "zero\none\ntwo");
}

#[test]
fn empty_file_yields_no_chunks() {
    let symbols = vec![symbol("f", SYMBOL_KIND_FUNCTION, 0, 1, Vec::new())];
    let chunks = chunker().extract_chunks("", &symbols);
    assert_eq!(chunks.len(), 0);
}

#[test]
fn source_extensions_match_case_insensitively() {
    assert!(has_source_extension("cpp"));
    assert!(has_source_extension("CPP"));
    assert!(has_source_extension("cxx"));
    assert!(has_source_extension("cc"));
    assert!(has_source_extension("h"));
    assert!(has_source_extension("Hpp"));
    assert!(has_source_extension("hxx"));
    assert!(!has_source_extension("rs"));
    assert!(!has_source_extension("cppx"));
    assert!(!has_source_extension(""));
}
