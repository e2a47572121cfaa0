use cppembedder::chunking::{Chunker, CodeChunk, Position, Range, Symbol, SYMBOL_KIND_FUNCTION};
use cppembedder::persist::{chunk_filename, manifest_text, sanitize_name};

fn chunk(name: &str, kind: &str, start: usize, end: usize, parent: Option<&str>) -> CodeChunk {
    CodeChunk {
        name: name.to_string(),
        content: String::new(),
        start_line: start,
        end_line: end,
        kind: kind.to_string(),
        parent: parent.map(|p| p.to_string()),
    }
}

#[test]
fn sanitize_replaces_separators_and_brackets() {
    assert_eq!(
        sanitize_name("Outer::f<int>/x"),
        "Outer_doublecolon_f_less_int_greater__slash_x"
    );
}

#[test]
fn sanitize_keeps_a_lone_colon() {
    assert_eq!(sanitize_name("a:b"), "a:b");
    assert_eq!(sanitize_name(":::"), "_doublecolon_:");
}

#[test]
fn sanitize_truncates_long_names() {
    let long = "x".repeat(500);
    let sanitized = sanitize_name(&long);
    assert_eq!(sanitized.len(), 200);
    assert_eq!(sanitized, "x".repeat(200));
}

#[test]
fn sanitize_truncates_at_two_hundred_bytes() {
    // Two-byte characters: 101 of them encode to 202 bytes, so the
    // name is cut at 100 characters, exactly 200 bytes.
    let long = "\u{e9}".repeat(101);
    let sanitized = sanitize_name(&long);
    assert_eq!(sanitized.len(), 200);
    assert_eq!(sanitized, "\u{e9}".repeat(100));
    // Exactly 200 bytes pass through whole.
    assert_eq!(sanitize_name(&"\u{e9}".repeat(100)), "\u{e9}".repeat(100));
}

#[test]
fn sanitize_never_splits_a_character() {
    // Three-byte characters: 67 of them encode to 201 bytes; the cut
    // falls back to the last whole character, 66 of them, 198 bytes.
    let long = "\u{4e8c}".repeat(67);
    let sanitized = sanitize_name(&long);
    assert_eq!(sanitized.len(), 198);
    assert_eq!(sanitized, "\u{4e8c}".repeat(66));
}

#[test]
fn filenames_encode_position_name_kind_and_line() {
    let c = chunk("N::f", "function", 9, 12, Some("N"));
    assert_eq!(
        chunk_filename(0, &c, "cpp"),
        "001_N_doublecolon_f_function_10.cpp"
    );
}

#[test]
fn filenames_carry_the_source_extension() {
    let c = chunk("f", "method", 0, 1, None);
    assert_eq!(chunk_filename(0, &c, "h"), "001_f_method_1.h");
    assert_eq!(chunk_filename(0, &c, "hpp"), "001_f_method_1.hpp");
}

#[test]
fn filename_sequence_numbers_are_zero_padded() {
    let c = chunk("f", "method", 0, 1, None);
    assert_eq!(chunk_filename(8, &c, "cpp"), "009_f_method_1.cpp");
    assert_eq!(chunk_filename(9, &c, "cpp"), "010_f_method_1.cpp");
    assert_eq!(chunk_filename(98, &c, "cpp"), "099_f_method_1.cpp");
    assert_eq!(chunk_filename(99, &c, "cpp"), "100_f_method_1.cpp");
    assert_eq!(chunk_filename(999, &c, "cpp"), "1000_f_method_1.cpp");
}

#[test]
fn filenames_are_stable_across_runs() {
    let c = chunk("Outer::helper<T>", "method", 41, 60, Some("Outer"));
    let first = chunk_filename(4, &c, "cpp");
    let second = chunk_filename(4, &c, "cpp");
    assert_eq!(first, second);
}

#[test]
fn manifest_lists_every_chunk_with_its_metadata() {
    let chunks = vec![
        chunk("N", "namespace", 0, 9, None),
        chunk("N::f", "function", 2, 5, Some("N")),
    ];
    let text = manifest_text("src/a.cpp", &chunks, "cpp");
    let expected = "Source file: src/a.cpp\n\
                    Number of chunks: 2\n\
                    ---\n\
                    Chunk: 001_N_namespace_1.cpp\n\
                    \x20 Name: N\n\
                    \x20 Kind: namespace\n\
                    \x20 Lines: 1-10\n\
                    ---\n\
                    Chunk: 002_N_doublecolon_f_function_3.cpp\n\
                    \x20 Name: N::f\n\
                    \x20 Kind: function\n\
                    \x20 Lines: 3-6\n\
                    \x20 Parent: N\n\
                    ---\n";
    assert_eq!(text, expected);
}

#[test]
fn manifest_is_deterministic() {
    let chunks = vec![chunk("a", "class", 3, 8, None)];
    assert_eq!(
        manifest_text("p.cpp", &chunks, "cpp"),
        manifest_text("p.cpp", &chunks, "cpp")
    );
}

#[test]
fn five_line_function_end_to_end() {
    let text = "void f() {\n  a();\n  b();\n  c();\n}";
    let symbols = vec![Symbol {
        name: "f".to_string(),
        kind: SYMBOL_KIND_FUNCTION,
        range: Range {
            start: Position {
                line: 0,
                character: 0,
            },
            end: Position {
                line: 4,
                character: 1,
            },
        },
        children: Vec::new(),
    }];
    let chunker = Chunker::new(
        "proj".to_string(),
        "out".to_string(),
        "clangd".to_string(),
        "lsp.log".to_string(),
    );
    let chunks = chunker.extract_chunks(text, &symbols);
    assert_eq!(chunks.len(), 1);
    assert_eq!(chunks[0].name, "f");
    assert_eq!(chunks[0].content, text);
    assert_eq!(chunks[0].kind, "function");
    assert_eq!(chunks[0].parent, None);
    assert_eq!(chunk_filename(0, &chunks[0], "cpp"), "001_f_function_1.cpp");
    let manifest = manifest_text("proj/file.cpp", &chunks, "cpp");
    assert!(manifest.contains("Number of chunks: 1\n"));
    assert!(manifest.contains("Chunk: 001_f_function_1.cpp\n"));
}
