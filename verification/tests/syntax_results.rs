use vest_db::requests::{
    completion_items, diagnostics_in_document, encode_semantic_tokens, node_hover, semantic_token_index,
    semantic_token_modifiers, semantic_tokens_in_order, CompletionKind, EncodedToken,
};
use vest_db::source::{Position, Range, SourceDocument};
use vest_db::syntax::{
    collect_semantic_tokens, collect_syntax_diagnostics, semantic_kind_for_capture, Capture, SemanticToken,
    SemanticTokenKind, SyntaxDiagnostic, SyntaxNode,
};

fn node(kind: &str, start: usize, end: usize, children: Vec<SyntaxNode>) -> SyntaxNode {
    SyntaxNode { kind: kind.to_string(), is_error: false, is_missing: false, start_byte: start, end_byte: end, children }
}

fn error_node(start: usize, end: usize, children: Vec<SyntaxNode>) -> SyntaxNode {
    SyntaxNode { kind: "ERROR".to_string(), is_error: true, is_missing: false, start_byte: start, end_byte: end, children }
}

fn missing_node(kind: &str, at: usize) -> SyntaxNode {
    SyntaxNode { kind: kind.to_string(), is_error: false, is_missing: true, start_byte: at, end_byte: at, children: Vec::new() }
}

fn render(diagnostics: &[SyntaxDiagnostic]) -> String {
    diagnostics
        .iter()
        .map(|d| format!("{} @ {}..{}", d.message, d.start_byte, d.end_byte))
        .collect::<Vec<_>>()
        .join("\n")
}

fn capture(name: &str, start: usize, end: usize) -> Capture {
    Capture { name: name.to_string(), start_byte: start, end_byte: end }
}

#[test]
fn error_reaching_end_of_text_reports_end_of_file() {
    // packet = {\n    field: u8\n  (the closing brace is missing)
    let source = "packet = {\n    field: u8\n";
    let root = node("source_file", 0, 25, vec![error_node(0, 25, vec![node("var_id", 0, 6, Vec::new())])]);
    let diagnostics = collect_syntax_diagnostics(&root, source);
    assert_eq!(render(&diagnostics), "Unexpected end of file @ 24..24");
}

#[test]
fn error_in_the_middle_quotes_trimmed_text() {
    let source = "a = u8\n  ?? junk ??  \nb = u16\n";
    let root = node("source_file", 0, 30, vec![error_node(7, 21, Vec::new())]);
    let diagnostics = collect_syntax_diagnostics(&root, source);
    assert_eq!(render(&diagnostics), "Unexpected syntax near `?? junk ??` @ 7..21");
}

#[test]
fn long_snippets_are_cut_and_blank_errors_are_generic() {
    let source = "x = abcdefghijklmnopqrstuvwxyz0123\n   \ny = u8\n";
    let root = node(
        "source_file",
        0,
        46,
        vec![error_node(4, 34, Vec::new()), error_node(35, 38, Vec::new())],
    );
    let diagnostics = collect_syntax_diagnostics(&root, source);
    assert_eq!(
        render(&diagnostics),
        "Unexpected syntax near `abcdefghijklmnopqrstuvwx` @ 4..34\nUnexpected syntax @ 35..38"
    );
}

#[test]
fn missing_nodes_are_reported_sorted_and_deduplicated() {
    let source = "a = {\nb = (\n";
    let root = node(
        "source_file",
        0,
        12,
        vec![
            node("definition", 0, 5, vec![missing_node("}", 5)]),
            node("definition", 6, 11, vec![missing_node(")", 11), missing_node(")", 11)]),
            node("definition", 0, 5, vec![missing_node("}", 5)]),
        ],
    );
    let diagnostics = collect_syntax_diagnostics(&root, source);
    assert_eq!(render(&diagnostics), "Expected } @ 5..5\nExpected ) @ 11..11");
}

#[test]
fn clean_tree_has_no_diagnostics() {
    let source = "packet = {\n    version: u8,\n}\n";
    let root = node("source_file", 0, 29, vec![node("definition", 0, 28, Vec::new())]);
    assert!(collect_syntax_diagnostics(&root, source).is_empty());
}

#[test]
fn capture_names_map_to_token_kinds() {
    assert_eq!(semantic_kind_for_capture("function.macro"), Some(SemanticTokenKind::Macro));
    assert_eq!(semantic_kind_for_capture("keyword.directive"), Some(SemanticTokenKind::Keyword));
    assert_eq!(semantic_kind_for_capture("type.enum.variant"), Some(SemanticTokenKind::EnumMember));
    assert_eq!(semantic_kind_for_capture("variable.parameter"), Some(SemanticTokenKind::Parameter));
    assert_eq!(semantic_kind_for_capture("punctuation"), None);
}

#[test]
fn semantic_tokens_from_captures_skip_unknown_empty_and_repeated() {
    // macro wrap_packet!(item) = wrap(u8 = 1, item)
    let captures = vec![
        capture("keyword", 0, 5),
        capture("function.macro", 6, 17),
        capture("operator", 17, 18),
        capture("punctuation.bracket", 18, 19),
        capture("operator", 25, 26),
        capture("keyword", 27, 31),
        capture("keyword", 27, 31),
        capture("type.builtin", 32, 34),
        capture("operator", 35, 36),
        capture("number", 37, 38),
        capture("string", 39, 39),
        capture("function.call", 40, 44),
    ];
    let tokens = collect_semantic_tokens(&captures);
    let rendered = tokens
        .iter()
        .map(|t| format!("{:?}@{}..{}", t.kind, t.start_byte, t.end_byte))
        .collect::<Vec<_>>()
        .join("\n");
    assert_eq!(
        rendered,
        "Keyword@0..5\nMacro@6..17\nOperator@17..18\nOperator@25..26\nKeyword@27..31\nType@32..34\nOperator@35..36\nNumber@37..38\nFunction@40..44"
    );
}

#[test]
fn semantic_tokens_encode_relative_positions() {
    let document = SourceDocument::new(1, "const A: u8 = 1\nx = u16\n".into());
    let tokens = [
        SemanticToken { kind: SemanticTokenKind::Keyword, start_byte: 0, end_byte: 5 },
        SemanticToken { kind: SemanticTokenKind::Constant, start_byte: 6, end_byte: 7 },
        SemanticToken { kind: SemanticTokenKind::Type, start_byte: 9, end_byte: 11 },
        SemanticToken { kind: SemanticTokenKind::Type, start_byte: 20, end_byte: 23 },
    ];
    assert!(semantic_tokens_in_order(&tokens, &document));
    let data = encode_semantic_tokens(&tokens, &document).expect("tokens have ranges");
    assert_eq!(
        data,
        vec![
            EncodedToken { delta_line: 0, delta_start: 0, length: 5, token_type: 0, token_modifiers_bitset: 0 },
            EncodedToken { delta_line: 0, delta_start: 6, length: 1, token_type: 5, token_modifiers_bitset: 1 },
            EncodedToken { delta_line: 0, delta_start: 3, length: 2, token_type: 2, token_modifiers_bitset: 0 },
            EncodedToken { delta_line: 1, delta_start: 4, length: 3, token_type: 2, token_modifiers_bitset: 0 },
        ]
    );
}

#[test]
fn semantic_tokens_skip_multi_line_and_stop_on_bad_offsets() {
    let document = SourceDocument::new(1, "ab\ncd\n".into());
    let tokens = [
        SemanticToken { kind: SemanticTokenKind::Comment, start_byte: 1, end_byte: 4 },
        SemanticToken { kind: SemanticTokenKind::Number, start_byte: 3, end_byte: 5 },
    ];
    let data = encode_semantic_tokens(&tokens, &document).unwrap();
    assert_eq!(data, vec![EncodedToken { delta_line: 1, delta_start: 0, length: 2, token_type: 8, token_modifiers_bitset: 0 }]);

    let bad = [SemanticToken { kind: SemanticTokenKind::Number, start_byte: 3, end_byte: 40 }];
    assert!(semantic_tokens_in_order(&bad, &document));
    assert!(encode_semantic_tokens(&bad, &document).is_none());

    let backwards = [
        SemanticToken { kind: SemanticTokenKind::Number, start_byte: 4, end_byte: 5 },
        SemanticToken { kind: SemanticTokenKind::Number, start_byte: 0, end_byte: 1 },
    ];
    assert!(!semantic_tokens_in_order(&backwards, &document));
}

#[test]
fn token_legend_indices() {
    assert_eq!(semantic_token_index(SemanticTokenKind::Comment), 11);
    assert_eq!(semantic_token_index(SemanticTokenKind::Variable), 5);
    assert_eq!(semantic_token_index(SemanticTokenKind::Constant), 5);
    assert_eq!(semantic_token_modifiers(SemanticTokenKind::Constant), 1);
    assert_eq!(semantic_token_modifiers(SemanticTokenKind::Variable), 0);
}

#[test]
fn completion_lists_keywords_then_types() {
    let items = completion_items();
    assert_eq!(items.len(), 21);
    assert_eq!(items[0].label, "const");
    assert_eq!(items[0].kind, CompletionKind::Keyword);
    assert_eq!(items[8].label, "Tail");
    assert_eq!(items[9].label, "u8");
    assert_eq!(items[9].kind, CompletionKind::TypeParameter);
    assert_eq!(items[20].label, "uleb128");
}

#[test]
fn diagnostics_get_ranges_and_keep_messages() {
    let document = SourceDocument::new(1, "packet = {\n    field: u8\n".into());
    let diagnostics = vec![
        SyntaxDiagnostic { message: "Unexpected end of file".to_string(), start_byte: 24, end_byte: 24 },
        SyntaxDiagnostic { message: "out of range".to_string(), start_byte: 90, end_byte: 91 },
    ];
    let located = diagnostics_in_document(&document, &diagnostics);
    assert_eq!(located.len(), 1);
    assert_eq!(located[0].message, "Unexpected end of file");
    assert_eq!(located[0].range, Range::new(Position::new(1, 13), Position::new(1, 13)));
}

#[test]
fn node_hover_quotes_node_text_and_kind() {
    let document = SourceDocument::new(1, "packet = {\n    field: u8,\n}\n".into());
    let hover = node_hover(&document, 15, 20, "var_id");
    assert_eq!(hover.markdown, "```vest\nfield\n```\n\n`var_id`");
    assert_eq!(hover.range, Some(Range::new(Position::new(1, 4), Position::new(1, 9))));

    let blank = node_hover(&document, 10, 11, "\\n");
    assert_eq!(blank.markdown, "`\\n`");
}

#[test]
fn semantic_tokens_available() {
    // packet = { field: u8, }
    let captures = vec![
        capture("operator", 7, 8),
        capture("punctuation.bracket", 9, 10),
        capture("property", 11, 16),
        capture("punctuation.delimiter", 16, 17),
        capture("type.builtin", 18, 20),
        capture("punctuation.bracket", 22, 23),
    ];
    let tokens = collect_semantic_tokens(&captures);
    assert!(!tokens.is_empty());
}
