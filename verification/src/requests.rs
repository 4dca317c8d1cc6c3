//! Answers to an editor's requests, computed from an open document, its
//! HIR and its syntax results: positions of definitions and references,
//! rename edits, hover text, completion entries, diagnostics with positions,
//! and the relative encoding of semantic tokens.
use vstd::prelude::*;

use crate::db::Database;
use crate::names::{is_valid_identifier_text, spec_is_valid_identifier};
use crate::source::{
    Range, SourceDocument, SourceError, doc_bytes, spec_offset_range, spec_position_offset,
};
use crate::symbols::{
    first_occ_at, is_reported, references_for_symbol_in_hir, spec_occurrences, symbol_at_offset_in_hir,
};
use crate::syntax::{SemanticToken, SemanticTokenKind, SyntaxDiagnostic};
use crate::text::{byte_slice, owned, push_str, spec_byte_slice, spec_trim, trim_str};
use crate::types::{FileHir, Span, SymbolId, SymbolOccurrence};

verus! {

/// The range of a span, when both its ends are valid offsets.
pub open spec fn span_range(b: Seq<u8>, span: Span) -> Option<Range> {
    match spec_offset_range(b, span.start_byte as int, span.end_byte as int) {
        Ok(r) => Some(r),
        Err(_) => None,
    }
}

/// The byte offset of a position, when it has one.
pub open spec fn position_offset(b: Seq<u8>, p: crate::source::Position) -> Option<int> {
    match spec_position_offset(b, p) {
        Ok(k) => Some(k),
        Err(_) => None,
    }
}

/// The range of a span of a document.
pub fn location_for_span(document: &SourceDocument, span: Span) -> (r: Option<Range>)
    ensures
        r == span_range(doc_bytes(document@), span),
{
    match document.byte_range_to_lsp_range(span.start_byte, span.end_byte) {
        Ok(range) => Some(range),
        Err(_) => None,
    }
}

fn offset_of(document: &SourceDocument, position: crate::source::Position) -> (r: Option<usize>)
    ensures
        match r {
            Some(k) => position_offset(doc_bytes(document@), position) == Some(k as int),
            None => position_offset(doc_bytes(document@), position) is None,
        },
{
    match document.position_to_byte_offset(position) {
        Ok(k) => Some(k),
        Err(_) => None,
    }
}

/// The symbol under a position.
pub open spec fn symbol_under(hir: FileHir, b: Seq<u8>, p: crate::source::Position) -> Option<(int, SymbolId)> {
    match position_offset(b, p) {
        Some(k) => match first_occ_at(spec_occurrences(hir.definitions@), k) {
            Some(o) => Some((k, o.symbol)),
            None => None,
        },
        None => None,
    }
}

/// Where the symbol under a position is declared.
pub fn goto_definition_in_hir(hir: &FileHir, document: &SourceDocument, position: crate::source::Position) -> (r:
    Option<Range>)
    ensures
        r == match symbol_under(*hir, doc_bytes(document@), position) {
            Some((_, symbol)) => span_range(doc_bytes(document@), symbol.spec_declaration_span()),
            None => None,
        },
{
    let byte_offset = match offset_of(document, position) {
        Some(k) => k,
        None => {
            return None;
        },
    };
    let symbol = match symbol_at_offset_in_hir(hir, byte_offset) {
        Some(s) => s,
        None => {
            return None;
        },
    };
    location_for_span(document, symbol.declaration_span())
}

/// Ranges of occurrences, those whose span has no range left out.
pub open spec fn occurrence_ranges(b: Seq<u8>, occs: Seq<SymbolOccurrence>) -> Seq<Range>
    decreases occs.len(),
{
    if occs.len() == 0 {
        Seq::empty()
    } else {
        let prev = occurrence_ranges(b, occs.drop_last());
        match span_range(b, occs.last().span) {
            Some(r) => prev.push(r),
            None => prev,
        }
    }
}

/// The occurrences of a symbol that a request reports.
pub open spec fn reported(hir: FileHir, symbol: SymbolId, include_declaration: bool) -> Seq<SymbolOccurrence> {
    spec_occurrences(hir.definitions@).filter(|o: SymbolOccurrence| is_reported(o, symbol, include_declaration))
}

fn ranges_of(document: &SourceDocument, occurrences: &Vec<SymbolOccurrence>) -> (r: Vec<Range>)
    ensures
        r@ == occurrence_ranges(doc_bytes(document@), occurrences@),
{
    let ghost b = doc_bytes(document@);
    let mut out: Vec<Range> = Vec::new();
    let mut i: usize = 0;
    assert(occurrences@.take(0) =~= Seq::<SymbolOccurrence>::empty());
    while i < occurrences.len()
        invariant
            i <= occurrences@.len(),
            b == doc_bytes(document@),
            out@ == occurrence_ranges(b, occurrences@.take(i as int)),
        decreases occurrences@.len() - i,
    {
        assert(occurrences@.take(i + 1).drop_last() =~= occurrences@.take(i as int));
        match location_for_span(document, occurrences[i].span) {
            Some(range) => {
                out.push(range);
            },
            None => {},
        }
        i = i + 1;
    }
    assert(occurrences@.take(occurrences@.len() as int) =~= occurrences@);
    out
}

/// Ranges of the occurrences of the symbol under a position, in source
/// order, its declarations included on request.
pub fn references_in_hir(
    hir: &FileHir,
    document: &SourceDocument,
    position: crate::source::Position,
    include_declaration: bool,
) -> (r: Option<Vec<Range>>)
    ensures
        match symbol_under(*hir, doc_bytes(document@), position) {
            Some((_, symbol)) => r matches Some(v) && v@ == occurrence_ranges(
                doc_bytes(document@),
                reported(*hir, symbol, include_declaration),
            ),
            None => r is None,
        },
{
    let byte_offset = match offset_of(document, position) {
        Some(k) => k,
        None => {
            return None;
        },
    };
    let symbol = match symbol_at_offset_in_hir(hir, byte_offset) {
        Some(s) => s,
        None => {
            return None;
        },
    };
    let occurrences = references_for_symbol_in_hir(hir, symbol, include_declaration);
    Some(ranges_of(document, &occurrences))
}

/// The part of an occurrence a rename replaces: for a symbol written with
/// `@`, the sigil stays.
pub open spec fn spec_prepare_span(symbol: SymbolId, occurrence: Span) -> Span {
    if symbol.spec_is_sigiled() && occurrence.start_byte < occurrence.end_byte {
        Span { start_byte: (occurrence.start_byte + 1) as usize, end_byte: occurrence.end_byte }
    } else {
        occurrence
    }
}

/// The range a rename would replace and the current name.
pub struct PrepareRename {
    pub range: Range,
    pub placeholder: String,
}

/// The range that renaming the symbol under a position replaces (the
/// occurrence under the position, without a sigil) and its current name.
#[verifier::loop_isolation(false)]
pub fn prepare_rename_in_hir(
    db: &Database,
    hir: &FileHir,
    document: &SourceDocument,
    position: crate::source::Position,
) -> (r: Option<PrepareRename>)
    ensures
        match symbol_under(*hir, doc_bytes(document@), position) {
            Some((k, symbol)) => match first_occ_at(reported(*hir, symbol, true), k) {
                Some(o) => match span_range(doc_bytes(document@), spec_prepare_span(symbol, o.span)) {
                    Some(range) => r matches Some(p) && p.range == range && p.placeholder@ == db.text_of(
                        symbol.spec_name(),
                    ),
                    None => r is None,
                },
                None => r is None,
            },
            None => r is None,
        },
{
    let byte_offset = match offset_of(document, position) {
        Some(k) => k,
        None => {
            return None;
        },
    };
    let symbol = match symbol_at_offset_in_hir(hir, byte_offset) {
        Some(s) => s,
        None => {
            return None;
        },
    };
    let occurrences = references_for_symbol_in_hir(hir, symbol, true);
    let ghost all = occurrences@;
    let mut i: usize = 0;
    assert(all.skip(0) =~= all);
    while i < occurrences.len()
        invariant
            i <= all.len(),
            all == occurrences@,
            first_occ_at(all, byte_offset as int) == first_occ_at(all.skip(i as int), byte_offset as int),
        decreases all.len() - i,
    {
        assert(all.skip(i as int).drop_first() =~= all.skip(i + 1));
        assert(all.skip(i as int)[0] == all[i as int]);
        if occurrences[i].span.contains(byte_offset) {
            let prepare_span = symbol.prepare_rename_span(occurrences[i].span);
            let range = match location_for_span(document, prepare_span) {
                Some(range) => range,
                None => {
                    return None;
                },
            };
            return Some(PrepareRename { range, placeholder: owned(symbol.name().as_str(db)) });
        }
        i = i + 1;
    }
    None
}

/// Why a rename was refused.
#[derive(Debug, Clone, Copy, PartialEq, Eq, Structural)]
pub enum RenameRejection {
    /// The position is not in the document.
    PositionOutOfDocument,
    /// No symbol is under the position.
    NoSymbol,
    /// The new name is not a valid identifier.
    InvalidName,
}

/// A replacement of a range by a text.
pub struct TextEdit {
    pub range: Range,
    pub new_text: String,
}

/// A new name as given for a symbol: for a symbol written with `@`, a
/// leading `@` may be typed and is dropped.
pub open spec fn spec_normalized_name(symbol: SymbolId, s: Seq<char>) -> Seq<char> {
    if symbol.spec_is_sigiled() && s.len() > 0 && s[0] == '@' {
        s.drop_first()
    } else {
        s
    }
}

/// The text that replaces an occurrence of a renamed symbol.
pub open spec fn spec_rename_text(symbol: SymbolId, name: Seq<char>) -> Seq<char> {
    if symbol.spec_is_sigiled() {
        seq!['@'] + name
    } else {
        name
    }
}

/// The edits of a rename: one for each reported occurrence that has a
/// range, each writing `text`.
pub open spec fn edits_match(edits: Seq<TextEdit>, ranges: Seq<Range>, text: Seq<char>) -> bool {
    &&& edits.len() == ranges.len()
    &&& forall|i: int| 0 <= i < edits.len() ==> (#[trigger] edits[i]).range == ranges[i] && edits[i].new_text@ == text
}

/// Renames the symbol under a position: every occurrence of it, its
/// declarations included, is rewritten with the new name.
pub fn rename_in_hir(
    hir: &FileHir,
    document: &SourceDocument,
    position: crate::source::Position,
    new_name: &str,
) -> (r: Result<Vec<TextEdit>, RenameRejection>)
    ensures
        match position_offset(doc_bytes(document@), position) {
            None => r matches Err(RenameRejection::PositionOutOfDocument),
            Some(k) => match first_occ_at(spec_occurrences(hir.definitions@), k) {
                None => r matches Err(RenameRejection::NoSymbol),
                Some(o) => if !spec_is_valid_identifier(spec_normalized_name(o.symbol, new_name@)) {
                    r matches Err(RenameRejection::InvalidName)
                } else {
                    r matches Ok(edits) && edits_match(
                        edits@,
                        occurrence_ranges(doc_bytes(document@), reported(*hir, o.symbol, true)),
                        spec_rename_text(o.symbol, spec_normalized_name(o.symbol, new_name@)),
                    )
                },
            },
        },
{
    let byte_offset = match offset_of(document, position) {
        Some(k) => k,
        None => {
            return Err(RenameRejection::PositionOutOfDocument);
        },
    };
    let symbol = match symbol_at_offset_in_hir(hir, byte_offset) {
        Some(s) => s,
        None => {
            return Err(RenameRejection::NoSymbol);
        },
    };
    let name = symbol.normalize_rename_input(new_name);
    if !is_valid_identifier_text(name) {
        return Err(RenameRejection::InvalidName);
    }
    let occurrences = references_for_symbol_in_hir(hir, symbol, true);
    let ghost b = doc_bytes(document@);
    let ghost text = spec_rename_text(symbol, name@);
    let mut edits: Vec<TextEdit> = Vec::new();
    let mut i: usize = 0;
    assert(occurrences@.take(0) =~= Seq::<SymbolOccurrence>::empty());
    while i < occurrences.len()
        invariant
            i <= occurrences@.len(),
            b == doc_bytes(document@),
            text == spec_rename_text(symbol, name@),
            edits_match(edits@, occurrence_ranges(b, occurrences@.take(i as int)), text),
        decreases occurrences@.len() - i,
    {
        assert(occurrences@.take(i + 1).drop_last() =~= occurrences@.take(i as int));
        match location_for_span(document, occurrences[i].span) {
            Some(range) => {
                let new_text = symbol.rename_text(name);
                edits.push(TextEdit { range, new_text });
            },
            None => {},
        }
        i = i + 1;
    }
    assert(occurrences@.take(occurrences@.len() as int) =~= occurrences@);
    Ok(edits)
}

/// A syntax error with the range it covers.
pub struct DocumentDiagnostic {
    pub range: Range,
    pub message: String,
}

/// The diagnostics that have a range, each with its range and message.
pub open spec fn diagnostic_ranges(b: Seq<u8>, ds: Seq<SyntaxDiagnostic>) -> Seq<(Range, Seq<char>)>
    decreases ds.len(),
{
    if ds.len() == 0 {
        Seq::empty()
    } else {
        let prev = diagnostic_ranges(b, ds.drop_last());
        match spec_offset_range(b, ds.last().start_byte as int, ds.last().end_byte as int) {
            Ok(r) => prev.push((r, ds.last().message@)),
            Err(_) => prev,
        }
    }
}

pub open spec fn document_diagnostic_models(v: Seq<DocumentDiagnostic>) -> Seq<(Range, Seq<char>)> {
    Seq::new(v.len(), |i: int| (v[i].range, v[i].message@))
}

/// Syntax errors with the ranges they cover; an error whose bytes have no
/// range in the document is left out.
pub fn diagnostics_in_document(document: &SourceDocument, diagnostics: &Vec<SyntaxDiagnostic>) -> (r: Vec<
    DocumentDiagnostic,
>)
    ensures
        document_diagnostic_models(r@) == diagnostic_ranges(doc_bytes(document@), diagnostics@),
{
    let ghost b = doc_bytes(document@);
    let mut out: Vec<DocumentDiagnostic> = Vec::new();
    let mut i: usize = 0;
    assert(diagnostics@.take(0) =~= Seq::<SyntaxDiagnostic>::empty());
    assert(document_diagnostic_models(out@) =~= Seq::<(Range, Seq<char>)>::empty());
    while i < diagnostics.len()
        invariant
            i <= diagnostics@.len(),
            b == doc_bytes(document@),
            document_diagnostic_models(out@) == diagnostic_ranges(b, diagnostics@.take(i as int)),
        decreases diagnostics@.len() - i,
    {
        assert(diagnostics@.take(i + 1).drop_last() =~= diagnostics@.take(i as int));
        let d = &diagnostics[i];
        match document.byte_range_to_lsp_range(d.start_byte, d.end_byte) {
            Ok(range) => {
                let ghost before = out@;
                out.push(DocumentDiagnostic { range, message: d.message.clone() });
                assert(document_diagnostic_models(out@) =~= document_diagnostic_models(before).push(
                    (range, d.message@),
                ));
            },
            Err(_) => {},
        }
        i = i + 1;
    }
    assert(diagnostics@.take(diagnostics@.len() as int) =~= diagnostics@);
    out
}

/// Hover text for a syntax node: its text, trimmed, in a code block, and
/// its kind; the kind alone when the node has no text.
pub struct NodeHover {
    pub markdown: String,
    pub range: Option<Range>,
}

pub open spec fn spec_node_markdown(text: Seq<char>, start: int, end: int, kind: Seq<char>) -> Seq<char> {
    let snippet = spec_trim(
        match spec_byte_slice(text, start, end) {
            Some(t) => t,
            None => Seq::empty(),
        },
    );
    if snippet.len() == 0 {
        "`"@ + kind + "`"@
    } else {
        "```vest\n"@ + snippet + "\n```\n\n`"@ + kind + "`"@
    }
}

/// Hover for the syntax node covering bytes `start_byte..end_byte`.
pub fn node_hover(document: &SourceDocument, start_byte: usize, end_byte: usize, kind: &str) -> (r: NodeHover)
    ensures
        r.markdown@ == spec_node_markdown(document@.text, start_byte as int, end_byte as int, kind@),
        r.range == match spec_offset_range(doc_bytes(document@), start_byte as int, end_byte as int) {
            Ok(range) => Some(range),
            Err(_) => None::<Range>,
        },
{
    let text: &str = match byte_slice(document.text(), start_byte, end_byte) {
        Some(t) => t,
        None => {
            proof {
                reveal_strlit("");
            }
            ""
        },
    };
    let snippet = trim_str(text);
    let markdown = if snippet.is_empty() {
        let mut m = owned("`");
        push_str(&mut m, kind);
        push_str(&mut m, "`");
        m
    } else {
        let mut m = owned("```vest\n");
        push_str(&mut m, snippet);
        push_str(&mut m, "\n```\n\n`");
        push_str(&mut m, kind);
        push_str(&mut m, "`");
        m
    };
    let range = match document.byte_range_to_lsp_range(start_byte, end_byte) {
        Ok(range) => Some(range),
        Err(_) => None,
    };
    NodeHover { markdown, range }
}

/// What a completion entry offers.
#[derive(Debug, Clone, Copy, PartialEq, Eq, Structural)]
pub enum CompletionKind {
    Keyword,
    TypeParameter,
}

/// A completion entry.
#[derive(Debug, Clone, Copy, PartialEq, Eq)]
pub struct CompletionEntry {
    pub label: &'static str,
    pub kind: CompletionKind,
}

/// The completion entries: the keywords, then the integer types.
pub open spec fn spec_completions() -> Seq<(Seq<char>, CompletionKind)> {
    seq![
        ("const"@, CompletionKind::Keyword),
        ("enum"@, CompletionKind::Keyword),
        ("choose"@, CompletionKind::Keyword),
        ("wrap"@, CompletionKind::Keyword),
        ("public"@, CompletionKind::Keyword),
        ("secret"@, CompletionKind::Keyword),
        ("Vec"@, CompletionKind::Keyword),
        ("Option"@, CompletionKind::Keyword),
        ("Tail"@, CompletionKind::Keyword),
        ("u8"@, CompletionKind::TypeParameter),
        ("u16"@, CompletionKind::TypeParameter),
        ("u24"@, CompletionKind::TypeParameter),
        ("u32"@, CompletionKind::TypeParameter),
        ("u64"@, CompletionKind::TypeParameter),
        ("i8"@, CompletionKind::TypeParameter),
        ("i16"@, CompletionKind::TypeParameter),
        ("i24"@, CompletionKind::TypeParameter),
        ("i32"@, CompletionKind::TypeParameter),
        ("i64"@, CompletionKind::TypeParameter),
        ("btc_varint"@, CompletionKind::TypeParameter),
        ("uleb128"@, CompletionKind::TypeParameter),
    ]
}

pub open spec fn completion_models(v: Seq<CompletionEntry>) -> Seq<(Seq<char>, CompletionKind)> {
    Seq::new(v.len(), |i: int| (v[i].label@, v[i].kind))
}

/// A completion entry for a keyword.
fn keyword_completion(label: &'static str) -> (r: CompletionEntry)
    ensures
        r.label@ == label@,
        r.kind == CompletionKind::Keyword,
{
    CompletionEntry { label, kind: CompletionKind::Keyword }
}

/// A completion entry for a type.
fn type_completion(label: &'static str) -> (r: CompletionEntry)
    ensures
        r.label@ == label@,
        r.kind == CompletionKind::TypeParameter,
{
    CompletionEntry { label, kind: CompletionKind::TypeParameter }
}

fn push_entry(out: &mut Vec<CompletionEntry>, entry: CompletionEntry)
    ensures
        completion_models(final(out)@) == completion_models(old(out)@).push((entry.label@, entry.kind)),
{
    out.push(entry);
    assert(completion_models(out@) =~= completion_models(old(out)@).push((entry.label@, entry.kind)));
}

/// The completion entries offered everywhere.
pub fn completion_items() -> (r: Vec<CompletionEntry>)
    ensures
        completion_models(r@) == spec_completions(),
{
    let mut out: Vec<CompletionEntry> = Vec::new();
    assert(completion_models(out@) =~= Seq::<(Seq<char>, CompletionKind)>::empty());
    push_entry(&mut out, keyword_completion("const"));
    push_entry(&mut out, keyword_completion("enum"));
    push_entry(&mut out, keyword_completion("choose"));
    push_entry(&mut out, keyword_completion("wrap"));
    push_entry(&mut out, keyword_completion("public"));
    push_entry(&mut out, keyword_completion("secret"));
    push_entry(&mut out, keyword_completion("Vec"));
    push_entry(&mut out, keyword_completion("Option"));
    push_entry(&mut out, keyword_completion("Tail"));
    push_entry(&mut out, type_completion("u8"));
    push_entry(&mut out, type_completion("u16"));
    push_entry(&mut out, type_completion("u24"));
    push_entry(&mut out, type_completion("u32"));
    push_entry(&mut out, type_completion("u64"));
    push_entry(&mut out, type_completion("i8"));
    push_entry(&mut out, type_completion("i16"));
    push_entry(&mut out, type_completion("i24"));
    push_entry(&mut out, type_completion("i32"));
    push_entry(&mut out, type_completion("i64"));
    push_entry(&mut out, type_completion("btc_varint"));
    push_entry(&mut out, type_completion("uleb128"));
    assert(completion_models(out@) =~= spec_completions());
    out
}

/// Index of a token kind in the legend of token types: keyword, modifier,
/// type, function, property, variable, parameter, enum member, number,
/// string, operator, comment (a macro is shown as a function, a constant as
/// a variable).
pub open spec fn spec_token_index(kind: SemanticTokenKind) -> u32 {
    match kind {
        SemanticTokenKind::Keyword => 0,
        SemanticTokenKind::Modifier => 1,
        SemanticTokenKind::Type => 2,
        SemanticTokenKind::Function => 3,
        SemanticTokenKind::Property => 4,
        SemanticTokenKind::Constant | SemanticTokenKind::Variable => 5,
        SemanticTokenKind::Parameter => 6,
        SemanticTokenKind::EnumMember => 7,
        SemanticTokenKind::Number => 8,
        SemanticTokenKind::String => 9,
        SemanticTokenKind::Operator => 10,
        SemanticTokenKind::Comment => 11,
        SemanticTokenKind::Macro => 3,
    }
}

/// Index of a token kind in the legend of token types.
pub fn semantic_token_index(kind: SemanticTokenKind) -> (r: u32)
    ensures
        r == spec_token_index(kind),
{
    match kind {
        SemanticTokenKind::Keyword => 0,
        SemanticTokenKind::Modifier => 1,
        SemanticTokenKind::Type => 2,
        SemanticTokenKind::Function => 3,
        SemanticTokenKind::Property => 4,
        SemanticTokenKind::Constant | SemanticTokenKind::Variable => 5,
        SemanticTokenKind::Parameter => 6,
        SemanticTokenKind::EnumMember => 7,
        SemanticTokenKind::Number => 8,
        SemanticTokenKind::String => 9,
        SemanticTokenKind::Operator => 10,
        SemanticTokenKind::Comment => 11,
        SemanticTokenKind::Macro => 3,
    }
}

/// Modifier bits of a token kind: a constant is read-only.
pub open spec fn spec_token_modifiers(kind: SemanticTokenKind) -> u32 {
    match kind {
        SemanticTokenKind::Constant => 1,
        _ => 0,
    }
}

/// Modifier bits of a token kind.
pub fn semantic_token_modifiers(kind: SemanticTokenKind) -> (r: u32)
    ensures
        r == spec_token_modifiers(kind),
{
    match kind {
        SemanticTokenKind::Constant => 1,
        _ => 0,
    }
}

/// A semantic token placed relative to the token before it, as the
/// protocol sends it.
#[derive(Debug, Clone, Copy, PartialEq, Eq, Structural)]
pub struct EncodedToken {
    pub delta_line: u32,
    pub delta_start: u32,
    pub length: u32,
    pub token_type: u32,
    pub token_modifiers_bitset: u32,
}

/// Tokens encoded so far, and the line and column of the last one.
pub struct EncodeState {
    pub data: Seq<EncodedToken>,
    pub last_line: u32,
    pub last_start: u32,
}

/// One token added to the encoding: a token without a range stops the
/// encoding; one that spans lines or is empty is left out.
pub open spec fn encode_step(b: Seq<u8>, st: EncodeState, t: SemanticToken) -> Option<EncodeState> {
    match spec_offset_range(b, t.start_byte as int, t.end_byte as int) {
        Err(_) => None,
        Ok(r) => if r.start.line != r.end.line {
            Some(st)
        } else {
            let delta_line = (r.start.line - st.last_line) as u32;
            let delta_start = if delta_line == 0 {
                (r.start.character - st.last_start) as u32
            } else {
                r.start.character
            };
            let length = (r.end.character - r.start.character) as u32;
            if length == 0 {
                Some(st)
            } else {
                Some(
                    EncodeState {
                        data: st.data.push(
                            EncodedToken {
                                delta_line,
                                delta_start,
                                length,
                                token_type: spec_token_index(t.kind),
                                token_modifiers_bitset: spec_token_modifiers(t.kind),
                            },
                        ),
                        last_line: r.start.line,
                        last_start: r.start.character,
                    },
                )
            }
        },
    }
}

/// The encoding of tokens in order.
pub open spec fn encode_fold(b: Seq<u8>, ts: Seq<SemanticToken>) -> Option<EncodeState>
    decreases ts.len(),
{
    if ts.len() == 0 {
        Some(EncodeState { data: Seq::empty(), last_line: 0, last_start: 0 })
    } else {
        match encode_fold(b, ts.drop_last()) {
            None => None,
            Some(st) => encode_step(b, st, ts.last()),
        }
    }
}

/// A one-line token does not start before the last encoded one, nor end
/// before it starts (so that no difference of the encoding is negative).
pub open spec fn step_in_order(b: Seq<u8>, st: EncodeState, t: SemanticToken) -> bool {
    match spec_offset_range(b, t.start_byte as int, t.end_byte as int) {
        Err(_) => true,
        Ok(r) => r.start.line != r.end.line || (st.last_line <= r.start.line && (r.start.line == st.last_line
            ==> st.last_start <= r.start.character) && r.start.character <= r.end.character),
    }
}

/// Every token that the encoding reaches is in order.
pub open spec fn tokens_in_order(b: Seq<u8>, ts: Seq<SemanticToken>) -> bool
    decreases ts.len(),
{
    if ts.len() == 0 {
        true
    } else {
        tokens_in_order(b, ts.drop_last()) && match encode_fold(b, ts.drop_last()) {
            None => true,
            Some(st) => step_in_order(b, st, ts.last()),
        }
    }
}

/// Whether the tokens can be encoded relative to each other.
pub fn semantic_tokens_in_order(tokens: &[SemanticToken], document: &SourceDocument) -> (r: bool)
    ensures
        r == tokens_in_order(doc_bytes(document@), tokens@),
{
    let ghost b = doc_bytes(document@);
    let mut last_line: u32 = 0;
    let mut last_start: u32 = 0;
    let mut i: usize = 0;
    assert(tokens@.take(0) =~= Seq::<SemanticToken>::empty());
    while i < tokens.len()
        invariant
            i <= tokens@.len(),
            b == doc_bytes(document@),
            tokens_in_order(b, tokens@.take(i as int)),
            encode_fold(b, tokens@.take(i as int)) matches Some(st) && st.last_line == last_line
                && st.last_start == last_start,
        decreases tokens@.len() - i,
    {
        let ghost t = tokens@.take(i + 1);
        assert(t.drop_last() =~= tokens@.take(i as int));
        let token = tokens[i];
        let range = match document.byte_range_to_lsp_range(token.start_byte, token.end_byte) {
            Ok(r) => r,
            Err(_) => {
                proof {
                    lemma_fold_stops(b, tokens@, i + 1);
                }
                return true;
            },
        };
        if range.start.line == range.end.line {
            if range.start.line < last_line {
                proof {
                    lemma_order_prefix(b, tokens@, i + 1);
                }
                return false;
            }
            if range.start.line == last_line && range.start.character < last_start {
                proof {
                    lemma_order_prefix(b, tokens@, i + 1);
                }
                return false;
            }
            if range.end.character < range.start.character {
                proof {
                    lemma_order_prefix(b, tokens@, i + 1);
                }
                return false;
            }
            if range.end.character - range.start.character != 0 {
                last_line = range.start.line;
                last_start = range.start.character;
            }
        }
        i = i + 1;
    }
    assert(tokens@.take(tokens@.len() as int) =~= tokens@);
    true
}

proof fn lemma_order_prefix(b: Seq<u8>, ts: Seq<SemanticToken>, j: int)
    requires
        0 <= j <= ts.len(),
        !tokens_in_order(b, ts.take(j)),
    ensures
        !tokens_in_order(b, ts),
    decreases ts.len() - j,
{
    if j < ts.len() {
        assert(ts.drop_last() =~= ts.take(ts.len() - 1));
        assert(ts.drop_last().take(j) =~= ts.take(j));
        lemma_order_prefix(b, ts.drop_last(), j);
    } else {
        assert(ts.take(j) =~= ts);
    }
}

proof fn lemma_fold_stops(b: Seq<u8>, ts: Seq<SemanticToken>, j: int)
    requires
        0 <= j <= ts.len(),
        encode_fold(b, ts.take(j)) is None,
        tokens_in_order(b, ts.take(j)),
    ensures
        encode_fold(b, ts) is None,
        tokens_in_order(b, ts),
    decreases ts.len() - j,
{
    if j < ts.len() {
        assert(ts.drop_last() =~= ts.take(ts.len() - 1));
        assert(ts.drop_last().take(j) =~= ts.take(j));
        lemma_fold_stops(b, ts.drop_last(), j);
    } else {
        assert(ts.take(j) =~= ts);
    }
}

/// Encodes tokens relative to each other: each one-line, non-empty token
/// as the line difference from the last encoded token, its column (relative
/// to that token's when on the same line), its length, its type and
/// modifiers. There is no encoding when a token has no range.
pub fn encode_semantic_tokens(tokens: &[SemanticToken], document: &SourceDocument) -> (r: Option<
    Vec<EncodedToken>,
>)
    requires
        tokens_in_order(doc_bytes(document@), tokens@),
    ensures
        match encode_fold(doc_bytes(document@), tokens@) {
            None => r is None,
            Some(st) => r matches Some(v) && v@ == st.data,
        },
{
    let ghost b = doc_bytes(document@);
    let mut data: Vec<EncodedToken> = Vec::new();
    let mut last_line: u32 = 0;
    let mut last_start: u32 = 0;
    let mut i: usize = 0;
    assert(tokens@.take(0) =~= Seq::<SemanticToken>::empty());
    proof {
        lemma_order_prefix_holds(b, tokens@, tokens@.len() as int);
    }
    while i < tokens.len()
        invariant
            i <= tokens@.len(),
            b == doc_bytes(document@),
            tokens_in_order(b, tokens@),
            encode_fold(b, tokens@.take(i as int)) == Some(
                EncodeState { data: data@, last_line, last_start },
            ),
        decreases tokens@.len() - i,
    {
        let ghost t = tokens@.take(i + 1);
        assert(t.drop_last() =~= tokens@.take(i as int));
        proof {
            lemma_order_prefix_holds(b, tokens@, i + 1);
        }
        let token = tokens[i];
        let range = match document.byte_range_to_lsp_range(token.start_byte, token.end_byte) {
            Ok(r) => r,
            Err(_) => {
                proof {
                    lemma_fold_stops(b, tokens@, i + 1);
                }
                return None;
            },
        };
        if range.start.line == range.end.line {
            let delta_line = range.start.line - last_line;
            let delta_start = if delta_line == 0 {
                range.start.character - last_start
            } else {
                range.start.character
            };
            let length = range.end.character - range.start.character;
            if length != 0 {
                data.push(
                    EncodedToken {
                        delta_line,
                        delta_start,
                        length,
                        token_type: semantic_token_index(token.kind),
                        token_modifiers_bitset: semantic_token_modifiers(token.kind),
                    },
                );
                last_line = range.start.line;
                last_start = range.start.character;
            }
        }
        i = i + 1;
    }
    assert(tokens@.take(tokens@.len() as int) =~= tokens@);
    Some(data)
}

proof fn lemma_order_prefix_holds(b: Seq<u8>, ts: Seq<SemanticToken>, j: int)
    requires
        0 <= j <= ts.len(),
        tokens_in_order(b, ts),
    ensures
        tokens_in_order(b, ts.take(j)),
    decreases ts.len() - j,
{
    if j < ts.len() {
        assert(ts.drop_last() =~= ts.take(ts.len() - 1));
        assert(ts.drop_last().take(j) =~= ts.take(j));
        lemma_order_prefix_holds(b, ts.drop_last(), j);
    } else {
        assert(ts.take(j) =~= ts);
    }
}

} // verus!
