//! Syntax-level results of a parse: syntax errors and the semantic tokens
//! given by the highlight query's captures.
use vstd::prelude::*;

use crate::text::{
    byte_slice, owned, push_str, spec_byte_slice, spec_trim, spec_trim_end, str_eq, take_chars, trim_end_str,
    trim_str,
};
use vstd::utf8::encode_utf8;

verus! {

/// A syntax error and the bytes it covers.
#[derive(Debug, Clone, PartialEq, Eq, Hash)]
pub struct SyntaxDiagnostic {
    pub message: String,
    pub start_byte: usize,
    pub end_byte: usize,
}

/// Kind of a highlighted token.
#[derive(Debug, Clone, Copy, PartialEq, Eq, Hash, Structural)]
pub enum SemanticTokenKind {
    Keyword,
    Modifier,
    Type,
    Function,
    Macro,
    Property,
    Constant,
    Parameter,
    Variable,
    EnumMember,
    Number,
    String,
    Operator,
    Comment,
}

/// A highlighted token and the bytes it covers.
#[derive(Debug, Clone, Copy, PartialEq, Eq, Hash, Structural)]
pub struct SemanticToken {
    pub kind: SemanticTokenKind,
    pub start_byte: usize,
    pub end_byte: usize,
}

/// A capture of the highlight query: the capture's name and the bytes of
/// the captured node.
pub struct Capture {
    pub name: String,
    pub start_byte: usize,
    pub end_byte: usize,
}

/// The token kind of a capture name of the highlight query.
pub open spec fn spec_kind_for_capture(name: Seq<char>) -> Option<SemanticTokenKind> {
    if name == "comment"@ {
        Some(SemanticTokenKind::Comment)
    } else if name == "constant"@ {
        Some(SemanticTokenKind::Constant)
    } else if name == "function.call"@ || name == "function.definition"@ {
        Some(SemanticTokenKind::Function)
    } else if name == "function.macro"@ {
        Some(SemanticTokenKind::Macro)
    } else if name == "keyword"@ || name == "keyword.directive"@ {
        Some(SemanticTokenKind::Keyword)
    } else if name == "keyword.modifier"@ {
        Some(SemanticTokenKind::Modifier)
    } else if name == "number"@ {
        Some(SemanticTokenKind::Number)
    } else if name == "operator"@ {
        Some(SemanticTokenKind::Operator)
    } else if name == "property"@ {
        Some(SemanticTokenKind::Property)
    } else if name == "string"@ || name == "string.special"@ {
        Some(SemanticTokenKind::String)
    } else if name == "type.builtin"@ {
        Some(SemanticTokenKind::Type)
    } else if name == "type.enum.variant"@ {
        Some(SemanticTokenKind::EnumMember)
    } else if name == "variable.parameter"@ {
        Some(SemanticTokenKind::Parameter)
    } else {
        None
    }
}

/// The token kind of a capture name of the highlight query.
pub fn semantic_kind_for_capture(capture_name: &str) -> (r: Option<SemanticTokenKind>)
    ensures
        r == spec_kind_for_capture(capture_name@),
{
    if str_eq(capture_name, "comment") {
        Some(SemanticTokenKind::Comment)
    } else if str_eq(capture_name, "constant") {
        Some(SemanticTokenKind::Constant)
    } else if str_eq(capture_name, "function.call") || str_eq(capture_name, "function.definition") {
        Some(SemanticTokenKind::Function)
    } else if str_eq(capture_name, "function.macro") {
        Some(SemanticTokenKind::Macro)
    } else if str_eq(capture_name, "keyword") || str_eq(capture_name, "keyword.directive") {
        Some(SemanticTokenKind::Keyword)
    } else if str_eq(capture_name, "keyword.modifier") {
        Some(SemanticTokenKind::Modifier)
    } else if str_eq(capture_name, "number") {
        Some(SemanticTokenKind::Number)
    } else if str_eq(capture_name, "operator") {
        Some(SemanticTokenKind::Operator)
    } else if str_eq(capture_name, "property") {
        Some(SemanticTokenKind::Property)
    } else if str_eq(capture_name, "string") || str_eq(capture_name, "string.special") {
        Some(SemanticTokenKind::String)
    } else if str_eq(capture_name, "type.builtin") {
        Some(SemanticTokenKind::Type)
    } else if str_eq(capture_name, "type.enum.variant") {
        Some(SemanticTokenKind::EnumMember)
    } else if str_eq(capture_name, "variable.parameter") {
        Some(SemanticTokenKind::Parameter)
    } else {
        None
    }
}

/// Tokens of captures in order: captures of names without a kind and empty
/// captures are dropped, and a token equal to the one before it is not
/// repeated.
pub open spec fn capture_tokens(cs: Seq<Capture>) -> Seq<SemanticToken>
    decreases cs.len(),
{
    if cs.len() == 0 {
        Seq::empty()
    } else {
        let prev = capture_tokens(cs.drop_last());
        let c = cs.last();
        match spec_kind_for_capture(c.name@) {
            None => prev,
            Some(kind) => {
                let t = SemanticToken { kind, start_byte: c.start_byte, end_byte: c.end_byte };
                if c.start_byte == c.end_byte || (prev.len() > 0 && prev.last() == t) {
                    prev
                } else {
                    prev.push(t)
                }
            },
        }
    }
}

/// Semantic tokens of the highlight query's captures, in capture order.
pub fn collect_semantic_tokens(captures: &Vec<Capture>) -> (r: Vec<SemanticToken>)
    ensures
        r@ == capture_tokens(captures@),
{
    let mut tokens: Vec<SemanticToken> = Vec::new();
    let mut i: usize = 0;
    assert(captures@.take(0) =~= Seq::<Capture>::empty());
    while i < captures.len()
        invariant
            i <= captures@.len(),
            tokens@ == capture_tokens(captures@.take(i as int)),
        decreases captures@.len() - i,
    {
        assert(captures@.take(i + 1).drop_last() =~= captures@.take(i as int));
        let capture = &captures[i];
        match semantic_kind_for_capture(capture.name.as_str()) {
            None => {},
            Some(kind) => {
                if capture.start_byte != capture.end_byte {
                    let token = SemanticToken { kind, start_byte: capture.start_byte, end_byte: capture.end_byte };
                    let n = tokens.len();
                    if n == 0 || tokens[n - 1] != token {
                        tokens.push(token);
                    }
                }
            },
        }
        i = i + 1;
    }
    assert(captures@.take(captures@.len() as int) =~= captures@);
    tokens
}

/// A node of a concrete syntax tree: its kind, whether the parser made it
/// to skip text it could not parse or to stand for a missing token, the
/// bytes it covers and its children.
pub struct SyntaxNode {
    pub kind: String,
    pub is_error: bool,
    pub is_missing: bool,
    pub start_byte: usize,
    pub end_byte: usize,
    pub children: Vec<SyntaxNode>,
}

/// A diagnostic as a value: message, start byte, end byte.
pub open spec fn diag_model(d: SyntaxDiagnostic) -> (Seq<char>, usize, usize) {
    (d.message@, d.start_byte, d.end_byte)
}

pub open spec fn diag_models(v: Seq<SyntaxDiagnostic>) -> Seq<(Seq<char>, usize, usize)> {
    Seq::new(v.len(), |i: int| diag_model(v[i]))
}

/// Where the text ends once its trailing white space is dropped.
pub open spec fn spec_trimmed_end(source: Seq<char>) -> usize {
    encode_utf8(spec_trim_end(source)).len() as usize
}

/// At most the first 24 characters of `s`.
pub open spec fn snippet_prefix(s: Seq<char>) -> Seq<char> {
    if s.len() <= 24 {
        s
    } else {
        s.take(24)
    }
}

/// The diagnostic of a node the parser skipped: at the end of the text it
/// reports the end of file; elsewhere it quotes the node's text, trimmed and
/// cut to 24 characters.
pub open spec fn error_diag(source: Seq<char>, trimmed_end: usize, n: SyntaxNode) -> (Seq<char>, usize, usize) {
    if n.end_byte >= trimmed_end {
        ("Unexpected end of file"@, trimmed_end, trimmed_end)
    } else {
        let text = match spec_byte_slice(source, n.start_byte as int, n.end_byte as int) {
            Some(t) => t,
            None => Seq::empty(),
        };
        let shown = snippet_prefix(spec_trim(text));
        (
            if shown.len() == 0 {
                "Unexpected syntax"@
            } else {
                "Unexpected syntax near `"@ + shown + "`"@
            },
            n.start_byte,
            n.end_byte,
        )
    }
}

/// The diagnostics of a node itself: one if it was skipped, one if it
/// stands for a missing token.
pub open spec fn own_diags(source: Seq<char>, trimmed_end: usize, n: SyntaxNode) -> Seq<(Seq<char>, usize, usize)> {
    (if n.is_error {
        seq![error_diag(source, trimmed_end, n)]
    } else {
        Seq::empty()
    }) + (if n.is_missing {
        seq![("Expected "@ + n.kind@, n.start_byte, n.end_byte)]
    } else {
        Seq::empty()
    })
}

/// Diagnostics of a tree in the order a stack visits it: a node, then its
/// children from the last to the first.
pub open spec fn tree_diags(source: Seq<char>, trimmed_end: usize, n: SyntaxNode) -> Seq<(Seq<char>, usize, usize)>
    decreases n, 0int,
{
    own_diags(source, trimmed_end, n) + rev_children_diags(source, trimmed_end, n.children@, 0)
}

/// Diagnostics of the children from the last down to child `j`.
pub open spec fn rev_children_diags(source: Seq<char>, trimmed_end: usize, cs: Seq<SyntaxNode>, j: int) -> Seq<
    (Seq<char>, usize, usize),
>
    decreases cs, cs.len() - j,
{
    if j < 0 || j >= cs.len() {
        Seq::empty()
    } else {
        rev_children_diags(source, trimmed_end, cs, j + 1) + tree_diags(source, trimmed_end, cs[j])
    }
}

/// `s` with every repetition of an earlier element dropped.
pub open spec fn dedup_first<T>(s: Seq<T>) -> Seq<T>
    decreases s.len(),
{
    if s.len() == 0 {
        Seq::empty()
    } else if s.drop_last().contains(s.last()) {
        dedup_first(s.drop_last())
    } else {
        dedup_first(s.drop_last()).push(s.last())
    }
}

/// Diagnostics are ordered by start byte, then end byte.
pub open spec fn span_le(a: (Seq<char>, usize, usize), b: (Seq<char>, usize, usize)) -> bool {
    a.1 < b.1 || (a.1 == b.1 && a.2 <= b.2)
}

/// Index after the last element not after `x` in order, for a sorted `s`.
pub open spec fn upper_index(s: Seq<(Seq<char>, usize, usize)>, x: (Seq<char>, usize, usize)) -> int
    decreases s.len(),
{
    if s.len() == 0 {
        0
    } else if span_le(s.last(), x) {
        s.len() as int
    } else {
        upper_index(s.drop_last(), x)
    }
}

/// A stable insertion sort by span.
pub open spec fn sort_by_span(s: Seq<(Seq<char>, usize, usize)>) -> Seq<(Seq<char>, usize, usize)>
    decreases s.len(),
{
    if s.len() == 0 {
        Seq::empty()
    } else {
        let sorted = sort_by_span(s.drop_last());
        sorted.insert(upper_index(sorted, s.last()), s.last())
    }
}

proof fn lemma_dedup_contains<T>(s: Seq<T>, x: T)
    ensures
        dedup_first(s).contains(x) <==> s.contains(x),
    decreases s.len(),
{
    if s.len() > 0 {
        lemma_dedup_contains(s.drop_last(), x);
        if s.drop_last().contains(x) {
            let i = choose|i: int| 0 <= i < s.drop_last().len() && s.drop_last()[i] == x;
            assert(s[i] == x);
        }
        if s.contains(x) {
            let i = choose|i: int| 0 <= i < s.len() && s[i] == x;
            if i < s.len() - 1 {
                assert(s.drop_last()[i] == x);
            }
        }
        if !s.drop_last().contains(s.last()) {
            assert(dedup_first(s).last() == s.last());
            if x == s.last() {
                assert(dedup_first(s)[dedup_first(s).len() - 1] == x);
            }
            if dedup_first(s.drop_last()).contains(x) {
                let i = choose|i: int|
                    0 <= i < dedup_first(s.drop_last()).len() && dedup_first(s.drop_last())[i] == x;
                assert(dedup_first(s)[i] == x);
            }
            if dedup_first(s).contains(x) {
                let i = choose|i: int| 0 <= i < dedup_first(s).len() && dedup_first(s)[i] == x;
                if i < dedup_first(s).len() - 1 {
                    assert(dedup_first(s.drop_last())[i] == x);
                }
            }
        }
    }
}

proof fn lemma_models_push(v: Seq<SyntaxDiagnostic>, d: SyntaxDiagnostic)
    ensures
        diag_models(v.push(d)) == diag_models(v).push(diag_model(d)),
{
    assert(diag_models(v.push(d)) =~= diag_models(v).push(diag_model(d)));
}

/// Appends a diagnostic unless an equal one was already seen.
fn push_unique(out: &mut Vec<SyntaxDiagnostic>, d: SyntaxDiagnostic, Ghost(seen): Ghost<Seq<(Seq<char>, usize, usize)>>)
    requires
        diag_models(old(out)@) == dedup_first(seen),
    ensures
        diag_models(final(out)@) == dedup_first(seen.push(diag_model(d))),
{
    let ghost x = diag_model(d);
    proof {
        lemma_dedup_contains(seen, x);
        assert(seen.push(x).drop_last() =~= seen);
    }
    let mut i: usize = 0;
    while i < out.len()
        invariant
            i <= out@.len(),
            diag_models(out@) == dedup_first(seen),
            x == diag_model(d),
            forall|j: int| 0 <= j < i ==> diag_model(#[trigger] out@[j]) != x,
        decreases out@.len() - i,
    {
        if out[i].start_byte == d.start_byte && out[i].end_byte == d.end_byte && crate::text::str_eq(
            out[i].message.as_str(),
            d.message.as_str(),
        ) {
            proof {
                assert(diag_models(out@)[i as int] == x);
                assert(dedup_first(seen).contains(x));
                lemma_dedup_contains(seen, x);
                assert(seen.push(x).drop_last() =~= seen);
            }
            return;
        }
        i = i + 1;
    }
    proof {
        assert(!diag_models(out@).contains(x)) by {
            if diag_models(out@).contains(x) {
                let j = choose|j: int| 0 <= j < diag_models(out@).len() && diag_models(out@)[j] == x;
                assert(diag_model(out@[j]) == x);
            }
        }
        lemma_models_push(out@, d);
    }
    out.push(d);
}

/// The diagnostic of a node the parser skipped.
fn error_diagnostic(source: &str, trimmed_end: usize, node: &SyntaxNode) -> (d: SyntaxDiagnostic)
    ensures
        diag_model(d) == error_diag(source@, trimmed_end, *node),
{
    if node.end_byte >= trimmed_end {
        return SyntaxDiagnostic {
            message: owned("Unexpected end of file"),
            start_byte: trimmed_end,
            end_byte: trimmed_end,
        };
    }
    let text: &str = match byte_slice(source, node.start_byte, node.end_byte) {
        Some(t) => t,
        None => {
            proof {
                reveal_strlit("");
            }
            ""
        },
    };
    let trimmed = trim_str(text);
    let shown = take_chars(trimmed, 24);
    proof {
        if trimmed@.len() <= 24 {
            assert(trimmed@.take(trimmed@.len() as int) =~= trimmed@);
        }
    }
    let message = if shown.is_empty() {
        owned("Unexpected syntax")
    } else {
        let mut m = owned("Unexpected syntax near `");
        push_str(&mut m, shown);
        push_str(&mut m, "`");
        m
    };
    SyntaxDiagnostic { message, start_byte: node.start_byte, end_byte: node.end_byte }
}

/// Appends the diagnostics of a tree, in the order a stack visits it,
/// skipping those already seen.
fn collect_node_diagnostics(
    source: &str,
    trimmed_end: usize,
    node: &SyntaxNode,
    out: &mut Vec<SyntaxDiagnostic>,
    Ghost(seen): Ghost<Seq<(Seq<char>, usize, usize)>>,
)
    requires
        diag_models(old(out)@) == dedup_first(seen),
    ensures
        diag_models(final(out)@) == dedup_first(seen + tree_diags(source@, trimmed_end, *node)),
    decreases node,
{
    let ghost mut acc = seen;
    if node.is_error {
        let d = error_diagnostic(source, trimmed_end, node);
        let ghost x = diag_model(d);
        push_unique(out, d, Ghost(acc));
        proof {
            acc = acc.push(x);
        }
    }
    if node.is_missing {
        let mut message = owned("Expected ");
        push_str(&mut message, node.kind.as_str());
        let d = SyntaxDiagnostic { message, start_byte: node.start_byte, end_byte: node.end_byte };
        let ghost x = diag_model(d);
        push_unique(out, d, Ghost(acc));
        proof {
            acc = acc.push(x);
        }
    }
    proof {
        assert(acc =~= seen + own_diags(source@, trimmed_end, *node));
    }
    let ghost cs = node.children@;
    let mut i: usize = node.children.len();
    proof {
        assert(acc + rev_children_diags(source@, trimmed_end, cs, i as int) =~= acc);
    }
    while i > 0
        invariant
            i <= cs.len(),
            cs == node.children@,
            diag_models(out@) == dedup_first(acc + rev_children_diags(source@, trimmed_end, cs, i as int)),
        decreases i,
    {
        let ghost before = acc + rev_children_diags(source@, trimmed_end, cs, i as int);
        collect_node_diagnostics(source, trimmed_end, &node.children[i - 1], out, Ghost(before));
        proof {
            assert(before + tree_diags(source@, trimmed_end, cs[i - 1]) =~= acc + rev_children_diags(
                source@,
                trimmed_end,
                cs,
                i - 1,
            ));
        }
        i = i - 1;
    }
    proof {
        assert(acc + rev_children_diags(source@, trimmed_end, cs, 0) =~= seen + tree_diags(
            source@,
            trimmed_end,
            *node,
        ));
    }
}

proof fn lemma_models_insert(v: Seq<SyntaxDiagnostic>, j: int, d: SyntaxDiagnostic)
    requires
        0 <= j <= v.len(),
    ensures
        diag_models(v.insert(j, d)) == diag_models(v).insert(j, diag_model(d)),
{
    assert(diag_models(v.insert(j, d)) =~= diag_models(v).insert(j, diag_model(d)));
}

/// Inserts a diagnostic after every one not after it in span order.
fn insert_by_span(sorted: &mut Vec<SyntaxDiagnostic>, d: SyntaxDiagnostic)
    ensures
        diag_models(final(sorted)@) == diag_models(old(sorted)@).insert(
            upper_index(diag_models(old(sorted)@), diag_model(d)),
            diag_model(d),
        ),
{
    let ghost m = diag_models(sorted@);
    let ghost x = diag_model(d);
    let mut j: usize = sorted.len();
    assert(m.take(j as int) =~= m);
    while j > 0 && !(sorted[j - 1].start_byte < d.start_byte || (sorted[j - 1].start_byte == d.start_byte
        && sorted[j - 1].end_byte <= d.end_byte))
        invariant
            j <= sorted@.len(),
            m == diag_models(sorted@),
            x == diag_model(d),
            upper_index(m, x) == upper_index(m.take(j as int), x),
        decreases j,
    {
        assert(m.take(j as int).drop_last() =~= m.take(j - 1));
        j = j - 1;
    }
    proof {
        if j > 0 {
            assert(m.take(j as int).last() == m[j - 1]);
        }
        lemma_models_insert(sorted@, j as int, d);
    }
    sorted.insert(j, d);
}

/// Syntax diagnostics of a tree: skipped nodes and missing tokens, each
/// distinct diagnostic once, ordered by start byte and then end byte (those
/// with equal spans in the order a stack visits the tree).
pub fn collect_syntax_diagnostics(root: &SyntaxNode, source: &str) -> (r: Vec<SyntaxDiagnostic>)
    ensures
        diag_models(r@) == sort_by_span(dedup_first(tree_diags(source@, spec_trimmed_end(source@), *root))),
{
    let trimmed_end = trim_end_str(source).len();
    let mut diagnostics: Vec<SyntaxDiagnostic> = Vec::new();
    proof {
        assert(diag_models(diagnostics@) =~= dedup_first(Seq::<(Seq<char>, usize, usize)>::empty()));
    }
    collect_node_diagnostics(source, trimmed_end, root, &mut diagnostics, Ghost(Seq::empty()));
    let ghost all = diag_models(diagnostics@);
    proof {
        assert(Seq::<(Seq<char>, usize, usize)>::empty() + tree_diags(source@, trimmed_end, *root) =~= tree_diags(
            source@,
            trimmed_end,
            *root,
        ));
    }
    let mut sorted: Vec<SyntaxDiagnostic> = Vec::new();
    let ghost mut k: int = 0;
    proof {
        assert(all.take(0) =~= Seq::<(Seq<char>, usize, usize)>::empty());
        assert(diag_models(sorted@) =~= Seq::<(Seq<char>, usize, usize)>::empty());
        assert(diag_models(diagnostics@) =~= all.skip(0));
    }
    while diagnostics.len() > 0
        invariant
            0 <= k <= all.len(),
            diag_models(diagnostics@) == all.skip(k),
            diag_models(sorted@) == sort_by_span(all.take(k)),
        decreases diagnostics@.len(),
    {
        let ghost before = diagnostics@;
        let d = diagnostics.remove(0);
        proof {
            assert(diag_models(before) == all.skip(k));
            assert(diag_models(before).len() == before.len());
            assert(k < all.len());
            assert(diag_models(before)[0] == diag_model(d));
            assert(all.skip(k)[0] == all[k]);
            assert(all[k] == diag_model(d));
            assert forall|j: int| 0 <= j < diagnostics@.len() implies #[trigger] diag_models(diagnostics@)[j]
                == all.skip(k + 1)[j] by {
                assert(diagnostics@[j] == before[j + 1]);
                assert(diag_models(before)[j + 1] == all.skip(k)[j + 1]);
                assert(all.skip(k)[j + 1] == all[k + j + 1]);
                assert(all.skip(k + 1)[j] == all[k + 1 + j]);
            }
            assert(diag_models(diagnostics@) =~= all.skip(k + 1));
            assert(all.take(k + 1).drop_last() =~= all.take(k));
        }
        insert_by_span(&mut sorted, d);
        proof {
            k = k + 1;
        }
    }
    proof {
        assert(all.take(k) =~= all);
    }
    sorted
}

/// Ordered by span.
pub open spec fn span_sorted(s: Seq<(Seq<char>, usize, usize)>) -> bool {
    forall|i: int, j: int| 0 <= i < j < s.len() ==> span_le(#[trigger] s[i], #[trigger] s[j])
}

proof fn lemma_upper_index(s: Seq<(Seq<char>, usize, usize)>, x: (Seq<char>, usize, usize))
    requires
        span_sorted(s),
    ensures
        0 <= upper_index(s, x) <= s.len(),
        forall|i: int| 0 <= i < upper_index(s, x) ==> span_le(#[trigger] s[i], x),
        forall|i: int| upper_index(s, x) <= i < s.len() ==> !span_le(#[trigger] s[i], x),
    decreases s.len(),
{
    if s.len() > 0 {
        let t = s.drop_last();
        assert forall|i: int, j: int| 0 <= i < j < t.len() implies span_le(#[trigger] t[i], #[trigger] t[j]) by {
            assert(span_le(s[i], s[j]));
        }
        lemma_upper_index(t, x);
        if span_le(s.last(), x) {
            assert forall|i: int| 0 <= i < s.len() implies span_le(#[trigger] s[i], x) by {
                if i < s.len() - 1 {
                    assert(span_le(s[i], s[s.len() - 1]));
                }
            }
        } else {
            assert forall|i: int| upper_index(s, x) <= i < s.len() implies !span_le(#[trigger] s[i], x) by {
                if i < s.len() - 1 {
                    assert(t[i] == s[i]);
                }
            }
            assert forall|i: int| 0 <= i < upper_index(s, x) implies span_le(#[trigger] s[i], x) by {
                assert(t[i] == s[i]);
            }
        }
    }
}

/// The diagnostics come out ordered by start byte, then end byte.
pub proof fn lemma_sort_by_span_sorted(s: Seq<(Seq<char>, usize, usize)>)
    ensures
        span_sorted(sort_by_span(s)),
        sort_by_span(s).len() == s.len(),
    decreases s.len(),
{
    if s.len() > 0 {
        let sorted = sort_by_span(s.drop_last());
        lemma_sort_by_span_sorted(s.drop_last());
        let x = s.last();
        let u = upper_index(sorted, x);
        lemma_upper_index(sorted, x);
        let r = sorted.insert(u, x);
        assert forall|i: int, j: int| 0 <= i < j < r.len() implies span_le(#[trigger] r[i], #[trigger] r[j]) by {
            if j < u {
                assert(span_le(sorted[i], sorted[j]));
            } else if j == u {
                assert(span_le(sorted[i], x));
            } else if i < u {
                assert(span_le(sorted[i], sorted[j - 1]));
            } else if i == u {
                assert(!span_le(sorted[j - 1], x));
            } else {
                assert(span_le(sorted[i - 1], sorted[j - 1]));
            }
        }
    }
}

/// No diagnostic is reported twice.
pub proof fn lemma_dedup_first_distinct<T>(s: Seq<T>)
    ensures
        forall|i: int, j: int|
            0 <= i < j < dedup_first(s).len() ==> #[trigger] dedup_first(s)[i] != #[trigger] dedup_first(s)[j],
    decreases s.len(),
{
    if s.len() > 0 {
        lemma_dedup_first_distinct(s.drop_last());
        if s.drop_last().contains(s.last()) {
            assert(dedup_first(s) == dedup_first(s.drop_last()));
        } else {
            let d = dedup_first(s.drop_last());
            lemma_dedup_contains(s.drop_last(), s.last());
            assert forall|i: int, j: int| 0 <= i < j < dedup_first(s).len() implies #[trigger] dedup_first(s)[i]
                != #[trigger] dedup_first(s)[j] by {
                if j == d.len() {
                    assert(dedup_first(s)[i] == d[i]);
                    if d[i] == s.last() {
                        assert(d.contains(s.last()));
                    }
                } else {
                    assert(dedup_first(s)[i] == d[i]);
                    assert(dedup_first(s)[j] == d[j]);
                }
            }
        }
    }
}

proof fn lemma_sort_contains(s: Seq<(Seq<char>, usize, usize)>, x: (Seq<char>, usize, usize))
    ensures
        sort_by_span(s).contains(x) <==> s.contains(x),
        sort_by_span(s).len() == s.len(),
    decreases s.len(),
{
    if s.len() > 0 {
        let t = s.drop_last();
        let sorted = sort_by_span(t);
        lemma_sort_contains(t, x);
        lemma_sort_by_span_sorted(t);
        let u = upper_index(sorted, s.last());
        lemma_upper_index(sorted, s.last());
        let r = sorted.insert(u, s.last());
        if r.contains(x) {
            let i = choose|i: int| 0 <= i < r.len() && r[i] == x;
            if i < u {
                assert(sorted[i] == x);
            } else if i > u {
                assert(sorted[i - 1] == x);
            }
            if x != s.last() {
                let j = choose|j: int| 0 <= j < sorted.len() && sorted[j] == x;
                let k = choose|k: int| 0 <= k < t.len() && t[k] == x;
                assert(s[k] == x);
            }
        }
        if s.contains(x) {
            let i = choose|i: int| 0 <= i < s.len() && s[i] == x;
            if i == s.len() - 1 {
                assert(r[u] == x);
            } else {
                assert(t[i] == x);
                let j = choose|j: int| 0 <= j < sorted.len() && sorted[j] == x;
                if j < u {
                    assert(r[j] == x);
                } else {
                    assert(r[j + 1] == x);
                }
            }
        }
    }
}

/// Sorting a list without repetitions leaves it without repetitions: no
/// syntax diagnostic is reported twice.
pub proof fn lemma_sort_by_span_distinct(s: Seq<(Seq<char>, usize, usize)>)
    requires
        forall|i: int, j: int| 0 <= i < j < s.len() ==> #[trigger] s[i] != #[trigger] s[j],
    ensures
        forall|i: int, j: int|
            0 <= i < j < sort_by_span(s).len() ==> #[trigger] sort_by_span(s)[i] != #[trigger] sort_by_span(s)[j],
    decreases s.len(),
{
    if s.len() > 0 {
        let t = s.drop_last();
        assert forall|i: int, j: int| 0 <= i < j < t.len() implies #[trigger] t[i] != #[trigger] t[j] by {
            assert(s[i] != s[j]);
        }
        lemma_sort_by_span_distinct(t);
        let sorted = sort_by_span(t);
        let x = s.last();
        lemma_sort_contains(t, x);
        assert(!t.contains(x)) by {
            if t.contains(x) {
                let k = choose|k: int| 0 <= k < t.len() && t[k] == x;
                assert(s[k] != s[s.len() - 1]);
            }
        }
        lemma_sort_by_span_sorted(t);
        let u = upper_index(sorted, x);
        lemma_upper_index(sorted, x);
        let r = sorted.insert(u, x);
        assert forall|i: int, j: int| 0 <= i < j < r.len() implies #[trigger] r[i] != #[trigger] r[j] by {
            if i == u {
                assert(r[j] == sorted[j - 1]);
                assert(sorted.contains(sorted[j - 1]));
            } else if j == u {
                assert(r[i] == sorted[i]);
                assert(sorted.contains(sorted[i]));
            } else {
                let i1 = if i < u { i } else { i - 1 };
                let j1 = if j < u { j } else { j - 1 };
                assert(r[i] == sorted[i1]);
                assert(r[j] == sorted[j1]);
            }
        }
    }
}

/// The syntax diagnostics of a tree come out ordered by span, each
/// distinct diagnostic once.
pub proof fn lemma_syntax_diagnostics_sorted_distinct(source: Seq<char>, trimmed_end: usize, root: SyntaxNode)
    ensures
        span_sorted(sort_by_span(dedup_first(tree_diags(source, trimmed_end, root)))),
        forall|i: int, j: int|
            0 <= i < j < sort_by_span(dedup_first(tree_diags(source, trimmed_end, root))).len() ==> #[trigger] sort_by_span(
                dedup_first(tree_diags(source, trimmed_end, root)),
            )[i] != #[trigger] sort_by_span(dedup_first(tree_diags(source, trimmed_end, root)))[j],
{
    let d = dedup_first(tree_diags(source, trimmed_end, root));
    lemma_sort_by_span_sorted(d);
    lemma_dedup_first_distinct(tree_diags(source, trimmed_end, root));
    lemma_sort_by_span_distinct(d);
}

} // verus!
