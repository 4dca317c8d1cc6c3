//! Syntax metadata of a parsed source file.
use vstd::prelude::*;

use crate::input::SourceFile;
use crate::syntax::{
    capture_tokens, collect_semantic_tokens, collect_syntax_diagnostics, diag_models, dedup_first, sort_by_span,
    spec_trimmed_end, tree_diags, Capture, SemanticToken, SyntaxDiagnostic, SyntaxNode,
};

verus! {

/// Whether a tree holds a node the parser made to skip text or to stand
/// for a missing token.
pub open spec fn tree_has_error(n: SyntaxNode) -> bool
    decreases n, 0int,
{
    n.is_error || n.is_missing || children_have_error(n.children@, 0)
}

/// Whether one of the trees from index `j` on holds an error.
pub open spec fn children_have_error(cs: Seq<SyntaxNode>, j: int) -> bool
    decreases cs, cs.len() - j,
{
    if j < 0 || j >= cs.len() {
        false
    } else {
        tree_has_error(cs[j]) || children_have_error(cs, j + 1)
    }
}

/// Syntax metadata of a parsed source file.
pub struct ParseResult {
    /// The source file this was parsed from.
    pub source: SourceFile,
    /// Syntax diagnostics (errors found during parsing).
    pub diagnostics: Vec<SyntaxDiagnostic>,
    /// Semantic tokens derived from the highlight captures of the tree.
    pub semantic_tokens: Vec<SemanticToken>,
    /// Whether the parse tree has any errors.
    pub has_errors: bool,
}

/// Whether a tree holds an error or missing node.
pub fn has_error(n: &SyntaxNode) -> (r: bool)
    ensures
        r == tree_has_error(*n),
    decreases n,
{
    if n.is_error || n.is_missing {
        return true;
    }
    let ghost cs = n.children@;
    let mut i: usize = 0;
    while i < n.children.len()
        invariant
            i <= cs.len(),
            cs == n.children@,
            children_have_error(cs, 0) == children_have_error(cs, i as int),
        decreases cs.len() - i,
    {
        if has_error(&n.children[i]) {
            return true;
        }
        i = i + 1;
    }
    false
}

/// The syntax metadata of a source file from its syntax tree and the
/// captures of the highlight query on that tree.
pub fn parse_file(source: &SourceFile, root: &SyntaxNode, captures: &Vec<Capture>) -> (r: ParseResult)
    ensures
        r.source.uri@ == source.uri@,
        r.source.version == source.version,
        r.source.text@ == source.text@,
        diag_models(r.diagnostics@) == sort_by_span(
            dedup_first(tree_diags(source.text@, spec_trimmed_end(source.text@), *root)),
        ),
        r.semantic_tokens@ == capture_tokens(captures@),
        r.has_errors == tree_has_error(*root),
{
    let diagnostics = collect_syntax_diagnostics(root, source.text());
    let semantic_tokens = collect_semantic_tokens(captures);
    let has_errors = has_error(root);
    ParseResult { source: source.duplicate(), diagnostics, semantic_tokens, has_errors }
}

} // verus!
