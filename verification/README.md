# vest_db

Semantic analysis for the Vest binary-format language, written in Verus: every
function of the library carries a `requires` / `ensures` contract that Verus
proves against the code.

## Layout

- `src/` — the verified library.
  - `db` — the identifier table (one handle per distinct text).
  - `types`, `hir_view` — the HIR and its mathematical model.
  - `lower` — lowering of a concrete syntax tree (`syntax::SyntaxNode`) to the
    HIR, specified construct by construct.
  - `check` — host-type inference and semantic diagnostics, with lazily built
    signatures of the definitions.
  - `hover` — wire-length expressions and bounds, hover contents.
  - `symbols` — resolution, declarations under a cursor, and the occurrences
    of every symbol of a file.
  - `requests` — answers to editor requests (definitions, references,
    renames, completion, diagnostics with positions, semantic tokens).
  - `source` — open documents, byte offset / UTF-16 position conversion and
    incremental edits.
  - `syntax`, `parse` — syntax errors and semantic tokens of a parse.
  - `names`, `text`, `input` — identifier rules, string helpers, source files.
- `tests/` — tests of the library; `tests/analysis.rs` holds a small builder of
  syntax trees in the shapes the Vest grammar produces.
- `app/` — the language server: LSP over standard input and output, the
  tree-sitter parse and highlight query, and the workspace of open documents.
  It hands the library plain values and syntax trees.

## Building the server

The server links the Vest tree-sitter grammar (`tree_sitter_vest`) and reads
its highlight query from the file named by `VEST_HIGHLIGHTS_QUERY`; neither is
part of this repository.
