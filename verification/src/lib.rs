//! Semantic analysis for the Vest binary-format DSL: the high-level
//! intermediate representation (HIR), its type checker, wire-length and
//! hover computation, symbol resolution, and source-position arithmetic.
pub mod check;
pub mod db;
pub mod hover;
pub mod input;
pub mod names;
pub mod parse;
pub mod requests;
pub mod source;
pub mod symbols;
pub mod syntax;
pub mod text;
pub mod types;
pub mod hir_view;
pub mod lower;
