//! Call-graph and signature extraction for Rust source text.
//!
//! The analyses walk a syntax tree of plain values ([`syntax::SyntaxNode`]);
//! the module [`parser`] obtains such a tree from the tree-sitter parser.

pub mod callgraph;
pub mod dataflow;
pub mod parser;
pub mod syntax;
pub mod text;
