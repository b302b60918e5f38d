//! A verified formula-evaluation engine for a grid of addressable cells.
//!
//! Formulas are parsed into an expression tree, inter-cell dependencies are
//! tracked in a directed acyclic graph, edits that would close a dependency
//! cycle are rejected with an exact rollback, and affected cells are
//! recomputed in an order that respects their dependencies.

pub mod ast;
pub mod text;
pub mod parser;
pub mod eval;
pub mod graph;
pub mod recompute;
pub mod engine;
pub mod editor;
pub mod roundtrip;
pub mod search;
