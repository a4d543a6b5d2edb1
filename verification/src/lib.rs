//! Arithmetic expression trees with priority-array precedence resolution.
//!
//! The crate turns an already-tokenized parse tree into a binary expression
//! tree: every leaf and operator is classified with an integer priority
//! weight, and a flat sequence of weighted nodes is reduced, highest weight
//! first, into a single `BinaryNode` tree ready for evaluation.

pub mod ast;
pub mod builder;
pub mod resolver;
pub mod precedence;
