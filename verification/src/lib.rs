//! An interactive term-rewriting engine.
//!
//! Expressions are first-order terms built from variables and uninterpreted
//! functors. A rewrite rule `L => R` is applied to the current term at an
//! exact depth: every sub-term at that depth that matches the pattern `L`
//! is replaced by the `R`-image of the match. A session machine keeps the
//! history of rewritten terms, a table of named rules, and a derivation log
//! that can be rendered as a transcript.

pub mod engine;
pub mod error;
pub mod lexer;
pub mod parser;
pub mod runtime;
pub mod term;
