//! A tree-walking interpreter for a minimal S-expression language.
//!
//! The pipeline runs strictly forward: source text is tokenized, the token
//! stream is parsed into a single syntax tree, and the tree is evaluated
//! against an arena of lexical scopes.  Floating-point values are carried
//! everywhere as IEEE 754 binary64 bit patterns (`u64`); the arithmetic on
//! those bit patterns is delegated to a software float library behind a
//! small set of trusted wrappers.

pub mod eval;
pub mod fp;
pub mod lexer;
pub mod parser;
pub mod repl;
