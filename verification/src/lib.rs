//! A small S-expression front end: a tokenizer, a recursive-descent parser,
//! an environment of built-in procedures and a tree-walking evaluator.
//!
//! Numbers are IEEE-754 binary64 values carried as their bit patterns.  The
//! library never interprets the bits: reading a number from text, arithmetic
//! and printing are supplied by the caller as functions.
//!
//! The parser and the evaluator recurse once for every level of nesting, and
//! nothing bounds the nesting of an input: an input nested deeply enough
//! exhausts the call stack.
pub mod expr;
pub mod token;
pub mod parser;
pub mod env;
pub mod eval;
pub mod render;
pub mod shape;
