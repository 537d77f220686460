//! A front end for a small expression-oriented language: source text in,
//! abstract syntax tree out.
//!
//! The pipeline has two stages. A position-tracking tokenizer turns the
//! text into classified lexical units, and a recursive-descent parser with
//! bounded lookahead builds statements and expressions from them, resolving
//! operator precedence by precedence climbing. Every error, lexical or
//! grammatical, carries the source coordinate of the offending fragment.

pub mod common;
pub mod num;
pub mod lexer;
pub mod parser;
pub mod ast;
