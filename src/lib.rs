//! A small interpreter for a parenthesised expression language: a lexer, a
//! parser, lexically chained environments and a tree-walking evaluator.
pub mod lexer;
pub mod parse;
pub mod parser;
pub mod env;
pub mod eval;
pub mod render;
