//! Front end for a small imperative language: a lexer, a precedence-climbing
//! parser and a renderer that prints the syntax tree in a C-like syntax.
pub mod lexer;
pub mod exprs;
pub mod parser;
pub mod codegen;
