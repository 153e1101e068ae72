//! Front end of an interpreter for a small C-like scripting language: the
//! tokens, a byte-level lexer, the syntax tree nodes and the parser's
//! two-token lookahead.
pub mod ast;
pub mod lexer;
pub mod parser;
