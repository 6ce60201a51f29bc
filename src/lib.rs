//! A small interpreter for a curly-braced expression language with
//! first-class functions and lexical closures: a byte lexer, a Pratt parser
//! and a tree-walking evaluator over an arena of environment frames.

pub mod ast;
pub mod lexer;
pub mod parser;
pub mod object;
pub mod environment;
pub mod evaluator;
