//! Lexical analysis and parsing of templates.

pub mod token;
pub mod lexer;
pub mod tree;
pub mod parser;

pub use parser::ast;
