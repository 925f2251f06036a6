//! Arithmetic expressions whose grouping is decided first by the whitespace
//! around each operator and only then by the operator's algebraic class.

pub mod lexer;
pub mod parser;
