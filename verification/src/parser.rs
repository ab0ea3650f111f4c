//! Statements: from text to tokens, from tokens to typed queries.

pub mod lexer;
pub mod parser;
