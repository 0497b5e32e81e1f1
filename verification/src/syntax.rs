//! Lexical syntax: character classes, tokens and the tokenizer.

pub mod chars;
pub mod number;
pub mod token;
pub mod grammar;
pub mod spelling;
pub mod lexer;
pub mod laws;
pub mod respell;
