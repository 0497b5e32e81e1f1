//! A tokenizer for a small curly-brace language: source text in, a flat
//! sequence of classified, position-tagged tokens out.

pub mod syntax;
