//! A minimal interpreter front-end for a parenthesized-list language.
//!
//! Raw text is lexed into tokens, parsed into a tree of tagged expressions,
//! and evaluated against a mutable name-to-value environment.

pub mod tokenizer;
pub mod reader;
pub mod eval;
