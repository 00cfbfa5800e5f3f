//! A strict JSON reader: a character source over the document's bytes, a
//! tokenizer that pulls from it, and a tree builder that uses an explicit work
//! stack instead of recursion.

pub mod error;
pub mod reader;
pub mod lexer;
pub mod parser;
