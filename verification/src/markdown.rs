//! Markdown documents: their blocks, inline elements and parser.
pub mod block;
pub mod document;
pub mod inline;
pub mod parser;
