//! Conversion of Markdown text into HTML.
pub mod config;
pub mod converter;
pub mod html;
pub mod markdown;
pub mod text;
