//! HTML output.
pub mod renderer;
