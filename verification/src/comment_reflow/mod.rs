//! Conservative reflow of Rust line comments.
//!
//! Only contiguous blocks of full-line comments that look like plain prose are rewritten; comments
//! whose layout may carry meaning in Markdown, code examples or hand-aligned text are left alone.

pub mod again;
pub mod apply;
pub mod blocks;
pub mod breaks;
pub mod complete;
pub mod fences;
pub mod laws;
pub mod lines;
pub mod markdown;
pub mod new_text;
pub mod notes;
pub mod prefix;
pub mod read_again;
pub mod reflow;
pub mod syntax;
pub mod twice;
pub mod wrap;

pub use reflow::{reflow_source, Config};
