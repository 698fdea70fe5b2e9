//! Compact summaries of the text that `wrangler` prints.

pub mod text;
pub mod ansi;
pub mod report;
pub mod deploy;
pub mod pages;
