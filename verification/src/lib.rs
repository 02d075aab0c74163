//! A Markdown-to-HTML conversion engine for static blog pages.
//!
//! The crate has two layers: an inline converter that turns the raw text of a
//! single block into HTML (escaping angle brackets and recognizing code
//! spans, italic, bold and links), and a line-oriented block classifier that
//! groups consecutive input lines into blocks (headings, lists, quotes,
//! images, code blocks, paragraphs) and emits one HTML fragment per block.

pub mod chars;
pub mod convert;
pub mod inline;
pub mod parser;
