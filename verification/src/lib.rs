//! A line-oriented markdown tokenizer for game-UI text.
//!
//! The crate turns markdown-like text into an ordered sequence of typed
//! presentation elements (paragraphs, headings, list items, code blocks,
//! horizontal rules and explicit line breaks), each textual element carrying a
//! styled run. The tokenizer itself performs no I/O: it consumes already-read
//! text and produces a [`markdown_asset::Markdown`] document value whose style
//! reference a host application resolves before rendering.

pub mod markdown_asset;
pub mod markdown_loader;
pub mod markdown_style;
pub mod model;
