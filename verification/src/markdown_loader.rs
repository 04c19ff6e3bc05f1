//! The loader's computing half: from already-read document text and the
//! loader settings to a finished [`Markdown`] value. Reading the underlying
//! byte stream, and the engine-facing asset plumbing around it, belong to the
//! host application; a read failure there aborts the whole parse and no
//! partial document is built.

use vstd::prelude::*;
use vstd::string::StringExecFns;

use crate::markdown_asset::Markdown;
use crate::model::parse_doc;

verus! {

/// A loader for the [`Markdown`] asset.
#[derive(Default)]
pub struct MarkdownLoader;

/// Error returned from the [`MarkdownLoader`]: either the line source failed
/// or the document could not be parsed. The payload identifies the
/// underlying cause.
pub enum MarkdownLoaderError {
    Io(String),
    Parse(String),
}

impl MarkdownLoaderError {
    /// The human-readable description of the failure.
    pub fn message(&self) -> (r: String)
        ensures
            match self {
                MarkdownLoaderError::Io(cause) => r@ == "Could not load asset: "@ + cause@,
                MarkdownLoaderError::Parse(cause) => r@ == "Could not parse markdown "@ + cause@,
            },
    {
        match self {
            MarkdownLoaderError::Io(cause) => {
                let mut s = "Could not load asset: ".to_owned();
                s.append(cause.as_str());
                s
            },
            MarkdownLoaderError::Parse(cause) => {
                let mut s = "Could not parse markdown ".to_owned();
                s.append(cause.as_str());
                s
            },
        }
    }
}

/// Settings for the [`MarkdownLoader`]: the reference linking the document
/// to its sibling style asset.
#[derive(Default)]
pub struct MarkdownLoaderSettings {
    pub style: String,
}

impl MarkdownLoader {
    /// The computing half of a load: tokenize already-read document text
    /// into a [`Markdown`] value that carries the settings' style reference
    /// through unresolved.
    pub fn load_from_text(&self, text: &str, settings: &MarkdownLoaderSettings) -> (r: Markdown)
        ensures
            r.content.deep_view() == parse_doc(text@),
            r.style@ == settings.style@,
    {
        Markdown { content: crate::markdown_asset::parse_markdown(text), style: settings.style.clone() }
    }
}

} // verus!
