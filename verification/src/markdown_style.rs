//! The style side of a document. A style document is a sibling asset
//! supplying font, size and color for rendering; this crate neither parses
//! nor validates it beyond passing its reference through, so the loader here
//! is only the anchor the host application hangs its deserializing loader
//! on.

use vstd::prelude::*;

verus! {

/// The asset loader for a markdown style document.
#[derive(Default)]
pub struct MarkdownStyleLoader {}

} // verus!
