//! Wiki markup to HTML.
//!
//! Markdown is parsed into a stream of fragments, the text fragments are
//! rewritten, and the stream is serialised as HTML. Three inline extensions
//! are applied to text while it is rewritten:
//!
//! - `[Page]` links to a wiki page, or to the form that creates it;
//! - `#tag` links to a search for the tag;
//! - a bare URL becomes a link to itself.
use vstd::prelude::*;

pub mod autolink;
pub mod events;
pub mod hashtag;
pub mod laws;
pub mod markdown;
pub mod rewrite;
pub mod text;
pub mod wikilink;

verus! {

} // verus!
