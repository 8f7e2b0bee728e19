//! Wiki markdown to HTML.
//!
//! Converting the HTML that comes out once more is not meant to give the
//! same HTML again: the output is HTML, not wiki markdown. A URL that was
//! linked, for one, is linked again inside its anchor, and the result is
//! longer each time.
use vstd::prelude::*;
use crate::events::{html_of, markdown_events, parse, serialize, wiki_extensions, Extensions};
use crate::rewrite::{names_allowed, rewrite, rewritten};
use crate::wikilink::texts;

verus! {

/// Converts wiki markdown to HTML.
///
/// `names` are the names of the pages that exist, for the `[Page]`
/// references, and `title_to_name` gives the canonical name of a page
/// title. The text is parsed with the extensions of wiki pages, its text
/// fragments are rewritten, from no open reference, and the fragments are
/// serialised. A `[` whose `]` never comes takes every later text
/// fragment into its title, and no link is written for it.
#[must_use]
pub fn to_html<F: Fn(&str) -> String>(md: &str, names: &[String], title_to_name: F) -> (html:
    String)
    requires
        forall|t: &str| call_requires(title_to_name, (t,)),
    ensures
        exists|canon: Seq<Seq<char>>|
            names_allowed(title_to_name, markdown_events(md@, wiki_extensions()), canon) && html@
                == html_of(
                rewritten(markdown_events(md@, wiki_extensions()), texts(names@), canon),
            ),
{
    let extensions = Extensions::wiki();
    let fragments = parse(md, &extensions);
    let rewritten = rewrite(fragments, names, &title_to_name);
    serialize(rewritten)
}

} // verus!
