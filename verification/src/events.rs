//! The fragment stream.
//!
//! The markdown parser turns a text into a sequence of events and the HTML
//! serialiser turns such a sequence into a string. Between the two the
//! library holds the events as fragments: the text of a text event, HTML
//! to be written as it is, or any other event, carried through untouched.
use vstd::prelude::*;

verus! {

/// `pulldown_cmark::Event`, an event of the parser, as an opaque type:
/// nothing is known of what a value of it holds.
#[verifier::external_type_specification]
#[verifier::external_body]
pub struct ExEvent<'a>(pulldown_cmark::Event<'a>);

/// One event of the stream.
#[derive(Debug, PartialEq)]
pub enum Fragment {
    /// Inline text, which the serialiser escapes.
    Text(String),
    /// HTML, which the serialiser writes as it is.
    Html(String),
    /// Any other event of the parser.
    Other(pulldown_cmark::Event<'static>),
}

/// A fragment with its strings as character sequences.
pub enum FragmentView {
    Text(Seq<char>),
    Html(Seq<char>),
    Other(pulldown_cmark::Event<'static>),
}

impl View for Fragment {
    type V = FragmentView;

    open spec fn view(&self) -> FragmentView {
        match *self {
            Fragment::Text(text) => FragmentView::Text(text@),
            Fragment::Html(html) => FragmentView::Html(html@),
            Fragment::Other(event) => FragmentView::Other(event),
        }
    }
}

/// The views of a sequence of fragments.
pub open spec fn views(fragments: Seq<Fragment>) -> Seq<FragmentView> {
    fragments.map_values(|fragment: Fragment| fragment@)
}

/// The syntax extensions that the parser is asked to recognise.
#[derive(Clone, Copy, Debug, PartialEq, Eq)]
pub struct Extensions {
    pub tables: bool,
    pub footnotes: bool,
    pub strikethrough: bool,
    pub tasklists: bool,
}

impl Extensions {
    /// The extensions of wiki pages: tables, footnotes, strikethrough and
    /// task lists.
    pub fn wiki() -> (extensions: Extensions)
        ensures
            extensions == wiki_extensions(),
    {
        Extensions { tables: true, footnotes: true, strikethrough: true, tasklists: true }
    }
}

/// The extensions of wiki pages.
pub open spec fn wiki_extensions() -> Extensions {
    Extensions { tables: true, footnotes: true, strikethrough: true, tasklists: true }
}

/// The fragments that the parser yields for a markdown text under the given
/// extensions: what `parse` returns.
pub uninterp spec fn markdown_events(md: Seq<char>, extensions: Extensions) -> Seq<FragmentView>;

/// The HTML that the serialiser writes for a sequence of fragments: what
/// `serialize` returns.
pub uninterp spec fn html_of(fragments: Seq<FragmentView>) -> Seq<char>;

/// Runs `pulldown_cmark::Parser::new_ext` on `md`, with exactly the options
/// that `extensions` switches on, and collects the events it yields, in
/// order. A text event is handed out as `Fragment::Text` with its text,
/// every other event as `Fragment::Other`. The parser reads `md` and the
/// options alone, so the result is a function of the two; nothing else is
/// claimed of it.
#[verifier::external_body]
pub(crate) fn parse(md: &str, extensions: &Extensions) -> (fragments: Vec<Fragment>)
    ensures
        views(fragments@) == markdown_events(md@, *extensions),
{
    let mut options = pulldown_cmark::Options::empty();
    options.set(pulldown_cmark::Options::ENABLE_TABLES, extensions.tables);
    options.set(pulldown_cmark::Options::ENABLE_FOOTNOTES, extensions.footnotes);
    options.set(pulldown_cmark::Options::ENABLE_STRIKETHROUGH, extensions.strikethrough);
    options.set(pulldown_cmark::Options::ENABLE_TASKLISTS, extensions.tasklists);
    pulldown_cmark::Parser::new_ext(md, options).map(|event| match event {
        pulldown_cmark::Event::Text(text) => Fragment::Text(text.into_string()),
        other => Fragment::Other(other.into_static()),
    }).collect()
}

/// Runs `pulldown_cmark::html::push_html` on the events that `fragments`
/// stand for, into an empty string: `Fragment::Text` as a text event,
/// `Fragment::Html` as an HTML event, `Fragment::Other` as the event it
/// carries. The serialiser reads the events alone, so the result is a
/// function of them; nothing else is claimed of it.
#[verifier::external_body]
pub(crate) fn serialize(fragments: Vec<Fragment>) -> (html: String)
    ensures
        html@ == html_of(views(fragments@)),
{
    let mut html = String::new();
    let events = fragments.into_iter().map(|fragment| match fragment {
        Fragment::Text(text) => pulldown_cmark::Event::Text(text.into()),
        Fragment::Html(text) => pulldown_cmark::Event::Html(text.into()),
        Fragment::Other(event) => event,
    });
    pulldown_cmark::html::push_html(&mut html, events);
    html
}

} // verus!
