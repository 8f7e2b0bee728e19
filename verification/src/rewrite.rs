//! The rewriting of text fragments.
//!
//! Each text fragment falls under the first of six rules that applies to
//! it. Which one depends on the text and on whether a reference, opened by
//! a fragment `[`, is still waiting for its `]`. That is the only thing
//! remembered from one fragment to the next. Every other fragment passes
//! through as it is.
use vstd::prelude::*;
use vstd::string::StringExecFns;
use crate::autolink::{autolink, autolinked, link_spans};
use crate::events::{views, Fragment, FragmentView};
use crate::hashtag::{link_from_first_hashtag, linked_from_first_hashtag};
use crate::text::{chars_of, contains_text, find_char, lemma_first_index, occurs_in};
use crate::wikilink::{texts, wiki_anchor, wiki_link};

verus! {

/// Whether a reference is open, and the text gathered for it so far.
#[derive(Debug, PartialEq, Eq)]
pub enum LinkState {
    /// No reference is open.
    Outside,
    /// A `[` was seen and its `]` was not yet; the text since then.
    Inside(String),
}

/// A link state with its text as a character sequence.
pub enum LinkStateView {
    Outside,
    Inside(Seq<char>),
}

impl View for LinkState {
    type V = LinkStateView;

    open spec fn view(&self) -> LinkStateView {
        match *self {
            LinkState::Outside => LinkStateView::Outside,
            LinkState::Inside(title) => LinkStateView::Inside(title@),
        }
    }
}

/// The rules for a text fragment, in the order in which they are tried.
#[derive(Clone, Copy, Debug, PartialEq, Eq, Structural)]
pub enum Rule {
    /// The fragment is `[` and no reference is open: one opens.
    Open,
    /// The fragment is `]` and a reference is open: it closes and is linked.
    Close,
    /// A reference is open: the fragment is added to its text.
    Accumulate,
    /// The fragment names a URL scheme: its URLs are linked.
    Autolink,
    /// The fragment holds a `#`: its hashtags are linked.
    Hashtag,
    /// The fragment stays as it is.
    Plain,
}

/// `t` holds `http://` or `https://`.
pub open spec fn has_scheme(t: Seq<char>) -> bool {
    occurs_in("http://"@, t) || occurs_in("https://"@, t)
}

/// The rule that a text fragment falls under: the first that applies.
pub open spec fn rule_for(open: bool, t: Seq<char>) -> Rule {
    if t == seq!['['] && !open {
        Rule::Open
    } else if t == seq![']'] && open {
        Rule::Close
    } else if open {
        Rule::Accumulate
    } else if has_scheme(t) {
        Rule::Autolink
    } else if t.contains('#') {
        Rule::Hashtag
    } else {
        Rule::Plain
    }
}

/// The state after a text fragment.
pub open spec fn state_after_text(state: LinkStateView, t: Seq<char>) -> LinkStateView {
    match state {
        LinkStateView::Outside => if t == seq!['['] {
            LinkStateView::Inside(Seq::empty())
        } else {
            LinkStateView::Outside
        },
        LinkStateView::Inside(title) => if t == seq![']'] {
            LinkStateView::Outside
        } else {
            LinkStateView::Inside(title + t)
        },
    }
}

/// What a text fragment is rewritten to. `name` is the canonical name of
/// the open reference's title; only the closing rule reads it.
pub open spec fn rewritten_text(
    state: LinkStateView,
    t: Seq<char>,
    names: Seq<Seq<char>>,
    name: Seq<char>,
) -> FragmentView {
    match state {
        LinkStateView::Inside(title) => if t == seq![']'] {
            FragmentView::Html(wiki_anchor(title, name, names))
        } else {
            FragmentView::Text(Seq::empty())
        },
        LinkStateView::Outside => match rule_for(false, t) {
            Rule::Open => FragmentView::Text(Seq::empty()),
            Rule::Autolink => match autolinked(t, link_spans(t)) {
                Some(html) => FragmentView::Html(html),
                None => FragmentView::Text(t),
            },
            Rule::Hashtag => FragmentView::Html(linked_from_first_hashtag(t)),
            _ => FragmentView::Text(t),
        },
    }
}

/// `name` is a name that the canonicaliser may give for `title`.
pub open spec fn canonicalizes<F: Fn(&str) -> String>(
    title_to_name: F,
    title: Seq<char>,
    name: Seq<char>,
) -> bool {
    exists|t: &str, n: String| t@ == title && n@ == name && call_ensures(title_to_name, (t,), n)
}

/// `name` may stand for the canonical name when `t` is rewritten in
/// `state`: where `t` closes a reference, the canonicaliser gives it for
/// the reference's title.
pub open spec fn name_allowed<F: Fn(&str) -> String>(
    title_to_name: F,
    state: LinkStateView,
    t: Seq<char>,
    name: Seq<char>,
) -> bool {
    match state {
        LinkStateView::Inside(title) => t == seq![']'] ==> canonicalizes(title_to_name, title, name),
        LinkStateView::Outside => true,
    }
}

/// The rule that the text fragment `text` falls under.
pub fn classify(open: bool, text: &str) -> (rule: Rule)
    ensures
        rule == rule_for(open, text@),
{
    let chars = chars_of(text);
    let single: bool = chars.len() == 1;
    if single && chars[0] == '[' && !open {
        assert(chars@ =~= seq!['[']);
        return Rule::Open;
    }
    if single && chars[0] == ']' && open {
        assert(chars@ =~= seq![']']);
        return Rule::Close;
    }
    assert(seq!['['].len() == 1 && seq!['['][0] == '[');
    assert(seq![']'].len() == 1 && seq![']'][0] == ']');
    if open {
        return Rule::Accumulate;
    }
    let http = chars_of("http://");
    let https = chars_of("https://");
    if contains_text(&chars, &http) || contains_text(&chars, &https) {
        return Rule::Autolink;
    }
    let hash: usize = find_char(&chars, '#');
    proof {
        lemma_first_index(chars@, '#');
    }
    if hash < chars.len() {
        Rule::Hashtag
    } else {
        Rule::Plain
    }
}

/// Rewrites one text fragment: gives the state after it and the fragment
/// that takes its place. The canonicaliser is called only where the
/// fragment closes a reference, and then on the reference's title.
pub fn rewrite_text<F: Fn(&str) -> String>(
    state: LinkState,
    text: &str,
    names: &[String],
    title_to_name: &F,
) -> (next: (LinkState, Fragment))
    requires
        forall|t: &str| call_requires(*title_to_name, (t,)),
    ensures
        next.0@ == state_after_text(state@, text@),
        exists|name: Seq<char>|
            name_allowed(*title_to_name, state@, text@, name) && next.1@ == rewritten_text(
                state@,
                text@,
                texts(names@),
                name,
            ),
{
    assert(seq!['['].len() == 1 && seq!['['][0] == '[');
    assert(seq![']'].len() == 1 && seq![']'][0] == ']');
    match state {
        LinkState::Inside(title) => {
            let rule = classify(true, text);
            if rule == Rule::Close {
                let name = title_to_name(title.as_str());
                let html = wiki_link(title.as_str(), name.as_str(), names);
                proof {
                    assert(canonicalizes(*title_to_name, title@, name@));
                    assert(name_allowed(*title_to_name, state@, text@, name@));
                }
                (LinkState::Outside, Fragment::Html(html))
            } else {
                let mut title = title;
                title.append(text);
                proof {
                    assert(name_allowed(*title_to_name, state@, text@, Seq::empty()));
                }
                (LinkState::Inside(title), Fragment::Text(String::new()))
            }
        },
        LinkState::Outside => {
            proof {
                assert(name_allowed(*title_to_name, state@, text@, Seq::empty()));
            }
            match classify(false, text) {
                Rule::Open => (LinkState::Inside(String::new()), Fragment::Text(String::new())),
                Rule::Autolink => match autolink(text) {
                    Some(html) => (LinkState::Outside, Fragment::Html(html)),
                    None => (LinkState::Outside, Fragment::Text(String::from_str(text))),
                },
                Rule::Hashtag => (
                    LinkState::Outside,
                    Fragment::Html(link_from_first_hashtag(text)),
                ),
                _ => (LinkState::Outside, Fragment::Text(String::from_str(text))),
            }
        },
    }
}

/// The state after a sequence of fragments, from no open reference.
pub open spec fn state_after(fragments: Seq<FragmentView>) -> LinkStateView
    decreases fragments.len(),
{
    if fragments.len() == 0 {
        LinkStateView::Outside
    } else {
        match fragments.last() {
            FragmentView::Text(t) => state_after_text(state_after(fragments.drop_last()), t),
            _ => state_after(fragments.drop_last()),
        }
    }
}

/// What one fragment is rewritten to: a text fragment by the rules, any
/// other to itself.
pub open spec fn rewritten_fragment(
    state: LinkStateView,
    fragment: FragmentView,
    names: Seq<Seq<char>>,
    name: Seq<char>,
) -> FragmentView {
    match fragment {
        FragmentView::Text(t) => rewritten_text(state, t, names, name),
        other => other,
    }
}

/// What a sequence of fragments is rewritten to, one for one: each
/// fragment in the state that the fragments before it leave. `canon[i]`
/// is the canonical name used where fragment `i` closes a reference.
pub open spec fn rewritten(
    fragments: Seq<FragmentView>,
    names: Seq<Seq<char>>,
    canon: Seq<Seq<char>>,
) -> Seq<FragmentView> {
    Seq::new(
        fragments.len(),
        |i: int| rewritten_fragment(state_after(fragments.take(i)), fragments[i], names, canon[i]),
    )
}

/// `canon[i]` may stand for the canonical name at fragment `i`.
pub open spec fn name_allowed_at<F: Fn(&str) -> String>(
    title_to_name: F,
    fragments: Seq<FragmentView>,
    canon: Seq<Seq<char>>,
    i: int,
) -> bool {
    match fragments[i] {
        FragmentView::Text(t) => name_allowed(
            title_to_name,
            state_after(fragments.take(i)),
            t,
            canon[i],
        ),
        _ => true,
    }
}

/// `canon` holds, for each fragment that closes a reference, a name that
/// the canonicaliser gives for the reference's title.
pub open spec fn names_allowed<F: Fn(&str) -> String>(
    title_to_name: F,
    fragments: Seq<FragmentView>,
    canon: Seq<Seq<char>>,
) -> bool {
    &&& canon.len() == fragments.len()
    &&& forall|i: int|
        0 <= i < fragments.len() ==> #[trigger] name_allowed_at(title_to_name, fragments, canon, i)
}

/// Rewrites a sequence of fragments, one for one and in order, starting
/// with no reference open.
pub fn rewrite<F: Fn(&str) -> String>(
    fragments: Vec<Fragment>,
    names: &[String],
    title_to_name: &F,
) -> (out: Vec<Fragment>)
    requires
        forall|t: &str| call_requires(*title_to_name, (t,)),
    ensures
        exists|canon: Seq<Seq<char>>|
            names_allowed(*title_to_name, views(fragments@), canon) && views(out@) == rewritten(
                views(fragments@),
                texts(names@),
                canon,
            ),
{
    let ghost input = views(fragments@);
    let ghost mut canon: Seq<Seq<char>> = Seq::empty();
    let mut out: Vec<Fragment> = Vec::new();
    let mut state = LinkState::Outside;
    assert(input.take(0) =~= Seq::<FragmentView>::empty());
    for fragment in it: fragments.into_iter()
        invariant
            forall|t: &str| call_requires(*title_to_name, (t,)),
            it.seq() == fragments@,
            input == views(fragments@),
            canon.len() == it.index(),
            out@.len() == it.index(),
            state@ == state_after(input.take(it.index() as int)),
            forall|i: int|
                0 <= i < it.index() ==> #[trigger] name_allowed_at(
                    *title_to_name,
                    input,
                    canon,
                    i,
                ),
            forall|i: int|
                0 <= i < it.index() ==> (#[trigger] out@[i])@ == rewritten_fragment(
                    state_after(input.take(i)),
                    input[i],
                    texts(names@),
                    canon[i],
                ),
    {
        let ghost at = it.index() as int;
        let ghost before = state@;
        let ghost old_canon = canon;
        assert(input[at] == fragment@);
        assert(input.take(at + 1).drop_last() =~= input.take(at));
        assert(input.take(at + 1).last() == input[at]);
        match fragment {
            Fragment::Text(text) => {
                let (next, rewritten) = rewrite_text(state, text.as_str(), names, title_to_name);
                proof {
                    let name = choose|name: Seq<char>|
                        name_allowed(*title_to_name, before, text@, name) && rewritten@
                            == rewritten_text(before, text@, texts(names@), name);
                    canon = canon.push(name);
                }
                state = next;
                out.push(rewritten);
            },
            other => {
                proof {
                    canon = canon.push(Seq::empty());
                }
                out.push(other);
            },
        }
        proof {
            assert forall|i: int| 0 <= i < at + 1 implies #[trigger] name_allowed_at(
                *title_to_name,
                input,
                canon,
                i,
            ) by {
                if i < at {
                    assert(name_allowed_at(*title_to_name, input, old_canon, i));
                    assert(canon[i] == old_canon[i]);
                }
            }
        }
    }
    proof {
        assert(names_allowed(*title_to_name, input, canon));
        assert(views(out@) =~= rewritten(input, texts(names@), canon));
    }
    out
}

} // verus!
