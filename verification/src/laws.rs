//! What holds of the rewriting of a fragment sequence.
use vstd::prelude::*;
use crate::autolink::{autolinked, link_spans};
use crate::events::FragmentView;
use crate::rewrite::{has_scheme, rewritten, state_after, LinkStateView};
use crate::text::{lemma_first_index, same_ignoring_ascii_case};
use crate::wikilink::{
    is_known, lemma_page_index, new_page_anchor, page_anchor, page_index,
};

verus! {

/// `fragments[at..at + 3]` are the text fragments `[`, `title`, `]`, and
/// no reference is open before them.
pub open spec fn reference_at(fragments: Seq<FragmentView>, at: int, title: Seq<char>) -> bool {
    &&& 0 <= at
    &&& at + 2 < fragments.len()
    &&& state_after(fragments.take(at)) == LinkStateView::Outside
    &&& fragments[at] == FragmentView::Text(seq!['['])
    &&& fragments[at + 1] == FragmentView::Text(title)
    &&& title != seq![']']
    &&& fragments[at + 2] == FragmentView::Text(seq![']'])
}

/// The states in and after a reference `[`, `title`, `]`.
proof fn lemma_reference_states(fragments: Seq<FragmentView>, at: int, title: Seq<char>)
    requires
        reference_at(fragments, at, title),
    ensures
        state_after(fragments.take(at + 1)) == LinkStateView::Inside(Seq::empty()),
        state_after(fragments.take(at + 2)) == LinkStateView::Inside(title),
        state_after(fragments.take(at + 3)) == LinkStateView::Outside,
{
    assert(fragments.take(at + 1).drop_last() =~= fragments.take(at));
    assert(fragments.take(at + 2).drop_last() =~= fragments.take(at + 1));
    assert(fragments.take(at + 3).drop_last() =~= fragments.take(at + 2));
    assert(Seq::<char>::empty() + title =~= title);
}

/// A reference to a page that exists is linked under the name the page is
/// stored by, whatever the case of its letters, and shows the title as it
/// was written. The two fragments before the link become empty text, and
/// no reference is open after it.
pub proof fn lemma_known_page_is_linked(
    fragments: Seq<FragmentView>,
    names: Seq<Seq<char>>,
    canon: Seq<Seq<char>>,
    at: int,
    title: Seq<char>,
    present: int,
)
    requires
        reference_at(fragments, at, title),
        0 <= present < names.len(),
        same_ignoring_ascii_case(names[present], canon[at + 2]),
    ensures
        ({
            let stored = page_index(names, canon[at + 2]) as int;
            let out = rewritten(fragments, names, canon);
            &&& stored <= present
            &&& same_ignoring_ascii_case(names[stored], canon[at + 2])
            &&& out[at] == FragmentView::Text(Seq::empty())
            &&& out[at + 1] == FragmentView::Text(Seq::empty())
            &&& out[at + 2] == FragmentView::Html(page_anchor(names[stored], title))
            &&& state_after(fragments.take(at + 3)) == LinkStateView::Outside
        }),
{
    lemma_reference_states(fragments, at, title);
    lemma_page_index(names, canon[at + 2]);
}

/// A reference to a page that does not exist is linked to the form that
/// creates it, under its canonical name, and shows the title as it was
/// written.
pub proof fn lemma_unknown_page_is_offered(
    fragments: Seq<FragmentView>,
    names: Seq<Seq<char>>,
    canon: Seq<Seq<char>>,
    at: int,
    title: Seq<char>,
)
    requires
        reference_at(fragments, at, title),
        forall|i: int|
            0 <= i < names.len() ==> !same_ignoring_ascii_case(#[trigger] names[i], canon[at + 2]),
    ensures
        ({
            let out = rewritten(fragments, names, canon);
            &&& out[at] == FragmentView::Text(Seq::empty())
            &&& out[at + 1] == FragmentView::Text(Seq::empty())
            &&& out[at + 2] == FragmentView::Html(new_page_anchor(canon[at + 2], title))
            &&& state_after(fragments.take(at + 3)) == LinkStateView::Outside
        }),
{
    lemma_reference_states(fragments, at, title);
    lemma_page_index(names, canon[at + 2]);
    assert(!is_known(names, canon[at + 2]));
}

/// The text `t` holds no `[`, no `#`, and no URL that the link finder
/// finds.
pub open spec fn is_plain(t: Seq<char>) -> bool {
    &&& !t.contains('[')
    &&& !t.contains('#')
    &&& has_scheme(t) ==> autolinked(t, link_spans(t)) is None
}

/// Every text fragment is plain.
pub open spec fn all_plain(fragments: Seq<FragmentView>) -> bool {
    forall|i: int|
        0 <= i < fragments.len() ==> match #[trigger] fragments[i] {
            FragmentView::Text(t) => is_plain(t),
            _ => true,
        }
}

/// Plain fragments open no reference.
pub proof fn lemma_plain_stays_outside(fragments: Seq<FragmentView>)
    requires
        all_plain(fragments),
    ensures
        state_after(fragments) == LinkStateView::Outside,
    decreases fragments.len(),
{
    if fragments.len() > 0 {
        let init = fragments.drop_last();
        assert forall|i: int| 0 <= i < init.len() implies match #[trigger] init[i] {
            FragmentView::Text(t) => is_plain(t),
            _ => true,
        } by {
            assert(init[i] == fragments[i]);
        }
        lemma_plain_stays_outside(init);
        match fragments.last() {
            FragmentView::Text(t) => {
                assert(is_plain(t));
                assert(seq!['['][0] == '[');
                if t == seq!['['] {
                    assert(t[0] == '[');
                }
            },
            _ => {},
        }
    }
}

/// Fragments whose texts hold no `[`, no `#` and no URL are rewritten to
/// themselves.
pub proof fn lemma_plain_is_unchanged(
    fragments: Seq<FragmentView>,
    names: Seq<Seq<char>>,
    canon: Seq<Seq<char>>,
)
    requires
        all_plain(fragments),
    ensures
        rewritten(fragments, names, canon) == fragments,
{
    let out = rewritten(fragments, names, canon);
    assert forall|i: int| 0 <= i < fragments.len() implies out[i] == fragments[i] by {
        let before = fragments.take(i);
        assert forall|j: int| 0 <= j < before.len() implies match #[trigger] before[j] {
            FragmentView::Text(t) => is_plain(t),
            _ => true,
        } by {
            assert(before[j] == fragments[j]);
        }
        lemma_plain_stays_outside(before);
        match fragments[i] {
            FragmentView::Text(t) => {
                assert(is_plain(t));
                assert(seq!['['][0] == '[');
                if t == seq!['['] {
                    assert(t[0] == '[');
                }
                lemma_first_index(t, '#');
            },
            _ => {},
        }
    }
    assert(out =~= fragments);
}

/// No text fragment from index `from` on is `]`.
pub open spec fn never_closed(fragments: Seq<FragmentView>, from: int) -> bool {
    forall|i: int|
        from <= i < fragments.len() ==> #[trigger] fragments[i] != FragmentView::Text(seq![']'])
}

/// A reference that is open after `from` fragments, and that no later
/// fragment closes, is still open after `upto` fragments.
pub proof fn lemma_unclosed_stays_open(fragments: Seq<FragmentView>, from: int, upto: int)
    requires
        0 <= from <= upto <= fragments.len(),
        state_after(fragments.take(from)) is Inside,
        never_closed(fragments, from),
    ensures
        state_after(fragments.take(upto)) is Inside,
    decreases upto - from,
{
    if from < upto {
        lemma_unclosed_stays_open(fragments, from, upto - 1);
        assert(fragments.take(upto).drop_last() =~= fragments.take(upto - 1));
        assert(fragments.take(upto).last() == fragments[upto - 1]);
    }
}

/// A `[` whose `]` never comes swallows the text that follows: the `[`
/// and every later text fragment become empty text, no link is written
/// for them, and the reference is still open at the end.
pub proof fn lemma_unclosed_reference_swallows(
    fragments: Seq<FragmentView>,
    names: Seq<Seq<char>>,
    canon: Seq<Seq<char>>,
    at: int,
)
    requires
        0 <= at < fragments.len(),
        state_after(fragments.take(at)) == LinkStateView::Outside,
        fragments[at] == FragmentView::Text(seq!['[']),
        never_closed(fragments, at + 1),
    ensures
        state_after(fragments) is Inside,
        forall|i: int|
            at <= i < fragments.len() ==> #[trigger] rewritten(fragments, names, canon)[i] == (
            match fragments[i] {
                FragmentView::Text(_) => FragmentView::Text(Seq::empty()),
                other => other,
            }),
{
    let out = rewritten(fragments, names, canon);
    assert(fragments.take(at + 1).drop_last() =~= fragments.take(at));
    assert(fragments.take(at + 1).last() == fragments[at]);
    lemma_unclosed_stays_open(fragments, at + 1, fragments.len() as int);
    assert(fragments.take(fragments.len() as int) =~= fragments);
    assert forall|i: int| at <= i < fragments.len() implies #[trigger] out[i] == (
    match fragments[i] {
        FragmentView::Text(_) => FragmentView::Text(Seq::empty()),
        other => other,
    }) by {
        if i > at {
            lemma_unclosed_stays_open(fragments, at + 1, i);
            assert(fragments[i] != FragmentView::Text(seq![']']));
        }
    }
}

} // verus!
