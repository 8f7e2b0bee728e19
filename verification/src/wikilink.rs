//! References to wiki pages.
//!
//! The text between `[` and `]` is the title of a page. Its canonical name,
//! which the caller supplies, is looked up among the names of the pages
//! that exist, without regard to the case of ASCII letters. A page that
//! exists is linked under the name it is stored by; any other title links
//! to the form that creates the page. The title is shown as it was written.
//! Neither the title nor the target is escaped.
use vstd::prelude::*;
use vstd::string::StringExecFns;
use crate::text::{chars_of, eq_ignore_ascii_case, same_ignoring_ascii_case};

verus! {

/// The names as character sequences.
pub open spec fn texts(names: Seq<String>) -> Seq<Seq<char>> {
    names.map_values(|name: String| name@)
}

/// Index of the first of `names` that equals `name` up to ASCII case, or
/// `names.len()` where none does.
pub open spec fn page_index(names: Seq<Seq<char>>, name: Seq<char>) -> nat
    decreases names.len(),
{
    if names.len() == 0 || same_ignoring_ascii_case(names[0], name) {
        0
    } else {
        1 + page_index(names.drop_first(), name)
    }
}

/// A page of that name exists.
pub open spec fn is_known(names: Seq<Seq<char>>, name: Seq<char>) -> bool {
    page_index(names, name) < names.len()
}

/// The link to the page that exists under the name `stored`.
pub open spec fn page_anchor(stored: Seq<char>, title: Seq<char>) -> Seq<char> {
    "<a href=\"/"@ + stored + "\" class=\"\">"@ + title + "</a>"@
}

/// The link to the form that creates the page `name`.
pub open spec fn new_page_anchor(name: Seq<char>, title: Seq<char>) -> Seq<char> {
    "<a href=\"/new?name="@ + name + "\" class=\"new\">"@ + title + "</a>"@
}

/// The link that a reference with the given title and canonical name
/// resolves to.
pub open spec fn wiki_anchor(title: Seq<char>, name: Seq<char>, names: Seq<Seq<char>>) -> Seq<
    char,
> {
    if is_known(names, name) {
        page_anchor(names[page_index(names, name) as int], title)
    } else {
        new_page_anchor(name, title)
    }
}

/// `page_index` is in range, no name before it matches, and the name at it
/// matches unless it is the length.
pub proof fn lemma_page_index(names: Seq<Seq<char>>, name: Seq<char>)
    ensures
        page_index(names, name) <= names.len(),
        forall|j: int|
            0 <= j < page_index(names, name) ==> !same_ignoring_ascii_case(
                #[trigger] names[j],
                name,
            ),
        is_known(names, name) ==> same_ignoring_ascii_case(
            names[page_index(names, name) as int],
            name,
        ),
    decreases names.len(),
{
    if names.len() == 0 || same_ignoring_ascii_case(names[0], name) {
    } else {
        let rest = names.drop_first();
        lemma_page_index(rest, name);
        assert forall|j: int| 0 <= j < page_index(names, name) implies !same_ignoring_ascii_case(
            #[trigger] names[j],
            name,
        ) by {
            if j > 0 {
                assert(names[j] == rest[j - 1]);
            }
        }
        if is_known(names, name) {
            assert(names[page_index(names, name) as int] == rest[page_index(rest, name) as int]);
        }
    }
}

/// The page index is the only index with a matching name at it and none
/// before it.
pub proof fn lemma_page_index_unique(names: Seq<Seq<char>>, name: Seq<char>, k: int)
    requires
        0 <= k <= names.len(),
        forall|j: int| 0 <= j < k ==> !same_ignoring_ascii_case(#[trigger] names[j], name),
        k < names.len() ==> same_ignoring_ascii_case(names[k], name),
    ensures
        page_index(names, name) == k,
{
    lemma_page_index(names, name);
}

/// The index of the first of `names` that equals `name` up to ASCII case.
pub fn find_page(names: &[String], name: &str) -> (found: Option<usize>)
    ensures
        match found {
            Some(index) => is_known(texts(names@), name@) && index == page_index(
                texts(names@),
                name@,
            ),
            None => !is_known(texts(names@), name@),
        },
{
    let wanted = chars_of(name);
    let mut i: usize = 0;
    while i < names.len()
        invariant
            i <= names.len(),
            wanted@ == name@,
            forall|j: int|
                0 <= j < i ==> !same_ignoring_ascii_case(#[trigger] texts(names@)[j], name@),
        decreases names.len() - i,
    {
        let candidate = chars_of(names[i].as_str());
        if eq_ignore_ascii_case(&candidate, &wanted) {
            proof {
                lemma_page_index_unique(texts(names@), name@, i as int);
            }
            return Some(i);
        }
        i += 1;
    }
    proof {
        lemma_page_index_unique(texts(names@), name@, names@.len() as int);
    }
    None
}

/// The link for a reference whose text is `title` and whose canonical name
/// is `name`, given the names of the pages that exist.
pub fn wiki_link(title: &str, name: &str, names: &[String]) -> (html: String)
    ensures
        html@ == wiki_anchor(title@, name@, texts(names@)),
{
    let mut html: String;
    match find_page(names, name) {
        Some(index) => {
            html = String::from_str("<a href=\"/");
            html.append(names[index].as_str());
            html.append("\" class=\"\">");
        },
        None => {
            html = String::from_str("<a href=\"/new?name=");
            html.append(name);
            html.append("\" class=\"new\">");
        },
    }
    html.append(title);
    html.append("</a>");
    html
}

} // verus!
