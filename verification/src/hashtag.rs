//! Hashtags become search links.
//!
//! A text is cut into tokens at each single space. A token that begins with
//! `#` and holds more than that one character becomes a link to the search
//! for the tag, the token without its leading `#`s. Every other token stays
//! as it is. The tokens are put together again with one space between
//! them: a run of several spaces between two tokens comes out as one.
//! Spaces before the first token and after the last are kept as they are,
//! and only the space parts tokens, no tab and no line break.
use vstd::prelude::*;
use crate::text::{
    chars_of, find_char, first_index, lemma_first_index, lemma_first_index_unique, push_range,
    push_str, string_of,
};

verus! {

/// Length of the run of `c` that `s` begins with.
pub open spec fn leading_run(s: Seq<char>, c: char) -> nat
    decreases s.len(),
{
    if s.len() > 0 && s[0] == c {
        1 + leading_run(s.drop_first(), c)
    } else {
        0
    }
}

/// `s` without the run of `c` that it begins with.
pub open spec fn strip_leading(s: Seq<char>, c: char) -> Seq<char> {
    s.skip(leading_run(s, c) as int)
}

/// `token` is a hashtag: a `#` followed by at least one more character.
pub open spec fn is_hashtag(token: Seq<char>) -> bool {
    token.len() > 1 && token[0] == '#'
}

/// The anchor that links `tag` to the search for it.
pub open spec fn tag_anchor(tag: Seq<char>) -> Seq<char> {
    "<a href='/search?tag="@ + tag + "'>#"@ + tag + "</a>"@
}

/// What becomes of one token.
pub open spec fn linked_token(token: Seq<char>) -> Seq<char> {
    if is_hashtag(token) {
        tag_anchor(strip_leading(token, '#'))
    } else {
        token
    }
}

/// What is read on behind the space at index `end` of `s`, which ends the
/// first token of `s`. Where that token is not empty and another token
/// follows, it is the text from that next token on: the further spaces
/// between the two are left out. Otherwise it is all that stands behind
/// the space.
pub open spec fn behind_space(s: Seq<char>, end: int) -> Seq<char> {
    let rest = s.skip(end + 1);
    let run = leading_run(rest, ' ') as int;
    if end > 0 && run < rest.len() {
        rest.skip(run)
    } else {
        rest
    }
}

/// `s` with each of its hashtags linked and one space between two tokens:
/// the first token, up to the first space, then that space, then what is
/// read on behind it, treated likewise.
pub open spec fn linked_hashtags(s: Seq<char>) -> Seq<char>
    decreases s.len(),
{
    let end = first_index(s, ' ') as int;
    if end >= s.len() {
        linked_token(s)
    } else {
        linked_token(s.take(end)) + seq![' '] + linked_hashtags(behind_space(s, end))
    }
}

/// `s` with the hashtags linked from its first `#` on, and what stands
/// before that `#` kept as it is.
pub open spec fn linked_from_first_hashtag(s: Seq<char>) -> Seq<char> {
    let first = first_index(s, '#') as int;
    s.take(first) + linked_hashtags(s.skip(first))
}

/// The leading run of `c` ends at the first character that is not `c`.
pub proof fn lemma_leading_run(s: Seq<char>, c: char, k: int)
    requires
        0 <= k <= s.len(),
        forall|j: int| 0 <= j < k ==> s[j] == c,
        k < s.len() ==> s[k] != c,
    ensures
        leading_run(s, c) == k,
    decreases k,
{
    if k > 0 {
        let rest = s.drop_first();
        assert forall|j: int| 0 <= j < k - 1 implies rest[j] == c by {
            assert(rest[j] == s[j + 1]);
        }
        lemma_leading_run(rest, c, k - 1);
    }
}

/// A run of spaces between two tokens counts as one space: a token,
/// then one or more spaces, then a text that begins with another token
/// come out as the token linked, one space, and that text linked.
pub proof fn lemma_spaces_between_tokens_count_as_one(
    token: Seq<char>,
    spaces: nat,
    rest: Seq<char>,
)
    requires
        token.len() > 0,
        !token.contains(' '),
        spaces >= 1,
        rest.len() > 0,
        rest[0] != ' ',
    ensures
        linked_hashtags(token + Seq::new(spaces, |i: int| ' ') + rest) == linked_token(token)
            + seq![' '] + linked_hashtags(rest),
{
    let s = token + Seq::new(spaces, |i: int| ' ') + rest;
    let end = token.len() as int;
    assert forall|j: int| 0 <= j < end implies s[j] != ' ' by {
        assert(s[j] == token[j]);
    }
    lemma_first_index_unique(s, ' ', end);
    assert(s.take(end) =~= token);
    let behind = s.skip(end + 1);
    lemma_leading_run(behind, ' ', spaces - 1);
    assert(behind.skip(spaces - 1) =~= rest);
}

/// Appends to `out` what becomes of the token `chars[from..to]`.
fn push_linked_token(out: &mut Vec<char>, chars: &[char], from: usize, to: usize)
    requires
        from <= to <= chars.len(),
    ensures
        final(out)@ == old(out)@ + linked_token(chars@.subrange(from as int, to as int)),
{
    let ghost token = chars@.subrange(from as int, to as int);
    if to - from > 1 && chars[from] == '#' {
        let mut tag: usize = from;
        while tag < to && chars[tag] == '#'
            invariant
                from <= tag <= to <= chars.len(),
                forall|j: int| from <= j < tag ==> chars@[j] == '#',
            decreases to - tag,
        {
            tag += 1;
        }
        proof {
            lemma_leading_run(token, '#', tag - from);
            assert(token.skip(tag - from) =~= chars@.subrange(tag as int, to as int));
        }
        push_str(out, "<a href='/search?tag=");
        push_range(out, chars, tag, to);
        push_str(out, "'>#");
        push_range(out, chars, tag, to);
        push_str(out, "</a>");
    } else {
        push_range(out, chars, from, to);
    }
}

/// Appends to `out` the text `chars[from..]` with its hashtags linked.
pub fn push_linked_hashtags(out: &mut Vec<char>, chars: &[char], from: usize)
    requires
        from <= chars.len(),
    ensures
        final(out)@ == old(out)@ + linked_hashtags(chars@.skip(from as int)),
{
    let ghost before = out@;
    let mut start: usize = from;
    let mut more: bool = true;
    while more
        invariant
            start <= chars.len(),
            more ==> before + linked_hashtags(chars@.skip(from as int)) == out@ + linked_hashtags(
                chars@.skip(start as int),
            ),
            !more ==> out@ == before + linked_hashtags(chars@.skip(from as int)),
        decreases chars.len() - start + if more { 1nat } else { 0nat },
    {
        let ghost rest = chars@.skip(start as int);
        let mut end: usize = start;
        while end < chars.len() && chars[end] != ' '
            invariant
                start <= end <= chars.len(),
                forall|j: int| start <= j < end ==> chars@[j] != ' ',
            decreases chars.len() - end,
        {
            end += 1;
        }
        proof {
            lemma_first_index_unique(rest, ' ', end - start);
            assert(rest.take(end - start) =~= chars@.subrange(start as int, end as int));
        }
        push_linked_token(out, chars, start, end);
        if end == chars.len() {
            assert(chars@.subrange(start as int, end as int) =~= rest);
            more = false;
        } else {
            out.push(' ');
            let mut next: usize = end + 1;
            while next < chars.len() && chars[next] == ' '
                invariant
                    end < next <= chars.len(),
                    forall|j: int| end < j < next ==> chars@[j] == ' ',
                decreases chars.len() - next,
            {
                next += 1;
            }
            let skip_run: bool = end > start && next < chars.len();
            proof {
                let behind = rest.skip(end - start + 1);
                assert(behind =~= chars@.skip(end + 1));
                lemma_leading_run(behind, ' ', next - end - 1);
                if skip_run {
                    assert(behind.skip(next - end - 1) =~= chars@.skip(next as int));
                }
                assert(out@ + linked_hashtags(behind_space(rest, end - start)) =~= before
                    + linked_hashtags(chars@.skip(from as int)));
            }
            start = if skip_run {
                next
            } else {
                end + 1
            };
        }
    }
}

/// Links the hashtags of `text`.
pub fn link_hashtags(text: &str) -> (html: String)
    ensures
        html@ == linked_hashtags(text@),
{
    let chars = chars_of(text);
    let mut out: Vec<char> = Vec::new();
    assert(chars@.skip(0) =~= chars@);
    push_linked_hashtags(&mut out, &chars, 0);
    string_of(&out)
}

/// Links the hashtags of `text` from its first `#` on; what stands before
/// that `#` is kept as it is.
pub fn link_from_first_hashtag(text: &str) -> (html: String)
    ensures
        html@ == linked_from_first_hashtag(text@),
{
    let chars = chars_of(text);
    let first: usize = find_char(&chars, '#');
    proof {
        lemma_first_index(chars@, '#');
    }
    let mut out: Vec<char> = Vec::new();
    push_range(&mut out, &chars, 0, first);
    push_linked_hashtags(&mut out, &chars, first);
    string_of(&out)
}

} // verus!
