//! Bare URLs become links.
//!
//! A link finder tells where links stand in a text, as pairs of byte
//! offsets into its UTF-8 form. Each span found is wrapped in an anchor
//! whose target and visible text are the span itself; the text around the
//! spans is kept as it is, and nothing is escaped.
use vstd::prelude::*;
use vstd::utf8::{char_is_scalar, encode_scalar, encode_utf8};
use crate::text::{chars_of, push_range, push_str, string_of};

verus! {

/// Number of bytes that `c` takes in UTF-8.
pub open spec fn utf8_width(c: char) -> nat {
    if (c as u32) < 0x80 {
        1
    } else if (c as u32) < 0x800 {
        2
    } else if (c as u32) < 0x10000 {
        3
    } else {
        4
    }
}

/// Number of bytes that `s` takes in UTF-8.
pub open spec fn utf8_len(s: Seq<char>) -> nat
    decreases s.len(),
{
    if s.len() == 0 {
        0
    } else {
        utf8_len(s.drop_last()) + utf8_width(s.last())
    }
}

/// The first `k` characters of `t` take exactly `byte` bytes: byte offset
/// `byte` is where character `k` begins, or the end of `t`.
pub open spec fn boundary_at(t: Seq<char>, byte: int, k: int) -> bool {
    0 <= k <= t.len() && utf8_len(t.take(k)) == byte
}

/// Byte offset `byte` does not fall inside a character of `t`, nor past its end.
pub open spec fn is_boundary(t: Seq<char>, byte: int) -> bool {
    exists|k: int| boundary_at(t, byte, k)
}

/// The character index that byte offset `byte` stands for.
pub open spec fn char_index(t: Seq<char>, byte: int) -> int {
    choose|k: int| boundary_at(t, byte, k)
}

/// Span `i` is a range of whole characters of `t` that begins no earlier
/// than the span before it ends.
pub open spec fn span_fits(t: Seq<char>, spans: Seq<(usize, usize)>, i: int) -> bool {
    &&& spans[i].0 <= spans[i].1
    &&& is_boundary(t, spans[i].0 as int)
    &&& is_boundary(t, spans[i].1 as int)
    &&& i > 0 ==> spans[i - 1].1 <= spans[i].0
}

/// The spans are ordered, do not overlap, and each is a range of whole
/// characters of `t`.
pub open spec fn spans_fit(t: Seq<char>, spans: Seq<(usize, usize)>) -> bool {
    forall|i: int| 0 <= i < spans.len() ==> #[trigger] span_fits(t, spans, i)
}

/// The anchor that links `url` to itself.
pub open spec fn url_anchor(url: Seq<char>) -> Seq<char> {
    "<a href=\""@ + url + "\">"@ + url + "</a>"@
}

/// Character index at which the last of `spans` ends; 0 where there is none.
pub open spec fn spans_end(t: Seq<char>, spans: Seq<(usize, usize)>) -> int {
    if spans.len() == 0 {
        0
    } else {
        char_index(t, spans.last().1 as int)
    }
}

/// `t` up to the end of the last span, each span replaced by its anchor.
pub open spec fn linked_prefix(t: Seq<char>, spans: Seq<(usize, usize)>) -> Seq<char>
    decreases spans.len(),
{
    if spans.len() == 0 {
        Seq::empty()
    } else {
        let start = char_index(t, spans.last().0 as int);
        let end = char_index(t, spans.last().1 as int);
        linked_prefix(t, spans.drop_last()) + t.subrange(spans_end(t, spans.drop_last()), start)
            + url_anchor(t.subrange(start, end))
    }
}

/// `t` with each span replaced by its anchor and everything else kept.
pub open spec fn linked(t: Seq<char>, spans: Seq<(usize, usize)>) -> Seq<char> {
    linked_prefix(t, spans) + t.skip(spans_end(t, spans))
}

/// What the autolinker makes of `t`, given the spans found in it: nothing
/// where no span was found or the spans do not fit `t`.
pub open spec fn autolinked(t: Seq<char>, spans: Seq<(usize, usize)>) -> Option<Seq<char>> {
    if spans.len() > 0 && spans_fit(t, spans) {
        Some(linked(t, spans))
    } else {
        None
    }
}

/// The encoding of a text with one more character is the encoding of the
/// text followed by that of the character.
proof fn lemma_encode_push(s: Seq<char>, c: char)
    ensures
        encode_utf8(s.push(c)) == encode_utf8(s) + encode_scalar(c as u32),
    decreases s.len(),
{
    if s.len() == 0 {
        assert(s.push(c).drop_first() =~= s);
        assert(encode_utf8(s) =~= Seq::<u8>::empty());
        assert(encode_utf8(s.push(c)) =~= encode_scalar(c as u32) + encode_utf8(s));
        assert(encode_scalar(c as u32) + Seq::<u8>::empty() =~= Seq::<u8>::empty()
            + encode_scalar(c as u32));
    } else {
        assert(s.push(c).drop_first() =~= s.drop_first().push(c));
        lemma_encode_push(s.drop_first(), c);
        assert(encode_scalar(s[0] as u32) + (encode_utf8(s.drop_first()) + encode_scalar(
            c as u32,
        )) =~= (encode_scalar(s[0] as u32) + encode_utf8(s.drop_first())) + encode_scalar(
            c as u32,
        ));
    }
}

/// `utf8_len` is the length of the UTF-8 encoding, which is what
/// `str::len` counts.
pub proof fn lemma_utf8_len_is_encoded_len(s: Seq<char>)
    ensures
        utf8_len(s) == encode_utf8(s).len(),
    decreases s.len(),
{
    if s.len() > 0 {
        let c = s.last();
        lemma_utf8_len_is_encoded_len(s.drop_last());
        lemma_encode_push(s.drop_last(), c);
        assert(s.drop_last().push(c) =~= s);
        char_is_scalar(c);
    }
}

/// One more character adds its width.
pub proof fn lemma_utf8_len_step(t: Seq<char>, k: int)
    requires
        0 <= k < t.len(),
    ensures
        utf8_len(t.take(k + 1)) == utf8_len(t.take(k)) + utf8_width(t[k]),
{
    assert(t.take(k + 1).drop_last() =~= t.take(k));
}

/// A longer prefix takes more bytes.
pub proof fn lemma_utf8_len_increases(t: Seq<char>, j: int, k: int)
    requires
        0 <= j <= k <= t.len(),
    ensures
        utf8_len(t.take(j)) + (k - j) <= utf8_len(t.take(k)),
    decreases k - j,
{
    if j < k {
        lemma_utf8_len_increases(t, j, k - 1);
        lemma_utf8_len_step(t, k - 1);
    }
}

/// A byte offset stands for at most one character index.
pub proof fn lemma_boundary_unique(t: Seq<char>, byte: int, k: int)
    requires
        boundary_at(t, byte, k),
    ensures
        is_boundary(t, byte),
        char_index(t, byte) == k,
{
    let other = char_index(t, byte);
    if other < k {
        lemma_utf8_len_increases(t, other, k);
    } else if k < other {
        lemma_utf8_len_increases(t, k, other);
    }
}

/// No boundary lies strictly between two neighbouring ones, nor past the end.
proof fn lemma_no_boundary(t: Seq<char>, byte: int, k: int)
    requires
        0 <= k <= t.len(),
        utf8_len(t.take(k)) < byte,
        k < t.len() ==> byte < utf8_len(t.take(k + 1)),
    ensures
        !is_boundary(t, byte),
{
    if is_boundary(t, byte) {
        let other = char_index(t, byte);
        if other <= k {
            lemma_utf8_len_increases(t, other, k);
        } else {
            lemma_utf8_len_increases(t, k + 1, other);
        }
    }
}

/// Boundaries lie in the order of their byte offsets.
pub proof fn lemma_boundaries_ordered(t: Seq<char>, first: int, second: int)
    requires
        is_boundary(t, first),
        is_boundary(t, second),
        first <= second,
    ensures
        0 <= char_index(t, first) <= char_index(t, second) <= t.len(),
{
    let j = char_index(t, first);
    let k = char_index(t, second);
    if k < j {
        lemma_utf8_len_increases(t, k, j);
    }
}

/// The spans before the last fit where all of them do.
proof fn lemma_spans_fit_drop_last(t: Seq<char>, spans: Seq<(usize, usize)>)
    requires
        spans.len() > 0,
        spans_fit(t, spans),
    ensures
        spans_fit(t, spans.drop_last()),
{
    let init = spans.drop_last();
    assert forall|i: int| 0 <= i < init.len() implies #[trigger] span_fits(t, init, i) by {
        assert(span_fits(t, spans, i));
    }
}

/// An anchor is fifteen characters longer than twice its URL.
proof fn lemma_url_anchor_len(url: Seq<char>)
    ensures
        url_anchor(url).len() == 2 * url.len() + 15,
{
    reveal_strlit("<a href=\"");
    reveal_strlit("\">");
    reveal_strlit("</a>");
}

/// Where the spans fit, the last of them ends inside the text, and the
/// text up to there grows by at least fifteen characters for each span.
proof fn lemma_linked_prefix_len(t: Seq<char>, spans: Seq<(usize, usize)>)
    requires
        spans_fit(t, spans),
    ensures
        0 <= spans_end(t, spans) <= t.len(),
        linked_prefix(t, spans).len() >= spans_end(t, spans) + 15 * spans.len(),
    decreases spans.len(),
{
    if spans.len() > 0 {
        let init = spans.drop_last();
        let last = spans.len() - 1;
        lemma_spans_fit_drop_last(t, spans);
        lemma_linked_prefix_len(t, init);
        assert(span_fits(t, spans, last));
        let start = char_index(t, spans.last().0 as int);
        let end = char_index(t, spans.last().1 as int);
        lemma_boundaries_ordered(t, spans.last().0 as int, spans.last().1 as int);
        if init.len() > 0 {
            assert(init.last() == spans[last - 1]);
            assert(span_fits(t, spans, last - 1));
            lemma_boundaries_ordered(t, init.last().1 as int, spans.last().0 as int);
        }
        lemma_url_anchor_len(t.subrange(start, end));
    }
}

/// Linking lengthens a text: what the autolinker makes of a text is
/// longer than the text, by at least fifteen characters for each span.
pub proof fn lemma_autolinked_is_longer(t: Seq<char>, spans: Seq<(usize, usize)>)
    ensures
        match autolinked(t, spans) {
            Some(html) => html.len() >= t.len() + 15 * spans.len() && html.len() > t.len(),
            None => true,
        },
{
    if spans.len() > 0 && spans_fit(t, spans) {
        lemma_linked_prefix_len(t, spans);
    }
}

/// Linking twice is not linking once: where the autolinker finds
/// something in its own output, what it makes of it is longer again, and
/// so another text.
pub proof fn lemma_linking_again_differs(
    t: Seq<char>,
    spans: Seq<(usize, usize)>,
    again: Seq<(usize, usize)>,
)
    requires
        autolinked(t, spans) is Some,
        autolinked(autolinked(t, spans)->0, again) is Some,
    ensures
        autolinked(autolinked(t, spans)->0, again) != autolinked(t, spans),
        autolinked(autolinked(t, spans)->0, again)->0.len() > autolinked(t, spans)->0.len(),
        autolinked(t, spans)->0.len() > t.len(),
{
    lemma_autolinked_is_longer(t, spans);
    lemma_autolinked_is_longer(autolinked(t, spans)->0, again);
}

/// Number of bytes that `c` takes in UTF-8.
pub fn char_width(c: char) -> (width: usize)
    ensures
        width == utf8_width(c),
{
    let code: u32 = c as u32;
    if code < 0x80 {
        1
    } else if code < 0x800 {
        2
    } else if code < 0x10000 {
        3
    } else {
        4
    }
}

/// Walks from character `k`, which begins at byte `pos`, to the character
/// that begins at byte `target`.
fn advance(chars: &[char], k: usize, pos: usize, target: usize) -> (reached: Option<usize>)
    requires
        boundary_at(chars@, pos as int, k as int),
        pos <= target,
    ensures
        match reached {
            Some(index) => k <= index && boundary_at(chars@, target as int, index as int),
            None => !is_boundary(chars@, target as int),
        },
{
    let mut index: usize = k;
    let mut at: usize = pos;
    while at < target
        invariant
            k <= index,
            at <= target,
            boundary_at(chars@, at as int, index as int),
        decreases target - at,
    {
        if index == chars.len() {
            proof {
                lemma_no_boundary(chars@, target as int, index as int);
            }
            return None;
        }
        let width: usize = char_width(chars[index]);
        proof {
            lemma_utf8_len_step(chars@, index as int);
        }
        if width > target - at {
            proof {
                lemma_no_boundary(chars@, target as int, index as int);
            }
            return None;
        }
        at += width;
        index += 1;
    }
    Some(index)
}

/// Replaces each of `spans` in `text` by an anchor that links the span's
/// text to itself, and keeps the rest of `text` as it is. Gives nothing
/// where the spans do not fit `text`.
pub fn substitute_links(text: &str, spans: &[(usize, usize)]) -> (out: Option<String>)
    ensures
        match out {
            Some(html) => spans_fit(text@, spans@) && html@ == linked(text@, spans@),
            None => !spans_fit(text@, spans@),
        },
{
    let chars = chars_of(text);
    let mut out: Vec<char> = Vec::new();
    let mut k: usize = 0;
    let mut pos: usize = 0;
    let mut i: usize = 0;
    assert(chars@.take(0) =~= Seq::<char>::empty());
    while i < spans.len()
        invariant
            chars@ == text@,
            i <= spans.len(),
            boundary_at(chars@, pos as int, k as int),
            i == 0 ==> pos == 0,
            i > 0 ==> pos == spans@[i - 1].1,
            spans_fit(chars@, spans@.take(i as int)),
            k == spans_end(chars@, spans@.take(i as int)),
            out@ == linked_prefix(chars@, spans@.take(i as int)),
        decreases spans.len() - i,
    {
        let start_byte: usize = spans[i].0;
        let end_byte: usize = spans[i].1;
        if start_byte < pos || end_byte < start_byte {
            assert(!span_fits(chars@, spans@, i as int));
            return None;
        }
        let start: usize = match advance(&chars, k, pos, start_byte) {
            Some(index) => index,
            None => {
                assert(!span_fits(chars@, spans@, i as int));
                return None;
            },
        };
        let end: usize = match advance(&chars, start, start_byte, end_byte) {
            Some(index) => index,
            None => {
                assert(!span_fits(chars@, spans@, i as int));
                return None;
            },
        };
        proof {
            let done = spans@.take(i as int);
            let next = spans@.take(i + 1);
            lemma_boundary_unique(chars@, start_byte as int, start as int);
            lemma_boundary_unique(chars@, end_byte as int, end as int);
            assert(next.drop_last() =~= done);
            assert(next.last() == spans@[i as int]);
            assert forall|j: int| 0 <= j < next.len() implies #[trigger] span_fits(
                chars@,
                next,
                j,
            ) by {
                if j < i {
                    assert(span_fits(chars@, done, j));
                }
            }
        }
        push_range(&mut out, &chars, k, start);
        push_str(&mut out, "<a href=\"");
        push_range(&mut out, &chars, start, end);
        push_str(&mut out, "\">");
        push_range(&mut out, &chars, start, end);
        push_str(&mut out, "</a>");
        k = end;
        pos = end_byte;
        i += 1;
    }
    assert(spans@.take(spans@.len() as int) =~= spans@);
    push_range(&mut out, &chars, k, chars.len());
    Some(string_of(&out))
}

/// The spans that the link finder finds in a text: what `find_links`
/// returns for it.
pub uninterp spec fn link_spans(text: Seq<char>) -> Seq<(usize, usize)>;

/// Calls `linkify::LinkFinder::links` on `text`, with the finder as
/// `linkify::LinkFinder::new` makes it, and hands out the start and end of
/// each link it yields, in the order it yields them. The finder looks at
/// `text` alone, so the spans are a function of `text`; nothing else is
/// claimed of them.
#[verifier::external_body]
fn find_links(text: &str) -> (spans: Vec<(usize, usize)>)
    ensures
        spans@ == link_spans(text@),
{
    linkify::LinkFinder::new().links(text).map(|link| (link.start(), link.end())).collect()
}

/// Links the URLs that the link finder finds in `text`. Gives nothing
/// where it finds none, so that the caller keeps `text` as plain text.
pub fn autolink(text: &str) -> (out: Option<String>)
    ensures
        match out {
            Some(html) => autolinked(text@, link_spans(text@)) == Some(html@),
            None => autolinked(text@, link_spans(text@)) is None,
        },
{
    let spans = find_links(text);
    if spans.len() == 0 {
        None
    } else {
        substitute_links(text, spans.as_slice())
    }
}

} // verus!
