use wiki_markup::autolink::{autolink, char_width, substitute_links};

#[test]
fn links_a_url_and_keeps_the_rest() {
    assert_eq!(
        autolink("See https://example.com/x for details"),
        Some(
            "See <a href=\"https://example.com/x\">https://example.com/x</a> for details"
                .to_string()
        )
    );
}

#[test]
fn gives_nothing_without_a_link() {
    assert_eq!(autolink("nothing to see here"), None);
    assert_eq!(autolink("http://"), None);
    assert_eq!(autolink(""), None);
}

#[test]
fn links_every_url_and_keeps_the_text_between() {
    assert_eq!(
        autolink("a http://x.com b https://y.org c"),
        Some(
            "a <a href=\"http://x.com\">http://x.com</a> b <a href=\"https://y.org\">https://y.org</a> c"
                .to_string()
        )
    );
}

#[test]
fn links_a_url_at_the_start_and_at_the_end() {
    assert_eq!(
        autolink("http://x.com and http://y.com"),
        Some(
            "<a href=\"http://x.com\">http://x.com</a> and <a href=\"http://y.com\">http://y.com</a>"
                .to_string()
        )
    );
}

#[test]
fn links_what_the_finder_finds_mail_addresses_too() {
    assert_eq!(
        autolink("write me@example.com now"),
        Some("write <a href=\"me@example.com\">me@example.com</a> now".to_string())
    );
}

#[test]
fn counts_offsets_in_bytes() {
    assert_eq!(
        autolink("é ü https://example.com/x ñ"),
        Some("é ü <a href=\"https://example.com/x\">https://example.com/x</a> ñ".to_string())
    );
}

#[test]
fn does_not_escape_the_url() {
    assert_eq!(
        autolink("https://example.com/?a=1&b=2"),
        Some(
            "<a href=\"https://example.com/?a=1&b=2\">https://example.com/?a=1&b=2</a>"
                .to_string()
        )
    );
}

#[test]
fn substitutes_given_spans() {
    assert_eq!(
        substitute_links("ab cd ef", &[(0, 2), (6, 8)]),
        Some("<a href=\"ab\">ab</a> cd <a href=\"ef\">ef</a>".to_string())
    );
    assert_eq!(
        substitute_links("ab cd ef", &[(3, 5)]),
        Some("ab <a href=\"cd\">cd</a> ef".to_string())
    );
}

#[test]
fn substitutes_adjacent_and_empty_spans() {
    assert_eq!(
        substitute_links("abcd", &[(0, 2), (2, 4)]),
        Some("<a href=\"ab\">ab</a><a href=\"cd\">cd</a>".to_string())
    );
    assert_eq!(
        substitute_links("ab", &[(1, 1)]),
        Some("a<a href=\"\"></a>b".to_string())
    );
}

#[test]
fn keeps_the_text_without_spans() {
    assert_eq!(substitute_links("ab cd", &[]), Some("ab cd".to_string()));
    assert_eq!(substitute_links("", &[]), Some(String::new()));
}

#[test]
fn substitutes_spans_of_wide_characters() {
    // "é" takes two bytes, "€" three, "𝄞" four.
    assert_eq!(
        substitute_links("é€𝄞x", &[(2, 5), (5, 9)]),
        Some("é<a href=\"€\">€</a><a href=\"𝄞\">𝄞</a>x".to_string())
    );
}

#[test]
fn refuses_spans_that_do_not_fit() {
    // past the end
    assert_eq!(substitute_links("abc", &[(1, 4)]), None);
    assert_eq!(substitute_links("abc", &[(4, 5)]), None);
    // end before start
    assert_eq!(substitute_links("abc", &[(2, 1)]), None);
    // overlapping, and out of order
    assert_eq!(substitute_links("abcdef", &[(0, 3), (2, 4)]), None);
    assert_eq!(substitute_links("abcdef", &[(3, 4), (0, 1)]), None);
    // inside a character
    assert_eq!(substitute_links("é", &[(0, 1)]), None);
    assert_eq!(substitute_links("é", &[(1, 2)]), None);
}

#[test]
fn widths_of_characters() {
    assert_eq!(char_width('a'), 1);
    assert_eq!(char_width('\u{7f}'), 1);
    assert_eq!(char_width('\u{80}'), 2);
    assert_eq!(char_width('\u{7ff}'), 2);
    assert_eq!(char_width('\u{800}'), 3);
    assert_eq!(char_width('\u{ffff}'), 3);
    assert_eq!(char_width('\u{10000}'), 4);
    assert_eq!(char_width('\u{10ffff}'), 4);
    for c in ['a', 'é', '€', '𝄞'] {
        assert_eq!(char_width(c), c.len_utf8());
    }
}
