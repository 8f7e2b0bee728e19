use wiki_markup::text::{
    chars_of, contains_text, eq_ignore_ascii_case, find_char, fold_ascii, matches_at, push_range,
    push_str, string_of,
};

fn chars(s: &str) -> Vec<char> {
    s.chars().collect()
}

#[test]
fn strings_and_characters() {
    assert_eq!(chars_of("aé€"), vec!['a', 'é', '€']);
    assert_eq!(chars_of(""), Vec::<char>::new());
    assert_eq!(string_of(&['a', 'é', '€']), "aé€");
    assert_eq!(string_of(&[]), "");
    assert_eq!(string_of(&chars_of("round trip")), "round trip");
}

#[test]
fn appends_to_a_vector() {
    let mut out = vec!['x'];
    push_str(&mut out, "yz");
    assert_eq!(out, vec!['x', 'y', 'z']);
    push_range(&mut out, &chars("abcdef"), 2, 4);
    assert_eq!(out, vec!['x', 'y', 'z', 'c', 'd']);
    push_range(&mut out, &chars("abcdef"), 3, 3);
    assert_eq!(out.len(), 5);
}

#[test]
fn finds_the_first_of_a_character() {
    assert_eq!(find_char(&chars("a#b#"), '#'), 1);
    assert_eq!(find_char(&chars("#"), '#'), 0);
    assert_eq!(find_char(&chars("abc"), '#'), 3);
    assert_eq!(find_char(&chars(""), '#'), 0);
}

#[test]
fn finds_a_text_in_a_text() {
    assert!(contains_text(&chars("see http://x"), &chars("http://")));
    assert!(contains_text(&chars("http://"), &chars("http://")));
    assert!(!contains_text(&chars("see https://x"), &chars("http://")));
    assert!(!contains_text(&chars("http:/"), &chars("http://")));
    assert!(contains_text(&chars("abc"), &chars("")));
    assert!(contains_text(&chars(""), &chars("")));
    assert!(!contains_text(&chars(""), &chars("a")));
    assert!(matches_at(&chars("abcd"), &chars("cd"), 2));
    assert!(!matches_at(&chars("abcd"), &chars("cd"), 1));
    assert!(!matches_at(&chars("abcd"), &chars("cd"), 3));
    assert!(!matches_at(&chars("abcd"), &chars("cd"), 9));
}

#[test]
fn folds_the_ascii_capitals() {
    assert_eq!(fold_ascii('A'), 'a' as u32);
    assert_eq!(fold_ascii('Z'), 'z' as u32);
    assert_eq!(fold_ascii('a'), 'a' as u32);
    assert_eq!(fold_ascii('@'), '@' as u32);
    assert_eq!(fold_ascii('['), '[' as u32);
    assert_eq!(fold_ascii('É'), 'É' as u32);
    for c in ['A', 'M', 'Z', 'a', 'z', '0', '@', '[', '`', '{', 'É', 'é'] {
        assert_eq!(fold_ascii(c), c.to_ascii_lowercase() as u32);
    }
}

#[test]
fn compares_without_ascii_case() {
    assert!(eq_ignore_ascii_case(&chars("Solar_Power"), &chars("solar_power")));
    assert!(!eq_ignore_ascii_case(&chars("Solar"), &chars("Solar_Power")));
    assert!(!eq_ignore_ascii_case(&chars("É"), &chars("é")));
    assert!(eq_ignore_ascii_case(&chars(""), &chars("")));
}
