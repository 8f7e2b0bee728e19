use wiki_markup::wikilink::{find_page, wiki_link};

fn names() -> Vec<String> {
    vec!["Help".to_string(), "Solar_Power".to_string(), "help".to_string()]
}

#[test]
fn links_a_page_that_exists_by_its_stored_name() {
    assert_eq!(
        wiki_link("Solar Power", "solar_power", &names()),
        "<a href=\"/Solar_Power\" class=\"\">Solar Power</a>"
    );
}

#[test]
fn takes_the_first_of_several_matches() {
    assert_eq!(
        wiki_link("help", "HELP", &names()),
        "<a href=\"/Help\" class=\"\">help</a>"
    );
    assert_eq!(find_page(&names(), "help"), Some(0));
    assert_eq!(find_page(&names(), "SOLAR_POWER"), Some(1));
}

#[test]
fn offers_to_create_a_page_that_does_not_exist() {
    assert_eq!(
        wiki_link("Wind Power", "wind_power", &names()),
        "<a href=\"/new?name=wind_power\" class=\"new\">Wind Power</a>"
    );
    assert_eq!(
        wiki_link("Help", "help", &[]),
        "<a href=\"/new?name=help\" class=\"new\">Help</a>"
    );
    assert_eq!(find_page(&names(), "wind_power"), None);
    assert_eq!(find_page(&[], ""), None);
}

#[test]
fn folds_ascii_letters_only() {
    let names = vec!["École".to_string()];
    assert_eq!(find_page(&names, "École"), Some(0));
    assert_eq!(find_page(&names, "ÉCOLE"), Some(0));
    assert_eq!(find_page(&names, "école"), None);
    // '@' and '`' stand next to the letters and are not folded onto each other
    assert_eq!(find_page(&["@".to_string()], "`"), None);
    assert_eq!(find_page(&["[".to_string()], "{"), None);
    assert_eq!(find_page(&["Z".to_string()], "z"), Some(0));
    assert_eq!(find_page(&["a".to_string()], "A"), Some(0));
}

#[test]
fn compares_whole_names() {
    assert_eq!(find_page(&["Help".to_string()], "Hel"), None);
    assert_eq!(find_page(&["Hel".to_string()], "Help"), None);
    assert_eq!(find_page(&["".to_string()], ""), Some(0));
}

#[test]
fn does_not_escape_title_or_name() {
    assert_eq!(
        wiki_link("<b>", "\"x\"", &[]),
        "<a href=\"/new?name=\"x\"\" class=\"new\"><b></a>"
    );
}
