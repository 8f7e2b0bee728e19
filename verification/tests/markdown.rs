use wiki_markup::events::Extensions;
use wiki_markup::markdown::to_html;

fn names() -> Vec<String> {
    vec!["Help".to_string(), "Solar_Power".to_string()]
}

fn slug(title: &str) -> String {
    title.trim().replace(' ', "_")
}

#[test]
fn links_a_reference_to_a_page_that_exists() {
    assert_eq!(
        to_html("See [Help] now", &names(), slug),
        "<p>See <a href=\"/Help\" class=\"\">Help</a> now</p>\n"
    );
    assert_eq!(
        to_html("[solar power]", &names(), slug),
        "<p><a href=\"/Solar_Power\" class=\"\">solar power</a></p>\n"
    );
}

#[test]
fn links_a_reference_to_a_page_that_does_not_exist() {
    assert_eq!(
        to_html("See [Wind Power] now", &names(), slug),
        "<p>See <a href=\"/new?name=Wind_Power\" class=\"new\">Wind Power</a> now</p>\n"
    );
    assert_eq!(
        to_html("[Help]", &[], slug),
        "<p><a href=\"/new?name=Help\" class=\"new\">Help</a></p>\n"
    );
}

#[test]
fn links_a_bare_url() {
    assert_eq!(
        to_html("See https://example.com/x for details", &names(), slug),
        "<p>See <a href=\"https://example.com/x\">https://example.com/x</a> for details</p>\n"
    );
}

#[test]
fn links_hashtags() {
    assert_eq!(
        to_html("x #rust #go notes", &names(), slug),
        "<p>x <a href='/search?tag=rust'>#rust</a> <a href='/search?tag=go'>#go</a> notes</p>\n"
    );
}

#[test]
fn joins_hashtags_with_one_space() {
    assert_eq!(
        to_html("#a  #b", &[], slug),
        "<p><a href='/search?tag=a'>#a</a> <a href='/search?tag=b'>#b</a></p>\n"
    );
}

#[test]
fn linking_again_changes_the_html() {
    let once = wiki_markup::autolink::autolink("http://a.com").unwrap();
    assert_eq!(once, "<a href=\"http://a.com\">http://a.com</a>");
    let twice = wiki_markup::autolink::autolink(&once).unwrap();
    assert_ne!(twice, once);
    assert!(twice.len() > once.len());
}

#[test]
fn keeps_plain_markdown() {
    assert_eq!(
        to_html("just *some* words", &names(), slug),
        "<p>just <em>some</em> words</p>\n"
    );
    assert_eq!(to_html("", &names(), slug), "");
}

#[test]
fn escapes_plain_text_only() {
    assert_eq!(
        to_html("a & b", &names(), slug),
        "<p>a &amp; b</p>\n"
    );
    assert_eq!(
        to_html("[a & b]", &names(), slug),
        "<p><a href=\"/new?name=a_&_b\" class=\"new\">a & b</a></p>\n"
    );
}

#[test]
fn an_unclosed_reference_swallows_the_text_after_it() {
    assert_eq!(
        to_html("[Title without\n\nmore *text* here", &names(), slug),
        "<p></p>\n<p><em></em></p>\n"
    );
    assert_eq!(
        to_html("before [Title #tag https://example.com", &names(), slug),
        "<p>before </p>\n"
    );
}

#[test]
fn a_reference_may_run_over_markup() {
    assert_eq!(
        to_html("[a *b* c]", &names(), slug),
        "<p><em></em><a href=\"/new?name=a_b_c\" class=\"new\">a b c</a></p>\n"
    );
}

#[test]
fn a_markdown_link_is_no_reference() {
    assert_eq!(
        to_html("[Help](x)", &names(), slug),
        "<p><a href=\"x\">Help</a></p>\n"
    );
}

#[test]
fn a_link_in_an_image_description_is_not_written() {
    assert_eq!(
        to_html("![a [Help] b](x.png)", &names(), slug),
        "<p><img src=\"x.png\" alt=\"a  b\" /></p>\n"
    );
}

#[test]
fn parses_with_the_wiki_extensions() {
    assert_eq!(
        Extensions::wiki(),
        Extensions { tables: true, footnotes: true, strikethrough: true, tasklists: true }
    );
    assert_eq!(to_html("~~gone~~", &names(), slug), "<p><del>gone</del></p>\n");
    assert_eq!(
        to_html("- [x] done", &names(), slug),
        "<ul>\n<li><input disabled=\"\" type=\"checkbox\" checked=\"\"/>\ndone</li>\n</ul>\n"
    );
    assert_eq!(
        to_html("|a|\n|-|\n|b|", &names(), slug),
        "<table><thead><tr><th>a</th></tr></thead><tbody>\n<tr><td>b</td></tr>\n</tbody></table>\n"
    );
    // smart punctuation is not among them
    assert_eq!(to_html("a -- b", &names(), slug), "<p>a -- b</p>\n");
}

#[test]
fn takes_a_closure_as_canonicaliser() {
    let prefix = "wiki/".to_string();
    assert_eq!(
        to_html("[Help]", &names(), |title: &str| format!("{}{}", prefix, title)),
        "<p><a href=\"/new?name=wiki/Help\" class=\"new\">Help</a></p>\n"
    );
}
