use llm_utils::errors::HtmlError;
use llm_utils::html::{clean_article_html, clean_html};
use llm_utils::links::extract_urls;

#[test]
fn urls_are_extracted_once_each() {
    let urls = extract_urls("Visit https://example.com or https://rust-lang.org, and https://example.com again");
    assert_eq!(urls.len(), 2);
    assert_eq!(urls[0].as_str(), "https://example.com/");
    assert_eq!(urls[1].as_str(), "https://rust-lang.org/");
}

#[test]
fn text_without_links_gives_no_urls() {
    assert!(extract_urls("no links here, only words").is_empty());
    assert!(extract_urls("").is_empty());
}

#[test]
fn article_html_is_rendered_and_cleaned() {
    let text = clean_article_html("<h1>Title</h1><p>First paragraph.</p><p>Second paragraph.</p>").unwrap();
    assert!(text.contains("Title"));
    assert!(text.contains("First paragraph."));
    assert!(!text.contains("<p>"));
    assert!(!text.contains("\n\n\n"));
    assert!(!text.starts_with(char::is_whitespace));
}

#[test]
fn page_html_yields_its_article() {
    let paragraph = "Rust is a systems programming language that runs blazingly fast, prevents segfaults, and guarantees thread safety. ";
    let body = paragraph.repeat(8);
    let html = format!(
        "<html><head><title>Rust</title></head><body><nav><a href=\"/\">Home</a></nav><article><h1>About Rust</h1><p>{}</p><p>{}</p></article></body></html>",
        body, body
    );
    match clean_html(&html) {
        Ok(text) => {
            assert!(text.contains("Rust is a systems programming language"));
            assert!(!text.contains("<p>"));
        }
        Err(HtmlError::Readability(e)) => panic!("extraction failed: {:?}", e),
        Err(HtmlError::Render(e)) => panic!("rendering failed: {:?}", e),
        Err(HtmlError::ZeroColspan) => panic!("unexpected colspan refusal"),
    }
}

#[test]
fn readme_examples() {
    let urls = extract_urls("Visit https://example.com or https://rust-lang.org");
    assert_eq!(urls.len(), 2);
    let text = clean_html("<html><body><h1>Title</h1><p>Content</p></body></html>").unwrap();
    assert!(text.contains("Content"));
}

#[test]
fn links_that_parse_to_the_same_url_give_it_once() {
    let urls = extract_urls("see http://a.com and http://a.com/ and http://a.com then http://b.com/x");
    assert_eq!(urls.len(), 2);
    assert_eq!(urls[0].as_str(), "http://a.com/");
    assert_eq!(urls[1].as_str(), "http://b.com/x");
}

#[test]
fn urls_keep_the_order_of_their_links() {
    let urls = extract_urls("first https://b.org/x then https://a.org/y");
    assert_eq!(urls.len(), 2);
    assert_eq!(urls[0].as_str(), "https://b.org/x");
    assert_eq!(urls[1].as_str(), "https://a.org/y");
}

#[test]
fn control_characters_in_overlong_words_are_dropped() {
    let word = "a\u{1}".repeat(11000);
    let text = clean_article_html(&format!("<p>{}</p>", word)).unwrap();
    assert!(text.starts_with("aaaa"));
    assert!(!text.contains('\u{1}'));
    let text = clean_article_html(&format!("<pre>{}</pre>", word)).unwrap();
    assert!(text.contains("aaaa"));
    assert!(!text.contains('\u{1}'));
}

#[test]
fn pages_with_too_many_elements_are_refused() {
    let html = format!("<html><body>{}</body></html>", "<p>x</p>".repeat(9100));
    assert!(matches!(clean_html(&html), Err(HtmlError::Readability(_))));
}

#[test]
fn zero_colspans_are_refused_before_rendering() {
    for html in [
        "<table><tr><td colspan=\"0\">x</td></tr></table>",
        "<table><tr><td COLSPAN = '00'>x</td></tr></table>",
        "<table><tr><td colspan=+0>x</td></tr></table>",
        "<table><tr><td colspan=\"&#48;\">x</td></tr></table>",
    ] {
        assert!(matches!(clean_article_html(html), Err(HtmlError::ZeroColspan)));
    }
}

#[test]
fn other_colspans_are_rendered() {
    let text = clean_article_html(
        "<table><tr><td colspan=\"2\">wide</td></tr><tr><td>a</td><td>b</td></tr></table>",
    )
    .unwrap();
    assert!(text.contains("wide"));
    let text = clean_article_html("<table><tr><td colspan=01>one</td><td colspan>two</td></tr></table>").unwrap();
    assert!(text.contains("one"));
    assert!(text.contains("two"));
}
