//! HTML-to-text extraction: the readable article of a page, rendered as
//! structured text and cleaned for language-model input.
use std::io::Cursor;

use dom_smoothie::{Config, Readability, ReadabilityError};
use vstd::prelude::*;

use crate::chars::chars_of;
use crate::colspan::{has_zero_colspan, zero_colspan_in};
use crate::errors::HtmlError;
use crate::text::{Newlines, TextCleaner};
use crate::text_spec::clean_text;

verus! {

/// The largest number of elements a page may have to be parsed.
pub const MAX_ELEMENTS_TO_PARSE: usize = 9000;

/// The column width the article is rendered at.
pub const RENDER_WIDTH: usize = 10000;

/// What `html2text` renders the HTML `html` as, at `width` columns; `None`
/// when it reports an error.
pub uninterp spec fn rendered_text(html: Seq<char>, width: usize) -> Option<Seq<char>>;

/// Trusted: `html2text::from_read`, reading the UTF-8 bytes of `html`
/// through a `std::io::Cursor`. The contract names its result, which is a
/// function of the HTML and the width. HTML that may hold a table cell
/// whose `colspan` reads as zero is excluded: the table layout looks up the
/// column that such a cell ends at and unwraps the lookup. Control characters
/// need no exclusion: the renderer adds to a word only characters that have a
/// display width. That no other input makes it panic is assumed, not read.
#[verifier::external_body]
fn render_html(html: &str, width: usize) -> (res: Result<String, html2text::Error>)
    requires
        !has_zero_colspan(html@),
    ensures
        match res {
            Ok(t) => rendered_text(html@, width) == Some(t@),
            Err(_) => rendered_text(html@, width) is None,
        },
{
    html2text::from_read(Cursor::new(html.as_bytes()), width)
}

/// The HTML content of the article that `dom_smoothie` extracts from the page
/// `html` found at `document_url`, parsing at most `max_elements_to_parse`
/// elements; `None` when it reports an error.
pub uninterp spec fn article_content(
    html: Seq<char>,
    document_url: Seq<char>,
    max_elements_to_parse: usize,
) -> Option<Seq<char>>;

/// Trusted: `dom_smoothie::Readability::new(html, Some(document_url), Some(cfg))`
/// with `cfg` the default `Config` but for `max_elements_to_parse`, then
/// `Readability::parse`, keeping the article's HTML `content`. The contract
/// names the content, which depends on these arguments alone (the extraction
/// breaks ties between candidates by node, not by the order of a hash map).
/// That the extraction never panics is assumed, not read.
#[verifier::external_body]
fn extract_article_content(
    html: &str,
    document_url: &str,
    max_elements_to_parse: usize,
) -> (res: Result<String, ReadabilityError>)
    ensures
        match res {
            Ok(c) => article_content(html@, document_url@, max_elements_to_parse) == Some(c@),
            Err(_) => article_content(html@, document_url@, max_elements_to_parse) is None,
        },
{
    let cfg = Config { max_elements_to_parse, ..Default::default() };
    let mut readable = Readability::new(html, Some(document_url), Some(cfg))?;
    readable.parse().map(|article| article.content.to_string())
}

/// The address the page is taken to come from, for resolving its links.
pub const DOCUMENT_URL: &'static str = "http://example.com";

/// The cleaner used for extracted articles: line breaks reduced to at most
/// two line feeds.
pub open spec fn article_cleaner() -> TextCleaner {
    TextCleaner {
        newlines: Newlines::TwoPlus,
        remove_non_basic_ascii: false,
        remove_citations: false,
    }
}

/// Render the HTML of an extracted article as structured text, preserving
/// headings, lists, links and tables, and clean up excess white space.
pub fn clean_article_html(content: &str) -> (res: Result<String, HtmlError>)
    ensures
        if has_zero_colspan(content@) {
            res matches Err(HtmlError::ZeroColspan)
        } else {
            match rendered_text(content@, RENDER_WIDTH) {
                Some(t) => res matches Ok(s) && s@ == clean_text(
                    (TextCleaner {
                        newlines: Newlines::TwoPlus,
                        remove_non_basic_ascii: false,
                        remove_citations: false,
                    }),
                    t,
                ),
                None => res matches Err(HtmlError::Render(_)),
            }
        },
{
    let chars = chars_of(content);
    if zero_colspan_in(&chars) {
        return Err(HtmlError::ZeroColspan);
    }
    match render_html(content, RENDER_WIDTH) {
        Ok(text) => Ok(TextCleaner::new().reduce_newlines_to_double_newline().run(text.as_str())),
        Err(e) => Err(HtmlError::Render(e)),
    }
}

/// Clean HTML content and convert to Markdown-like structured text.
/// This preserves structural elements like headings, lists, and tables
/// which are valuable for LLM understanding.
pub fn clean_html(html: &str) -> (res: Result<String, HtmlError>)
    ensures
        match article_content(html@, DOCUMENT_URL@, MAX_ELEMENTS_TO_PARSE) {
            None => res matches Err(HtmlError::Readability(_)),
            Some(c) => if has_zero_colspan(c) {
                res matches Err(HtmlError::ZeroColspan)
            } else {
                match rendered_text(c, RENDER_WIDTH) {
                    Some(t) => res matches Ok(s) && s@ == clean_text(
                    (TextCleaner {
                        newlines: Newlines::TwoPlus,
                        remove_non_basic_ascii: false,
                        remove_citations: false,
                    }),
                    t,
                ),
                    None => res matches Err(HtmlError::Render(_)),
                }
            },
        },
{
    match extract_article_content(html, DOCUMENT_URL, MAX_ELEMENTS_TO_PARSE) {
        Ok(content) => clean_article_html(content.as_str()),
        Err(e) => Err(HtmlError::Readability(e)),
    }
}

} // verus!
