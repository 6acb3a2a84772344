//! Error types of the library.
use vstd::prelude::*;

use dom_smoothie::ReadabilityError;
use quick_xml::{DeError, SeError};

verus! {

/// `quick_xml`'s deserialisation error, carried through unchanged.
#[verifier::external_type_specification]
#[verifier::external_body]
pub struct ExDeError(DeError);

/// `quick_xml`'s serialisation error, carried through unchanged.
#[verifier::external_type_specification]
#[verifier::external_body]
pub struct ExSeError(SeError);

/// `dom_smoothie`'s extraction error, carried through unchanged.
#[verifier::external_type_specification]
#[verifier::external_body]
pub struct ExReadabilityError(ReadabilityError);

/// `html2text`'s rendering error, carried through unchanged.
#[verifier::external_type_specification]
#[verifier::external_body]
pub struct ExHtml2TextError(html2text::Error);

/// Errors of OPML processing.
#[derive(Debug)]
pub enum OpmlError {
    /// The outline tree holds a feed that cannot be used.
    BadFeed(String),
    /// The XML text could not be read as an OPML document.
    XmlDeError(DeError),
    /// The document could not be written as XML.
    XmlSerError(SeError),
}

/// Errors of HTML-to-text extraction.
#[derive(Debug)]
pub enum HtmlError {
    /// The readable article could not be extracted from the page.
    Readability(ReadabilityError),
    /// The article's HTML could not be rendered as text.
    Render(html2text::Error),
    /// The article's HTML may hold a table cell whose `colspan` reads as
    /// zero, which the renderer cannot lay out.
    ZeroColspan,
}

} // verus!
