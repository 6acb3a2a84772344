//! Utilities for preparing text for large language models: text cleaning,
//! HTML-to-text extraction, URL extraction, and the feeds of OPML documents.
pub mod chars;
pub mod colspan;
pub mod errors;
pub mod html;
pub mod links;
pub mod opml;
pub mod text;
pub mod text_laws;
pub mod text_spec;
