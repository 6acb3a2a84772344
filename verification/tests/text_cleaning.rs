use llm_utils::text::{normalize_whitespace, TextCleaner};

#[test]
fn test_clean_to_single_spaces() {
    let ascii_text =
        "Ascii\tspaces here. Unicode\u{00A0}spaces here.\n And\nof course, newlines.\n\n";
    let ascii_result = "Ascii spaces here. Unicode spaces here. And of course, newlines.";
    assert_eq!(
        TextCleaner::new().reduce_newlines_to_single_space().run(ascii_text),
        ascii_result
    );
}

#[test]
fn test_clean_to_single_newlines() {
    let ascii_text =
        "Ascii\tspaces here. Unicode\u{00A0}spaces here.\nAnd of course, newlines.\n\nCool.";
    let ascii_result =
        "Ascii spaces here. Unicode spaces here.\nAnd of course, newlines.\nCool.";
    assert_eq!(
        TextCleaner::new().reduce_newlines_to_single_newline().run(ascii_text),
        ascii_result
    );
}

#[test]
fn test_clean_to_double_newlines() {
    let ascii_text = "Ascii\tspaces here. Unicode\u{00A0}spaces here.\n\nAscii\n\nparagraphs.\r\n\r\nUnicode\u{2029}paragraphs.\u{2029}\u{2028} Literal\\n\\nparagraphs.\\r\\n\\r\\n";
    let ascii_result = "Ascii spaces here. Unicode spaces here.\n\nAscii\n\nparagraphs.\n\nUnicode\n\nparagraphs.\n\n Literal\n\nparagraphs.\n\n";
    assert_eq!(
        TextCleaner::new().reduce_newlines_to_double_newline().run(ascii_text),
        ascii_result
    );
}

#[test]
fn test_strip_control_chars() {
    // Blacklist approach: only control chars are removed, all visible text
    // including multilingual content is preserved
    let text_with_controls = "Hello\x00World\x01Test\u{00A0}Normal\u{2029}End";
    let expected = "HelloWorldTest Normal\n\nEnd";
    assert_eq!(
        TextCleaner::new()
            .do_not_reduce_newlines()
            .remove_non_basic_ascii()
            .run(text_with_controls),
        expected
    );
}

#[test]
fn test_preserves_urls_and_code() {
    let text = "Visit https://example.com/path_to/file and run x = y + 1";
    let expected = "Visit https://example.com/path_to/file and run x = y + 1";
    assert_eq!(
        TextCleaner::new().do_not_reduce_newlines().remove_non_basic_ascii().run(text),
        expected
    );
}

#[test]
fn test_preserves_multilingual_text() {
    let text = "Hello 世界 Bonne année Привет";
    assert_eq!(
        TextCleaner::new().do_not_reduce_newlines().remove_non_basic_ascii().run(text),
        text
    );
}

#[test]
fn test_normalize_whitespace() {
    let ascii_text = "Ascii\tspaces here. Unicode\u{00A0}spaces here. Literal\\sspaces\\t.";
    let ascii_result = "Ascii spaces here. Unicode spaces here. Literal spaces .";
    assert_eq!(normalize_whitespace(ascii_text), ascii_result);

    let ascii_text =
        "Ascii\nnewlines\n. Unicode\u{2028}newlines.\u{2028}. Literal\\nnewlines.\\n";
    let ascii_result = "Ascii\nnewlines\n. Unicode\nnewlines.\n. Literal\nnewlines.\n";
    assert_eq!(normalize_whitespace(ascii_text), ascii_result);

    let ascii_text = "Ascii\n\nparagraphs\r\n\r\n.Unicode\u{2029}paragraphs.\u{2029} Literal\\n\\nparagraphs.\\r\\n\\r\\n";
    let result = normalize_whitespace(ascii_text);
    let ascii_result =
        "Ascii\n\nparagraphs\n\n.Unicode\n\nparagraphs.\n\n Literal\n\nparagraphs.\n\n";
    assert_eq!(result, ascii_result);
}

#[test]
fn test_remove_compound_citations() {
    let text = "Studies show this [1, 2] and also [3-5] plus [6, 7, 8].";
    let expected = "Studies show this and also plus.";
    assert_eq!(TextCleaner::new().remove_citations().run(text), expected);
}

#[test]
fn test_preserves_non_citation_brackets() {
    let text = "Array [1, 2, 3] and link [click here] are not citations.";
    let expected = "Array and link [click here] are not citations.";
    assert_eq!(TextCleaner::new().remove_citations().run(text), expected);
}

#[test]
fn test_preserves_markdown_links() {
    let text = "See [this link](https://example.com) for details.";
    let expected = "See [this link](https://example.com) for details.";
    assert_eq!(TextCleaner::new().remove_citations().run(text), expected);
}
