use llm_utils::text::{normalize_whitespace, Newlines, TextCleaner};

#[test]
fn default_cleaner_reduces_to_double_newlines() {
    let cleaner = TextCleaner::new();
    assert!(cleaner.newlines == Newlines::TwoPlus);
    assert!(!cleaner.remove_non_basic_ascii);
    assert!(!cleaner.remove_citations);
    assert!(Newlines::default() == Newlines::TwoPlus);
}

#[test]
fn builders_set_one_field_each() {
    let c = TextCleaner::new().remove_citations().reduce_newlines_to_single_space();
    assert!(c.newlines == Newlines::Space);
    assert!(c.remove_citations);
    assert!(!c.remove_non_basic_ascii);
    let c = TextCleaner::new().remove_non_basic_ascii().do_not_reduce_newlines();
    assert!(c.newlines == Newlines::Keep);
    assert!(c.remove_non_basic_ascii);
    assert!(!c.remove_citations);
}

#[test]
fn double_newline_mode_caps_line_feed_runs() {
    assert_eq!(TextCleaner::new().run("a\n\n\n\nb"), "a\n\nb");
    assert_eq!(TextCleaner::new().run("a\r\nb"), "a\nb");
}

#[test]
fn single_newline_mode_caps_line_feed_runs() {
    assert_eq!(TextCleaner::new().reduce_newlines_to_single_newline().run("a\n\n\nb"), "a\nb");
}

#[test]
fn keep_mode_writes_every_line_break() {
    assert_eq!(TextCleaner::new().do_not_reduce_newlines().run("a\n\n\nb"), "a\n\n\nb");
    assert_eq!(
        TextCleaner::new().do_not_reduce_newlines().run("a\u{2029}\u{2029}b"),
        "a\n\n\n\nb"
    );
}

#[test]
fn single_space_mode_output_has_no_line_feed() {
    let out = TextCleaner::new()
        .reduce_newlines_to_single_space()
        .run("one\ntwo\r\n\r\nthree\u{2029}four\\nfive\n");
    assert!(!out.contains('\n'));
    assert_eq!(out, "one two three four five");
    // A space before a line break is kept, and the break adds another one.
    assert_eq!(TextCleaner::new().reduce_newlines_to_single_space().run("a \nb"), "a  b");
}

#[test]
fn output_is_trimmed() {
    assert_eq!(TextCleaner::new().do_not_reduce_newlines().run("  hello  \n\n\n\n"), "hello \n\n");
    assert_eq!(TextCleaner::new().run("\n\n \t "), "");
    assert_eq!(TextCleaner::new().run(""), "");
}

#[test]
fn white_space_is_normalised() {
    let out = normalize_whitespace("a\tb\u{00A0}c\u{3000}d\u{2028}e\x0Bf\x0Cg\r\nh");
    assert_eq!(out, "a b c d\ne\nf\ng\nh");
}

#[test]
fn escapes_are_interpreted() {
    assert_eq!(TextCleaner::new().run("a\\sb"), "a b");
    assert_eq!(TextCleaner::new().run("a\\qb"), "a\\qb");
    assert_eq!(TextCleaner::new().run("end\\"), "end\\");
}

#[test]
fn control_characters_are_kept_without_the_filter() {
    assert_eq!(TextCleaner::new().run("a\x00b"), "a\x00b");
}

#[test]
fn control_filter_can_join_line_feed_runs() {
    // A dropped control character between two paragraph breaks leaves both.
    assert_eq!(TextCleaner::new().remove_non_basic_ascii().run("a\n\n\x00\n\nb"), "a\n\n\n\nb");
}

#[test]
fn citations_before_punctuation_take_the_space() {
    let cleaner = TextCleaner::new().remove_citations();
    assert_eq!(cleaner.run("see [1]."), "see.");
    assert_eq!(cleaner.run("a [12]b"), "a b");
    assert_eq!(cleaner.run("[1]"), "");
    assert_eq!(cleaner.run("x [ 3 ] , y"), "x , y");
}

#[test]
fn unfinished_brackets_are_written_back() {
    let cleaner = TextCleaner::new().remove_citations();
    assert_eq!(cleaner.run("[1, 2 x"), "[1, 2 x");
    assert_eq!(cleaner.run("[] [a] [-]"), "[] [a] [-]");
    // Without citation removal, citations stay.
    assert_eq!(TextCleaner::new().run("see [1]."), "see [1].");
}

#[test]
fn runs_of_white_space_collapse_to_one_space() {
    assert_eq!(TextCleaner::new().run("a  \t  b \u{00A0}\u{3000} c\\s\\t d"), "a b c d");
    assert_eq!(TextCleaner::new().do_not_reduce_newlines().run("one \n\n  two"), "one \n\n two");
}

#[test]
fn readme_example() {
    let cleaner = TextCleaner::new().reduce_newlines_to_double_newline();
    assert_eq!(cleaner.run("Hello\r\n\r\n\r\nWorld!"), "Hello\n\nWorld!");
    let cleaner = TextCleaner::new().reduce_newlines_to_single_newline();
    assert_eq!(cleaner.run("Hello\r\n\r\n\r\nWorld!"), "Hello\r\nWorld!");
}

#[test]
fn single_newline_mode_keeps_a_leading_crlf() {
    let cleaner = TextCleaner::new().reduce_newlines_to_single_newline();
    assert_eq!(cleaner.run("a\r\nb\nc"), "a\r\nb\nc");
    assert_eq!(cleaner.run("a\n\r\nb"), "a\nb");
    assert_eq!(cleaner.run("a\r\n \r\nb"), "a\r\n \r\nb");
    // Other modes write every line break as a line feed.
    assert_eq!(TextCleaner::new().do_not_reduce_newlines().run("a\r\nb"), "a\nb");
    // A final CRLF is one line end, trimmed to one line feed.
    assert_eq!(cleaner.run("a\r\n"), "a\n");
    assert_eq!(cleaner.run("a\r\n  "), "a\n");
    assert_eq!(TextCleaner::new().run("a\r\n\r\n\r\n"), "a\n\n");
}

#[test]
fn control_filter_removes_only_ascii_controls() {
    let cleaner = TextCleaner::new().remove_non_basic_ascii();
    assert_eq!(cleaner.run("a\x7Fb\u{0085}c\u{009F}d\x1Be"), "ab\u{0085}c\u{009F}de");
}

#[test]
fn cleaning_a_cleaned_text_changes_nothing() {
    let inputs = [
        "  Ascii\tspaces here.\u{00A0}\n\n\n\nParagraph\\s\\n\\nthree\r\n\r\nend\\\\n  \n\n\n",
        "a\\\\sb \\q \u{2028}\u{2029} c",
        "x\r\ny\u{0085}z\n \n w",
    ];
    for cleaner in [
        TextCleaner::new(),
        TextCleaner::new().do_not_reduce_newlines(),
        TextCleaner::new().reduce_newlines_to_single_newline(),
    ] {
        for input in inputs {
            let once = cleaner.run(input);
            assert_eq!(cleaner.run(&once), once);
        }
    }
    let single = TextCleaner::new().reduce_newlines_to_single_newline();
    assert_eq!(single.run("a\r\n"), "a\n");
    assert_eq!(single.run("a\n"), "a\n");
    // Single-space mode keeps a space before a line break and adds one.
    let space = TextCleaner::new().reduce_newlines_to_single_space();
    assert_eq!(space.run("a \nb"), "a  b");
    assert_eq!(space.run("a  b"), "a b");
}
