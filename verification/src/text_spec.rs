//! The mathematical model of the text cleaner: how one pass over the
//! characters of a text classifies them, how each classified step changes
//! the cleaning state, and how the final buffer is trimmed.
use vstd::prelude::*;

use crate::text::{Newlines, TextCleaner};

verus! {

/// Characters that end a line (or a paragraph, for U+2029).
pub open spec fn is_line_break(c: char) -> bool {
    ||| c == '\r'
    ||| c == '\n'
    ||| c == '\x0B'
    ||| c == '\x0C'
    ||| c == '\u{2028}'
    ||| c == '\u{2029}'
}

/// Characters that the cleaner treats as horizontal white space.
pub open spec fn is_blank(c: char) -> bool {
    ||| c == ' '
    ||| c == '\t'
    ||| c == '\u{00A0}'
    ||| c == '\u{1680}'
    ||| (0x2000 <= (c as u32) && (c as u32) <= 0x200A)
    ||| c == '\u{202F}'
    ||| c == '\u{205F}'
    ||| c == '\u{3000}'
}

/// Unicode's `White_Space` property (the characters `char::is_whitespace` accepts).
pub open spec fn is_unicode_white_space(c: char) -> bool {
    ||| (0x09 <= (c as u32) && (c as u32) <= 0x0D)
    ||| c == ' '
    ||| c == '\u{0085}'
    ||| c == '\u{00A0}'
    ||| c == '\u{1680}'
    ||| (0x2000 <= (c as u32) && (c as u32) <= 0x200A)
    ||| c == '\u{2028}'
    ||| c == '\u{2029}'
    ||| c == '\u{202F}'
    ||| c == '\u{205F}'
    ||| c == '\u{3000}'
}

/// The ASCII control characters (the characters `char::is_ascii_control` accepts).
pub open spec fn is_ascii_control_char(c: char) -> bool {
    (c as u32) <= 0x1F || (c as u32) == 0x7F
}

/// A character is kept by the control-character filter unless it is an ASCII
/// control character other than the ASCII white space (tab, line feed, line
/// tabulation, form feed and carriage return).
pub open spec fn spec_is_valid_text_char(c: char) -> bool {
    !(is_ascii_control_char(c) && c != '\t' && c != '\n' && c != '\x0B' && c != '\x0C' && c
        != '\r')
}

pub open spec fn is_ascii_digit(c: char) -> bool {
    0x30 <= (c as u32) && (c as u32) <= 0x39
}

/// Characters that may stand between the brackets of a numeric citation.
pub open spec fn is_citation_body_char(c: char) -> bool {
    is_ascii_digit(c) || c == ',' || c == '-' || c == ' '
}

/// Punctuation that swallows the space before a removed citation.
pub open spec fn is_closing_punctuation(c: char) -> bool {
    ||| c == '.'
    ||| c == ','
    ||| c == '?'
    ||| c == '!'
    ||| c == ':'
    ||| c == ';'
}

pub open spec fn has_ascii_digit(s: Seq<char>) -> bool {
    exists|k: int| 0 <= k < s.len() && #[trigger] is_ascii_digit(s[k])
}

/// The first index at or after `j` whose character cannot stand in a citation body.
pub open spec fn citation_body_end(s: Seq<char>, j: int) -> int
    decreases s.len() - j,
{
    if 0 <= j < s.len() && is_citation_body_char(s[j]) {
        citation_body_end(s, j + 1)
    } else {
        j
    }
}

pub proof fn lemma_citation_body_end_facts(s: Seq<char>, j: int)
    requires
        0 <= j <= s.len(),
    ensures
        j <= citation_body_end(s, j) <= s.len(),
        forall|k: int| j <= k < citation_body_end(s, j) ==> is_citation_body_char(#[trigger] s[k]),
        citation_body_end(s, j) < s.len() ==> !is_citation_body_char(s[citation_body_end(s, j)]),
    decreases s.len() - j,
{
    if j < s.len() && is_citation_body_char(s[j]) {
        lemma_citation_body_end_facts(s, j + 1);
    }
}

/// What one classified piece of input asks the cleaner to do.
pub enum Step {
    /// Emit the character (subject to the control-character filter).
    Emit(char),
    /// A run of horizontal white space.
    Blank,
    /// One or more line breaks.
    LineBreaks(nat),
    /// A carriage return followed by a line feed: one line break.
    CrLf,
    /// A literal `\s` or `\t`.
    EscapedBlank,
    /// A literal `\n` or `\r`.
    EscapedLineBreak,
    /// A numeric citation was dropped; the flag tells whether closing
    /// punctuation follows it.
    CitationRemoved(bool),
    /// A bracket that turned out not to open a citation, with the characters
    /// read after it, to be written out unchanged.
    Replay(Seq<char>),
}

/// Classifies the piece of `s` that starts at index `i`, returning the step
/// and the index just after the characters it consumed.
pub open spec fn classify(cfg: TextCleaner, s: Seq<char>, i: int) -> (Step, int) {
    let c = s[i];
    if c == '\r' {
        if i + 1 < s.len() && s[i + 1] == '\n' {
            (Step::CrLf, i + 2)
        } else {
            (Step::LineBreaks(1), i + 1)
        }
    } else if c == '\n' || c == '\x0B' || c == '\x0C' || c == '\u{2028}' {
        (Step::LineBreaks(1), i + 1)
    } else if c == '\u{2029}' {
        (Step::LineBreaks(2), i + 1)
    } else if is_blank(c) {
        (Step::Blank, i + 1)
    } else if c == '\\' {
        if i + 1 < s.len() && (s[i + 1] == 's' || s[i + 1] == 't') {
            (Step::EscapedBlank, i + 2)
        } else if i + 1 < s.len() && (s[i + 1] == 'n' || s[i + 1] == 'r') {
            (Step::EscapedLineBreak, i + 2)
        } else {
            (Step::Emit('\\'), i + 1)
        }
    } else if c == '[' && cfg.remove_citations {
        let k = citation_body_end(s, i + 1);
        let body = s.subrange(i + 1, k);
        if k < s.len() && s[k] == ']' && has_ascii_digit(body) {
            (Step::CitationRemoved(k + 1 < s.len() && is_closing_punctuation(s[k + 1])), k + 1)
        } else {
            (Step::Replay(seq!['['] + body), k)
        }
    } else {
        (Step::Emit(c), i + 1)
    }
}

/// The state of a cleaning pass: the text written so far, the number of line
/// breaks not yet written, whether the first of them was a CRLF, and whether
/// the last thing written was a space.
pub struct CleanModel {
    pub result: Seq<char>,
    pub newlines: nat,
    pub crlf: bool,
    pub last_was_space: bool,
}

pub open spec fn initial_model() -> CleanModel {
    CleanModel { result: Seq::empty(), newlines: 0, crlf: false, last_was_space: false }
}

pub open spec fn line_feeds(n: nat) -> Seq<char> {
    Seq::new(n, |_i: int| '\n')
}

/// The text that `n` pending line breaks turn into under each mode; in
/// single-newline mode, a run that starts with a CRLF keeps that line end.
pub open spec fn newline_text(mode: Newlines, n: nat, crlf: bool) -> Seq<char> {
    match mode {
        Newlines::Space => seq![' '],
        Newlines::Single => if crlf {
            seq!['\r', '\n']
        } else {
            seq!['\n']
        },
        Newlines::TwoPlus => line_feeds(if n < 2 { n } else { 2 }),
        Newlines::Keep => line_feeds(n),
    }
}

/// Writes the pending line breaks, if any.
pub open spec fn flush_newlines(mode: Newlines, st: CleanModel) -> CleanModel {
    if st.newlines == 0 {
        st
    } else {
        CleanModel {
            result: st.result + newline_text(mode, st.newlines, st.crlf),
            newlines: 0,
            crlf: false,
            last_was_space: st.last_was_space,
        }
    }
}

/// Writes a space unless the last thing written was one.
pub open spec fn space_once(st: CleanModel) -> CleanModel {
    if st.last_was_space {
        st
    } else {
        CleanModel {
            result: st.result.push(' '),
            newlines: st.newlines,
            crlf: st.crlf,
            last_was_space: true,
        }
    }
}

/// The effect of one step on the cleaning state.
pub open spec fn apply_step(cfg: TextCleaner, st: CleanModel, step: Step) -> CleanModel {
    match step {
        Step::LineBreaks(k) => CleanModel {
            result: st.result,
            newlines: st.newlines + k,
            crlf: st.newlines > 0 && st.crlf,
            last_was_space: false,
        },
        Step::CrLf => CleanModel {
            result: st.result,
            newlines: st.newlines + 1,
            crlf: st.newlines == 0 || st.crlf,
            last_was_space: false,
        },
        Step::Blank => {
            if st.newlines > 0 && cfg.newlines == Newlines::Space {
                CleanModel {
                    result: st.result.push(' '),
                    newlines: 0,
                    crlf: false,
                    last_was_space: true,
                }
            } else {
                space_once(flush_newlines(cfg.newlines, st))
            }
        },
        Step::EscapedBlank => {
            if !st.last_was_space && st.newlines == 0 {
                space_once(st)
            } else {
                st
            }
        },
        Step::EscapedLineBreak => CleanModel {
            result: st.result,
            newlines: st.newlines + 1,
            crlf: st.newlines > 0 && st.crlf,
            last_was_space: false,
        },
        Step::CitationRemoved(before_punctuation) => {
            if before_punctuation && st.last_was_space && st.result.len() > 0
                && st.result.last() == ' ' {
                CleanModel {
                    result: st.result.drop_last(),
                    newlines: st.newlines,
                    crlf: st.crlf,
                    last_was_space: false,
                }
            } else {
                st
            }
        },
        Step::Replay(buf) => {
            let f = flush_newlines(cfg.newlines, st);
            CleanModel {
                result: f.result + buf,
                newlines: f.newlines,
                crlf: f.crlf,
                last_was_space: false,
            }
        },
        Step::Emit(c) => {
            let f = flush_newlines(cfg.newlines, st);
            CleanModel {
                result: if !cfg.remove_non_basic_ascii || spec_is_valid_text_char(c) {
                    f.result.push(c)
                } else {
                    f.result
                },
                newlines: f.newlines,
                crlf: f.crlf,
                last_was_space: false,
            }
        },
    }
}

/// Runs the cleaner over `s` from index `i` on, starting in state `st`.
pub open spec fn process_from(cfg: TextCleaner, s: Seq<char>, i: int, st: CleanModel) -> CleanModel
    decreases s.len() - i,
{
    if 0 <= i < s.len() {
        let (step, next) = classify(cfg, s, i);
        if i < next <= s.len() {
            process_from(cfg, s, next, apply_step(cfg, st, step))
        } else {
            st
        }
    } else {
        st
    }
}

/// Drops the leading characters with the `White_Space` property.
pub open spec fn trim_start_white_space(s: Seq<char>) -> Seq<char>
    decreases s.len(),
{
    if s.len() > 0 && is_unicode_white_space(s[0]) {
        trim_start_white_space(s.drop_first())
    } else {
        s
    }
}

/// Drops the trailing spaces and tabs.
pub open spec fn trim_end_blanks(s: Seq<char>) -> Seq<char>
    decreases s.len(),
{
    if s.len() > 0 && (s.last() == ' ' || s.last() == '\t') {
        trim_end_blanks(s.drop_last())
    } else {
        s
    }
}

pub open spec fn is_cr_or_lf(c: char) -> bool {
    c == '\n' || c == '\r'
}

/// The number of line feeds and carriage returns that end `s`.
pub open spec fn trailing_line_end_count(s: Seq<char>) -> nat
    decreases s.len(),
{
    if s.len() > 0 && is_cr_or_lf(s.last()) {
        trailing_line_end_count(s.drop_last()) + 1
    } else {
        0
    }
}

/// The number of line ends in `u`, a text of carriage returns and line
/// feeds: a CRLF is one line end, any other of them one each.
pub open spec fn line_end_units(u: Seq<char>) -> nat
    decreases u.len(),
{
    if u.len() == 0 {
        0
    } else if u.len() >= 2 && u[u.len() - 2] == '\r' && u.last() == '\n' {
        line_end_units(u.subrange(0, u.len() - 2)) + 1
    } else {
        line_end_units(u.drop_last()) + 1
    }
}

/// How many line feeds the trailing line ends of `t` become: one per line
/// end, at most two.
pub open spec fn kept_line_feeds(t: Seq<char>) -> nat {
    let k = trailing_line_end_count(t);
    let u = line_end_units(t.subrange(t.len() - k, t.len() as int));
    if u < 2 {
        u
    } else {
        2
    }
}

/// Trims leading white space and trailing spaces and tabs, and replaces the
/// trailing line ends by at most two line feeds.
pub open spec fn trim_output(s: Seq<char>) -> Seq<char> {
    let t = trim_end_blanks(trim_start_white_space(s));
    let k = trailing_line_end_count(t);
    t.subrange(0, t.len() - k) + line_feeds(kept_line_feeds(t))
}

/// The state after the whole of `s` has been read and the pending line
/// breaks written.
pub open spec fn clean_model(cfg: TextCleaner, s: Seq<char>) -> CleanModel {
    flush_newlines(cfg.newlines, process_from(cfg, s, 0, initial_model()))
}

/// What `TextCleaner::run` returns for the text `s`.
pub open spec fn clean_text(cfg: TextCleaner, s: Seq<char>) -> Seq<char> {
    trim_output(clean_model(cfg, s).result)
}

} // verus!
