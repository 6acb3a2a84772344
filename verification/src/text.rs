//! Text cleaning for language-model input: white-space collapsing, line-break
//! normalisation, optional citation removal and control-character filtering,
//! all in a single pass over the characters.
use vstd::prelude::*;

use crate::chars::{chars_of, string_from_chars};
use crate::text_spec::{
    apply_step, citation_body_end, classify, clean_text, flush_newlines, has_ascii_digit,
    initial_model, is_ascii_digit, is_blank, is_closing_punctuation, is_unicode_white_space,
    lemma_citation_body_end_facts, line_feeds, process_from, spec_is_valid_text_char,
    trailing_line_end_count, trim_end_blanks, trim_output, kept_line_feeds, line_end_units, trim_start_white_space, CleanModel,
    Step,
};

verus! {

/// How runs of line breaks are written out.
#[derive(Clone, Copy, Debug, PartialEq, Eq, Structural)]
pub enum Newlines {
    /// Every run of line breaks becomes one space.
    Space,
    /// Every run of line breaks becomes one line break: a CRLF where the run
    /// starts with one, a line feed otherwise.
    Single,
    /// Every run of line breaks becomes one or two line feeds.
    TwoPlus,
    /// Line breaks are kept, each as a line feed.
    Keep,
}

impl Default for Newlines {
    fn default() -> (res: Self)
        ensures
            res == Newlines::TwoPlus,
    {
        Newlines::TwoPlus
    }
}

/// The settings of a cleaning pass.
pub struct TextCleaner {
    pub newlines: Newlines,
    pub remove_non_basic_ascii: bool,
    pub remove_citations: bool,
}

impl Default for TextCleaner {
    fn default() -> (res: Self)
        ensures
            res == (TextCleaner {
                newlines: Newlines::TwoPlus,
                remove_non_basic_ascii: false,
                remove_citations: false,
            }),
    {
        TextCleaner {
            newlines: Newlines::default(),
            remove_non_basic_ascii: false,
            remove_citations: false,
        }
    }
}

/// One classified piece of input (see `Step` for its meaning).
enum CleanStep {
    Emit(char),
    Whitespace,
    Newline(usize),
    CrLfNewline,
    EscapedWhitespace,
    EscapedNewline,
    CitationRemoved(bool),
    ReplayNonCitation(Vec<char>),
}

impl View for CleanStep {
    type V = Step;

    closed spec fn view(&self) -> Step {
        match self {
            CleanStep::Emit(c) => Step::Emit(*c),
            CleanStep::Whitespace => Step::Blank,
            CleanStep::Newline(n) => Step::LineBreaks(*n as nat),
            CleanStep::CrLfNewline => Step::CrLf,
            CleanStep::EscapedWhitespace => Step::EscapedBlank,
            CleanStep::EscapedNewline => Step::EscapedLineBreak,
            CleanStep::CitationRemoved(b) => Step::CitationRemoved(*b),
            CleanStep::ReplayNonCitation(buf) => Step::Replay(buf@),
        }
    }
}

/// The state of a cleaning pass.
struct CleanState {
    result: Vec<char>,
    /// Line breaks read but not yet written; at most two per character read,
    /// so a `u128` never overflows.
    consecutive_newlines: u128,
    /// Whether the first of the pending line breaks was a CRLF.
    first_break_is_crlf: bool,
    last_was_space: bool,
}

impl CleanState {
    spec fn model(&self) -> CleanModel {
        CleanModel {
            result: self.result@,
            newlines: self.consecutive_newlines as nat,
            crlf: self.first_break_is_crlf,
            last_was_space: self.last_was_space,
        }
    }

    fn with_capacity(capacity: usize) -> (res: Self)
        ensures
            res.model() == initial_model(),
    {
        CleanState {
            result: Vec::with_capacity(capacity),
            consecutive_newlines: 0,
            first_break_is_crlf: false,
            last_was_space: false,
        }
    }
}

/// Every classification consumes at least one character and at most what is left.
proof fn lemma_classify_progress(cfg: TextCleaner, s: Seq<char>, i: int)
    requires
        0 <= i < s.len(),
    ensures
        i < classify(cfg, s, i).1 <= s.len(),
        classify(cfg, s, i).0 matches Step::LineBreaks(k) ==> k <= 2 * (classify(cfg, s, i).1 - i),
        classify(cfg, s, i).0 is EscapedLineBreak ==> classify(cfg, s, i).1 == i + 2,
{
    lemma_citation_body_end_facts(s, i + 1);
}

fn is_blank_char(c: char) -> (res: bool)
    ensures
        res == is_blank(c),
{
    let u = c as u32;
    u == 0x20 || u == 0x09 || u == 0xA0 || u == 0x1680 || (0x2000 <= u && u <= 0x200A) || u
        == 0x202F || u == 0x205F || u == 0x3000
}

fn is_white_space_char(c: char) -> (res: bool)
    ensures
        res == is_unicode_white_space(c),
{
    let u = c as u32;
    (0x09 <= u && u <= 0x0D) || u == 0x20 || u == 0x85 || u == 0xA0 || u == 0x1680 || (0x2000
        <= u && u <= 0x200A) || u == 0x2028 || u == 0x2029 || u == 0x202F || u == 0x205F || u
        == 0x3000
}

fn is_ascii_digit_char(c: char) -> (res: bool)
    ensures
        res == is_ascii_digit(c),
{
    let u = c as u32;
    0x30 <= u && u <= 0x39
}

fn is_closing_punctuation_char(c: char) -> (res: bool)
    ensures
        res == is_closing_punctuation(c),
{
    c == '.' || c == ',' || c == '?' || c == '!' || c == ':' || c == ';'
}

/// Check if a character should be kept in cleaned text.
/// Uses a blacklist approach: only removes ASCII control characters (except
/// whitespace), preserving all visible text including Unicode, URLs, code, etc.
fn is_valid_text_char(c: char) -> (res: bool)
    ensures
        res == spec_is_valid_text_char(c),
{
    let u = c as u32;
    let is_control = u <= 0x1F || u == 0x7F;
    !(is_control && c != '\t' && c != '\n' && c != '\x0B' && c != '\x0C' && c != '\r')
}

impl TextCleaner {
    /// A cleaner with the default settings: line breaks reduced to at most
    /// two line feeds, no character filtering, no citation removal.
    pub fn new() -> (res: Self)
        ensures
            res == (TextCleaner {
                newlines: Newlines::TwoPlus,
                remove_non_basic_ascii: false,
                remove_citations: false,
            }),
    {
        Self::default()
    }

    pub fn do_not_reduce_newlines(self) -> (res: Self)
        ensures
            res == (TextCleaner { newlines: Newlines::Keep, ..self }),
    {
        TextCleaner { newlines: Newlines::Keep, ..self }
    }

    pub fn reduce_newlines_to_single_space(self) -> (res: Self)
        ensures
            res == (TextCleaner { newlines: Newlines::Space, ..self }),
    {
        TextCleaner { newlines: Newlines::Space, ..self }
    }

    pub fn reduce_newlines_to_single_newline(self) -> (res: Self)
        ensures
            res == (TextCleaner { newlines: Newlines::Single, ..self }),
    {
        TextCleaner { newlines: Newlines::Single, ..self }
    }

    pub fn reduce_newlines_to_double_newline(self) -> (res: Self)
        ensures
            res == (TextCleaner { newlines: Newlines::TwoPlus, ..self }),
    {
        TextCleaner { newlines: Newlines::TwoPlus, ..self }
    }

    pub fn remove_non_basic_ascii(self) -> (res: Self)
        ensures
            res == (TextCleaner { remove_non_basic_ascii: true, ..self }),
    {
        TextCleaner { remove_non_basic_ascii: true, ..self }
    }

    pub fn remove_citations(self) -> (res: Self)
        ensures
            res == (TextCleaner { remove_citations: true, ..self }),
    {
        TextCleaner { remove_citations: true, ..self }
    }

    /// Single-pass text cleaning with integrated citation removal, whitespace
    /// collapsing, and newline normalization. Uses a blacklist approach for
    /// character filtering to preserve all visible text including URLs, code,
    /// and multilingual content.
    pub fn run(&self, text: &str) -> (res: String)
        ensures
            res@ == clean_text(*self, text@),
    {
        let cs = chars_of(text);
        let mut state = CleanState::with_capacity(text.len());
        let mut i: usize = 0;
        while i < cs.len()
            invariant
                i <= cs@.len(),
                process_from(*self, cs@, i as int, state.model()) == process_from(
                    *self,
                    cs@,
                    0,
                    initial_model(),
                ),
                state.consecutive_newlines <= 2 * i,
            decreases cs@.len() - i,
        {
            proof {
                lemma_classify_progress(*self, cs@, i as int);
            }
            let ghost before = state.model();
            let (step, next) = self.classify_char(&cs, i);
            let ghost spec_step = step@;
            match step {
                CleanStep::Newline(count) => {
                    self.handle_newline(&mut state, count);
                },
                CleanStep::CrLfNewline => {
                    self.handle_crlf(&mut state);
                },
                CleanStep::Whitespace => {
                    self.handle_whitespace(&mut state);
                },
                CleanStep::EscapedWhitespace => {
                    self.handle_escaped_whitespace(&mut state);
                },
                CleanStep::EscapedNewline => {
                    if state.consecutive_newlines == 0 {
                        state.first_break_is_crlf = false;
                    }
                    state.consecutive_newlines = state.consecutive_newlines + 1;
                    state.last_was_space = false;
                },
                CleanStep::CitationRemoved(remove_trailing_space) => {
                    // The citation was consumed while classifying; if punctuation
                    // follows it, the space before it goes too.
                    if remove_trailing_space && state.last_was_space && state.result.len() > 0
                        && state.result[state.result.len() - 1] == ' ' {
                        state.result.pop();
                        state.last_was_space = false;
                    }
                },
                CleanStep::ReplayNonCitation(buf) => {
                    self.emit_newlines(&mut state);
                    let ghost flushed = state.result@;
                    let ghost flushed_crlf = state.first_break_is_crlf;
                    let mut j: usize = 0;
                    while j < buf.len()
                        invariant
                            j <= buf@.len(),
                            state.consecutive_newlines == 0,
                            state.first_break_is_crlf == flushed_crlf,
                            state.result@ == flushed + buf@.subrange(0, j as int),
                        decreases buf@.len() - j,
                    {
                        state.result.push(buf[j]);
                        j = j + 1;
                        assert(state.result@ == flushed + buf@.subrange(0, j as int));
                    }
                    assert(buf@.subrange(0, buf@.len() as int) == buf@);
                    state.last_was_space = false;
                },
                CleanStep::Emit(ch) => {
                    self.emit_newlines(&mut state);
                    if !self.remove_non_basic_ascii || is_valid_text_char(ch) {
                        state.result.push(ch);
                    }
                    state.last_was_space = false;
                },
            }
            assert(state.model() == apply_step(*self, before, spec_step));
            i = next;
        }
        if state.consecutive_newlines > 0 {
            self.emit_newlines(&mut state);
        }
        let trimmed = trim_trailing_spaces(&state.result);
        string_from_chars(&trimmed)
    }

    /// Classify a character and return the appropriate cleaning step.
    fn classify_char(&self, cs: &Vec<char>, i: usize) -> (res: (CleanStep, usize))
        requires
            i < cs@.len(),
        ensures
            (res.0@, res.1 as int) == classify(*self, cs@, i as int),
    {
        let len = cs.len();
        let c = cs[i];
        if c == '\r' {
            if i + 1 < cs.len() && cs[i + 1] == '\n' {
                (CleanStep::CrLfNewline, i + 2)
            } else {
                (CleanStep::Newline(1), i + 1)
            }
        } else if c == '\n' || c == '\x0B' || c == '\x0C' || c == '\u{2028}' {
            (CleanStep::Newline(1), i + 1)
        } else if c == '\u{2029}' {
            (CleanStep::Newline(2), i + 1)
        } else if is_blank_char(c) {
            (CleanStep::Whitespace, i + 1)
        } else if c == '\\' {
            self.classify_escape(cs, i)
        } else if c == '[' && self.remove_citations {
            self.classify_citation(cs, i)
        } else {
            (CleanStep::Emit(c), i + 1)
        }
    }

    /// Classify an escape sequence after backslash.
    fn classify_escape(&self, cs: &Vec<char>, i: usize) -> (res: (CleanStep, usize))
        requires
            i < cs@.len(),
            cs@[i as int] == '\\',
        ensures
            (res.0@, res.1 as int) == classify(*self, cs@, i as int),
    {
        let len = cs.len();
        if i + 1 < len {
            let next = cs[i + 1];
            if next == 's' || next == 't' {
                (CleanStep::EscapedWhitespace, i + 2)
            } else if next == 'n' || next == 'r' {
                (CleanStep::EscapedNewline, i + 2)
            } else {
                (CleanStep::Emit('\\'), i + 1)
            }
        } else {
            (CleanStep::Emit('\\'), i + 1)
        }
    }

    /// Classify a potential citation starting with '['.
    fn classify_citation(&self, cs: &Vec<char>, i: usize) -> (res: (CleanStep, usize))
        requires
            i < cs@.len(),
            cs@[i as int] == '[',
            self.remove_citations,
        ensures
            (res.0@, res.1 as int) == classify(*self, cs@, i as int),
    {
        let ghost s = cs@;
        let len = cs.len();
        let mut buf: Vec<char> = vec!['['];
        let mut has_digit = false;
        let mut is_citation = false;
        let mut j: usize = i + 1;
        proof {
            lemma_citation_body_end_facts(s, i + 1);
        }
        while j < cs.len()
            invariant_except_break
                s == cs@,
                i + 1 <= j <= s.len(),
                buf@ == seq!['['] + s.subrange(i + 1, j as int),
                has_digit == has_ascii_digit(s.subrange(i + 1, j as int)),
                citation_body_end(s, i + 1) == citation_body_end(s, j as int),
                !is_citation,
            ensures
                s == cs@,
                i + 1 <= j <= s.len(),
                j as int == (if is_citation {
                    citation_body_end(s, i + 1) + 1
                } else {
                    citation_body_end(s, i + 1)
                }),
                buf@ == seq!['['] + s.subrange(i + 1, citation_body_end(s, i + 1)),
                has_digit == has_ascii_digit(s.subrange(i + 1, citation_body_end(s, i + 1))),
                is_citation <==> (citation_body_end(s, i + 1) < s.len() && s[citation_body_end(
                    s,
                    i + 1,
                )] == ']' && has_ascii_digit(s.subrange(i + 1, citation_body_end(s, i + 1)))),
            decreases s.len() - j,
        {
            let next = cs[j];
            proof {
                lemma_citation_body_end_facts(s, j as int);
            }
            if is_ascii_digit_char(next) || next == ',' || next == '-' || next == ' ' {
                let ghost old_sub = s.subrange(i + 1, j as int);
                buf.push(next);
                has_digit = has_digit || is_ascii_digit_char(next);
                j = j + 1;
                proof {
                    let sub = s.subrange(i + 1, j as int);
                    assert(sub == old_sub.push(next));
                    if has_digit {
                        if !has_ascii_digit(old_sub) {
                            assert(is_ascii_digit(sub[sub.len() - 1]));
                        } else {
                            let k = choose|k: int|
                                0 <= k < old_sub.len() && #[trigger] is_ascii_digit(old_sub[k]);
                            assert(is_ascii_digit(sub[k]));
                        }
                    } else {
                        assert forall|k: int| 0 <= k < sub.len() implies !is_ascii_digit(
                            #[trigger] sub[k],
                        ) by {
                            if k < old_sub.len() {
                                assert(sub[k] == old_sub[k]);
                            }
                        }
                    }
                }
            } else if next == ']' && has_digit {
                is_citation = true;
                j = j + 1;
                break;
            } else {
                break;
            }
        }
        if is_citation {
            // Check if the next character is punctuation - if so, we should
            // remove the trailing space before it
            let next_is_punctuation = j < cs.len() && is_closing_punctuation_char(cs[j]);
            (CleanStep::CitationRemoved(next_is_punctuation), j)
        } else {
            (CleanStep::ReplayNonCitation(buf), j)
        }
    }

    /// Handle a newline character by updating the consecutive newline count.
    fn handle_newline(&self, state: &mut CleanState, count: usize)
        requires
            old(state).consecutive_newlines + count <= u128::MAX,
        ensures
            final(state).model() == apply_step(
                *self,
                old(state).model(),
                Step::LineBreaks(count as nat),
            ),
    {
        if state.consecutive_newlines == 0 {
            state.first_break_is_crlf = false;
        }
        state.consecutive_newlines = state.consecutive_newlines + count as u128;
        state.last_was_space = false;
    }

    /// Handle a CRLF line end: one line break, remembered as a CRLF when it
    /// starts a run of line breaks.
    fn handle_crlf(&self, state: &mut CleanState)
        requires
            old(state).consecutive_newlines + 1 <= u128::MAX,
        ensures
            final(state).model() == apply_step(*self, old(state).model(), Step::CrLf),
    {
        if state.consecutive_newlines == 0 {
            state.first_break_is_crlf = true;
        }
        state.consecutive_newlines = state.consecutive_newlines + 1;
        state.last_was_space = false;
    }

    /// Handle a whitespace character, emitting pending newlines if needed.
    fn handle_whitespace(&self, state: &mut CleanState)
        ensures
            final(state).model() == apply_step(*self, old(state).model(), Step::Blank),
    {
        if state.consecutive_newlines > 0 {
            match self.newlines {
                Newlines::Space => {
                    state.result.push(' ');
                    state.consecutive_newlines = 0;
                    state.first_break_is_crlf = false;
                    state.last_was_space = true;
                    return;
                },
                _ => {
                    self.emit_newlines(state);
                },
            }
        }
        if !state.last_was_space {
            state.result.push(' ');
            state.last_was_space = true;
        }
    }

    /// Handle an escaped whitespace sequence (e.g., \s, \t).
    fn handle_escaped_whitespace(&self, state: &mut CleanState)
        ensures
            final(state).model() == apply_step(*self, old(state).model(), Step::EscapedBlank),
    {
        if !state.last_was_space && state.consecutive_newlines == 0 {
            state.result.push(' ');
            state.last_was_space = true;
        }
    }

    /// Emit accumulated newlines to the result buffer.
    fn emit_newlines(&self, state: &mut CleanState)
        ensures
            final(state).model() == flush_newlines(self.newlines, old(state).model()),
    {
        if state.consecutive_newlines == 0 {
            return;
        }
        let ghost start = state.result@;
        match self.newlines {
            Newlines::Space => {
                state.result.push(' ');
                assert(state.result@ == start + seq![' ']);
            },
            Newlines::Single => {
                if state.first_break_is_crlf {
                    state.result.push('\r');
                    state.result.push('\n');
                    assert(state.result@ == start + seq!['\r', '\n']);
                } else {
                    state.result.push('\n');
                    assert(state.result@ == start + seq!['\n']);
                }
            },
            Newlines::TwoPlus => {
                let count: u128 = if state.consecutive_newlines > 2 {
                    2
                } else {
                    state.consecutive_newlines
                };
                push_line_feeds(&mut state.result, count);
            },
            Newlines::Keep => {
                push_line_feeds(&mut state.result, state.consecutive_newlines);
            },
        }
        state.consecutive_newlines = 0;
        state.first_break_is_crlf = false;
    }
}

/// Appends `count` line feeds.
fn push_line_feeds(result: &mut Vec<char>, count: u128)
    ensures
        final(result)@ == old(result)@ + line_feeds(count as nat),
{
    let ghost start = result@;
    let mut k: u128 = 0;
    while k < count
        invariant
            k <= count,
            result@ == start + line_feeds(k as nat),
        decreases count - k,
    {
        result.push('\n');
        k = k + 1;
        assert(result@ == start + line_feeds(k as nat));
    }
}

/// Trim leading whitespace, trailing spaces, and normalize trailing newlines to max 2.
fn trim_trailing_spaces(text: &Vec<char>) -> (res: Vec<char>)
    ensures
        res@ == trim_output(text@),
{
    let ghost s = text@;
    let len = text.len();
    // Skip the leading white space.
    let mut start: usize = 0;
    assert(s.subrange(0, len as int) == s);
    while start < len && is_white_space_char(text[start])
        invariant
            s == text@,
            start <= len == s.len(),
            trim_start_white_space(s) == trim_start_white_space(
                s.subrange(start as int, len as int),
            ),
        decreases len - start,
    {
        assert(s.subrange(start as int, len as int).drop_first() == s.subrange(
            start + 1,
            len as int,
        ));
        start = start + 1;
    }
    assert(trim_start_white_space(s) == s.subrange(start as int, len as int));
    // Skip the trailing spaces and tabs.
    let mut end: usize = len;
    while end > start && (text[end - 1] == ' ' || text[end - 1] == '\t')
        invariant
            s == text@,
            start <= end <= len == s.len(),
            trim_end_blanks(s.subrange(start as int, len as int)) == trim_end_blanks(
                s.subrange(start as int, end as int),
            ),
        decreases end - start,
    {
        assert(s.subrange(start as int, end as int).drop_last() == s.subrange(
            start as int,
            end - 1,
        ));
        end = end - 1;
    }
    let ghost t = s.subrange(start as int, end as int);
    assert(trim_end_blanks(t) == t);
    // Count the trailing line ends.
    let mut body_end: usize = end;
    while body_end > start && (text[body_end - 1] == '\n' || text[body_end - 1] == '\r')
        invariant
            s == text@,
            t == s.subrange(start as int, end as int),
            start <= body_end <= end,
            end <= len == s.len(),
            trailing_line_end_count(t) == (end - body_end) + trailing_line_end_count(
                s.subrange(start as int, body_end as int),
            ),
        decreases body_end - start,
    {
        assert(s.subrange(start as int, body_end as int).drop_last() == s.subrange(
            start as int,
            body_end - 1,
        ));
        body_end = body_end - 1;
    }
    let newline_count = end - body_end;
    assert(trailing_line_end_count(t) == newline_count);
    assert(t.subrange(0, t.len() - newline_count) == s.subrange(start as int, body_end as int));
    assert(t.subrange(t.len() - newline_count, t.len() as int) == s.subrange(
        body_end as int,
        end as int,
    ));
    // Count the line ends among them, a CRLF as one.
    let mut units: usize = 0;
    let mut j: usize = end;
    while j > body_end
        invariant
            s == text@,
            body_end <= j <= end <= len == s.len(),
            units <= end - j,
            line_end_units(s.subrange(body_end as int, end as int)) == units + line_end_units(
                s.subrange(body_end as int, j as int),
            ),
        decreases j - body_end,
    {
        let ghost u = s.subrange(body_end as int, j as int);
        if j - body_end >= 2 && text[j - 2] == '\r' && text[j - 1] == '\n' {
            assert(u[u.len() - 2] == s[j - 2] && u.last() == s[j - 1]);
            assert(u.subrange(0, u.len() - 2) == s.subrange(body_end as int, j - 2));
            j = j - 2;
        } else {
            assert(u.drop_last() == s.subrange(body_end as int, j - 1));
            if j - body_end >= 2 {
                assert(u[u.len() - 2] == s[j - 2] && u.last() == s[j - 1]);
            }
            j = j - 1;
        }
        units = units + 1;
    }
    assert(s.subrange(body_end as int, j as int).len() == 0);
    let clamped: usize = if units < 2 { units } else { 2 };
    assert(clamped == kept_line_feeds(t));
    let mut result: Vec<char> = Vec::new();
    let mut k: usize = start;
    while k < body_end
        invariant
            s == text@,
            start <= k <= body_end <= len == s.len(),
            result@ == s.subrange(start as int, k as int),
        decreases body_end - k,
    {
        result.push(text[k]);
        k = k + 1;
        assert(result@ == s.subrange(start as int, k as int));
    }
    let ghost body = result@;
    let mut n: usize = 0;
    while n < clamped
        invariant
            n <= clamped,
            result@ == body + line_feeds(n as nat),
        decreases clamped - n,
    {
        result.push('\n');
        n = n + 1;
        assert(result@ == body + line_feeds(n as nat));
    }
    result
}

/// Normalize whitespace in text using single-pass processing
pub fn normalize_whitespace(text: &str) -> (res: String)
    ensures
        res@ == clean_text(
            TextCleaner {
                newlines: Newlines::Keep,
                remove_non_basic_ascii: false,
                remove_citations: false,
            },
            text@,
        ),
{
    TextCleaner::new().do_not_reduce_newlines().run(text)
}

} // verus!
