//! Properties that every cleaning pass has, proved over the model in
//! `text_spec`.
use vstd::prelude::*;

use crate::text::{Newlines, TextCleaner};
use crate::text_spec::{
    apply_step, citation_body_end, classify, clean_model, clean_text, flush_newlines, has_ascii_digit, is_ascii_digit,
    initial_model, is_blank, is_citation_body_char, is_closing_punctuation, is_cr_or_lf,
    is_line_break, is_unicode_white_space, line_feeds, newline_text, process_from,
    spec_is_valid_text_char, trailing_line_end_count, kept_line_feeds, line_end_units, trim_end_blanks, trim_output,
    trim_start_white_space, CleanModel, Step,
};

verus! {

// ---------------------------------------------------------------------------
// The trimming of the final buffer
// ---------------------------------------------------------------------------

proof fn lemma_trim_start(s: Seq<char>) -> (j: int)
    ensures
        0 <= j <= s.len(),
        trim_start_white_space(s) == s.subrange(j, s.len() as int),
        j < s.len() ==> !is_unicode_white_space(s[j]),
        forall|q: int| 0 <= q < j ==> is_unicode_white_space(#[trigger] s[q]),
    decreases s.len(),
{
    if s.len() > 0 && is_unicode_white_space(s[0]) {
        let j1 = lemma_trim_start(s.drop_first());
        assert(s.drop_first().subrange(j1, s.drop_first().len() as int) == s.subrange(
            j1 + 1,
            s.len() as int,
        ));
        assert forall|q: int| 0 <= q < j1 + 1 implies is_unicode_white_space(#[trigger] s[q]) by {
            if q > 0 {
                assert(s[q] == s.drop_first()[q - 1]);
            }
        }
        j1 + 1
    } else {
        assert(s.subrange(0, s.len() as int) == s);
        0
    }
}

proof fn lemma_trim_end(s: Seq<char>) -> (m: int)
    ensures
        0 <= m <= s.len(),
        trim_end_blanks(s) == s.subrange(0, m),
        m > 0 ==> s[m - 1] != ' ' && s[m - 1] != '\t',
        forall|q: int| m <= q < s.len() ==> #[trigger] s[q] == ' ' || s[q] == '\t',
    decreases s.len(),
{
    if s.len() > 0 && (s.last() == ' ' || s.last() == '\t') {
        let m1 = lemma_trim_end(s.drop_last());
        assert(s.drop_last().subrange(0, m1) == s.subrange(0, m1));
        assert forall|q: int| m1 <= q < s.len() implies #[trigger] s[q] == ' ' || s[q] == '\t' by {
            if q < s.len() - 1 {
                assert(s[q] == s.drop_last()[q]);
            }
        }
        m1
    } else {
        assert(s.subrange(0, s.len() as int) == s);
        s.len() as int
    }
}

proof fn lemma_line_end_units_facts(u: Seq<char>)
    ensures
        line_end_units(u) <= u.len(),
        u.len() > 0 ==> line_end_units(u) >= 1,
    decreases u.len(),
{
    if u.len() >= 2 && u[u.len() - 2] == '\r' && u.last() == '\n' {
        lemma_line_end_units_facts(u.subrange(0, u.len() - 2));
    } else if u.len() > 0 {
        lemma_line_end_units_facts(u.drop_last());
    }
}

/// Each of `m` line feeds is a line end of its own.
proof fn lemma_line_end_units_of_feeds(m: nat)
    ensures
        line_end_units(line_feeds(m)) == m,
    decreases m,
{
    if m > 0 {
        let m1 = (m - 1) as nat;
        assert(line_feeds(m).drop_last() == line_feeds(m1));
        if m >= 2 {
            assert(line_feeds(m)[m - 2] == '\n');
        }
        lemma_line_end_units_of_feeds(m1);
    }
}

proof fn lemma_trailing_line_ends(s: Seq<char>)
    ensures
        trailing_line_end_count(s) <= s.len(),
        forall|q: int|
            s.len() - trailing_line_end_count(s) <= q < s.len() ==> is_cr_or_lf(#[trigger] s[q]),
        trailing_line_end_count(s) < s.len() ==> !is_cr_or_lf(
            s[s.len() - trailing_line_end_count(s) - 1],
        ),
    decreases s.len(),
{
    if s.len() > 0 && is_cr_or_lf(s.last()) {
        lemma_trailing_line_ends(s.drop_last());
        assert forall|q: int|
            s.len() - trailing_line_end_count(s) <= q < s.len() implies is_cr_or_lf(
                #[trigger] s[q],
            ) by {
            if q < s.len() - 1 {
                assert(s[q] == s.drop_last()[q]);
            }
        }
    }
}

/// The pieces `trim_output` is made of: the kept part of the input, which
/// lies between `a` and `b`, followed by at most two line feeds.
proof fn lemma_trim_output_parts(r: Seq<char>) -> (ab: (int, int))
    ensures
        0 <= ab.0 <= ab.1 <= r.len(),
        ({
            let t = trim_end_blanks(trim_start_white_space(r));
            let k = trailing_line_end_count(t);
            &&& t.len() >= k
            &&& trim_output(r) == r.subrange(ab.0, ab.1) + line_feeds(kept_line_feeds(t))
            &&& kept_line_feeds(t) <= 2
            &&& k == 0 ==> kept_line_feeds(t) == 0
            &&& k > 0 ==> kept_line_feeds(t) >= 1
            &&& forall|q: int| ab.0 + t.len() <= q < r.len() ==> #[trigger] r[q] == ' ' || r[q] == '\t'
            &&& forall|q: int| 0 <= q < ab.0 ==> is_unicode_white_space(#[trigger] r[q])
            &&& ab.1 - ab.0 == t.len() - k
            &&& ab.0 + t.len() <= r.len()
            &&& t == r.subrange(ab.0, ab.0 + t.len())
            &&& forall|q: int| ab.1 <= q < ab.0 + t.len() ==> is_cr_or_lf(#[trigger] r[q])
            &&& ab.0 < ab.1 ==> !is_cr_or_lf(r[ab.1 - 1])
            &&& ab.0 < ab.1 ==> !is_unicode_white_space(r[ab.0])
            &&& ab.0 + t.len() > ab.1 ==> is_cr_or_lf(r[ab.0 + t.len() - 1])
            &&& k == 0 && t.len() > 0 ==> r[ab.0 + t.len() - 1] != ' ' && r[ab.0 + t.len() - 1]
                != '\t'
            &&& forall|j: int|
                0 <= j < trim_output(r).len() ==> (#[trigger] trim_output(r)[j] == '\n' || (j
                    < ab.1 - ab.0 && trim_output(r)[j] == r[ab.0 + j]))
        }),
{
    let a = lemma_trim_start(r);
    let u = trim_start_white_space(r);
    let m = lemma_trim_end(u);
    let t = trim_end_blanks(u);
    lemma_trailing_line_ends(t);
    let k = trailing_line_end_count(t);
    let b = a + t.len() - k;
    assert(t == r.subrange(a, a + m));
    assert(t.subrange(0, t.len() - k) == r.subrange(a, b));
    assert forall|q: int| b <= q < a + t.len() implies is_cr_or_lf(#[trigger] r[q]) by {
        assert(r[q] == t[q - a]);
    }
    if a < b {
        assert(r[b - 1] == t[t.len() - k - 1]);
        assert(r[a] == u[0]);
    }
    if a + t.len() > b {
        assert(r[a + t.len() - 1] == t[t.len() - 1]);
    }
    if k == 0 && t.len() > 0 {
        assert(r[a + t.len() - 1] == t[t.len() - 1]);
        assert(t[t.len() - 1] == u[m - 1]);
    }
    let mm: nat = kept_line_feeds(t);
    lemma_line_end_units_facts(t.subrange(t.len() - k, t.len() as int));
    assert forall|q: int| a + t.len() <= q < r.len() implies #[trigger] r[q] == ' ' || r[q] == '\t' by {
        assert(r[q] == u[q - a]);
    }
    let out = trim_output(r);
    assert(out == r.subrange(a, b) + line_feeds(mm));
    assert forall|j: int| 0 <= j < out.len() implies (#[trigger] out[j] == '\n' || (j < b - a
        && out[j] == r[a + j])) by {
        if j < b - a {
            assert(out[j] == r.subrange(a, b)[j]);
        } else {
            assert(out[j] == line_feeds(mm)[j - (b - a)]);
        }
    }
    (a, b)
}

/// `TextCleaner::run` trims its output: it never starts with white space, never
/// ends with a space or a tab, and ends with at most two line ends, all of
/// them line feeds.
pub proof fn law_output_is_trimmed(cfg: TextCleaner, s: Seq<char>)
    ensures
        clean_text(cfg, s).len() > 0 ==> !is_unicode_white_space(clean_text(cfg, s)[0]),
        clean_text(cfg, s).len() > 0 ==> clean_text(cfg, s).last() != ' ' && clean_text(
            cfg,
            s,
        ).last() != '\t',
        trailing_line_end_count(clean_text(cfg, s)) <= 2,
        forall|q: int|
            clean_text(cfg, s).len() - trailing_line_end_count(clean_text(cfg, s)) <= q
                < clean_text(cfg, s).len() ==> #[trigger] clean_text(cfg, s)[q] == '\n',
{
    let r = clean_model(cfg, s).result;
    let out = clean_text(cfg, s);
    let (a, b) = lemma_trim_output_parts(r);
    let t = trim_end_blanks(trim_start_white_space(r));
    let k = trailing_line_end_count(t);
    let m: nat = kept_line_feeds(t);
    let body = r.subrange(a, b);
    assert(out == body + line_feeds(m));
    lemma_trailing_of_body_and_feeds(body, m);
    if out.len() > 0 {
        if b > a {
            assert(out[0] == r[a]);
        } else {
            // With nothing kept, there is nothing to trim either.
            assert(t.len() == k);
            if t.len() > 0 {
                let u = trim_start_white_space(r);
                let _ = lemma_trim_start(r);
                let _ = lemma_trim_end(u);
                assert(t[0] == u[0]);
                lemma_trailing_line_ends(t);
                assert(is_cr_or_lf(t[0]));
                assert(is_unicode_white_space(t[0]));
            }
            assert(m == 0);
        }
        if m == 0 {
            assert(out.last() == r[b - 1]);
            assert(k == 0);
        }
    }
}

/// The shape of a trimmed text: a body that starts with no white space and
/// ends with no line end, then at most two line feeds, none without a body.
proof fn lemma_trim_output_shape(r: Seq<char>) -> (body_and_feeds: (Seq<char>, nat))
    ensures
        ({
            let (body, m) = body_and_feeds;
            &&& trim_output(r) == body + line_feeds(m)
            &&& m <= 2
            &&& body.len() == 0 ==> m == 0
            &&& body.len() > 0 ==> !is_unicode_white_space(body[0]) && !is_cr_or_lf(body.last())
            &&& body.len() > 0 && m == 0 ==> body.last() != ' ' && body.last() != '\t'
        }),
{
    let (a, b) = lemma_trim_output_parts(r);
    let t = trim_end_blanks(trim_start_white_space(r));
    let k = trailing_line_end_count(t);
    let m: nat = kept_line_feeds(t);
    let body = r.subrange(a, b);
    if b > a {
        assert(body[0] == r[a]);
        assert(body.last() == r[b - 1]);
        if m == 0 {
            assert(k == 0);
        }
    } else if t.len() > 0 {
        let u = trim_start_white_space(r);
        let _ = lemma_trim_start(r);
        let _ = lemma_trim_end(u);
        assert(t[0] == u[0]);
        lemma_trailing_line_ends(t);
        assert(is_cr_or_lf(t[0]));
        assert(is_unicode_white_space(t[0]));
    }
    (body, m)
}

/// Trimming is idempotent: trimming a trimmed text changes nothing. This is
/// the final trimming of `run`, whose contract is `trim_output`.
pub proof fn law_trim_is_idempotent(r: Seq<char>)
    ensures
        trim_output(trim_output(r)) == trim_output(r),
{
    let (body, m) = lemma_trim_output_shape(r);
    let x = trim_output(r);
    if x.len() > 0 {
        assert(x[0] == body[0]);
        if m > 0 {
            assert(x.last() == '\n');
        } else {
            assert(x == body);
        }
    }
    assert(trim_start_white_space(x) == x);
    assert(trim_end_blanks(x) == x);
    lemma_trailing_of_body_and_feeds(body, m);
    assert(x.subrange(0, x.len() - m) =~= body);
    assert(x.subrange(x.len() - m, x.len() as int) =~= line_feeds(m));
    lemma_line_end_units_of_feeds(m);
}

/// The trailing line ends of `body + m line feeds` are exactly the `m` line feeds
/// when `body` does not end with one.
proof fn lemma_trailing_of_body_and_feeds(body: Seq<char>, m: nat)
    requires
        body.len() > 0 ==> !is_cr_or_lf(body.last()),
    ensures
        trailing_line_end_count(body + line_feeds(m)) == m,
    decreases m,
{
    if m == 0 {
        assert(body + line_feeds(0) == body);
    } else {
        let m1 = (m - 1) as nat;
        assert((body + line_feeds(m)).drop_last() == body + line_feeds(m1));
        lemma_trailing_of_body_and_feeds(body, m1);
    }
}

// ---------------------------------------------------------------------------
// Runs of one character
// ---------------------------------------------------------------------------

/// The number of copies of `x` that end `r`.
pub open spec fn trailing_run(r: Seq<char>, x: char) -> nat
    decreases r.len(),
{
    if r.len() > 0 && r.last() == x {
        trailing_run(r.drop_last(), x) + 1
    } else {
        0
    }
}

/// No run of consecutive copies of `x` in `r` is longer than `n`.
pub open spec fn runs_at_most(r: Seq<char>, x: char, n: nat) -> bool
    decreases r.len(),
{
    if r.len() == 0 {
        true
    } else {
        trailing_run(r, x) <= n && runs_at_most(r.drop_last(), x, n)
    }
}

pub open spec fn lacks_char(r: Seq<char>, x: char) -> bool {
    forall|j: int| 0 <= j < r.len() ==> #[trigger] r[j] != x
}

proof fn lemma_runs_push(r: Seq<char>, x: char, c: char, n: nat)
    requires
        runs_at_most(r, x, n),
        c == x ==> trailing_run(r, x) + 1 <= n,
    ensures
        runs_at_most(r.push(c), x, n),
        trailing_run(r.push(c), x) == if c == x { trailing_run(r, x) + 1 } else { 0 },
{
    assert(r.push(c).drop_last() == r);
}

proof fn lemma_runs_append_feeds(r: Seq<char>, m: nat, n: nat)
    requires
        runs_at_most(r, '\n', n),
        trailing_run(r, '\n') + m <= n,
    ensures
        runs_at_most(r + line_feeds(m), '\n', n),
        trailing_run(r + line_feeds(m), '\n') == trailing_run(r, '\n') + m,
    decreases m,
{
    if m == 0 {
        assert(r + line_feeds(0) == r);
    } else {
        let m1 = (m - 1) as nat;
        lemma_runs_append_feeds(r, m1, n);
        assert(r + line_feeds(m) == (r + line_feeds(m1)).push('\n'));
        lemma_runs_push(r + line_feeds(m1), '\n', '\n', n);
    }
}

proof fn lemma_runs_append_plain(r: Seq<char>, x: char, b: Seq<char>, n: nat)
    requires
        runs_at_most(r, x, n),
        lacks_char(b, x),
    ensures
        runs_at_most(r + b, x, n),
        b.len() > 0 ==> trailing_run(r + b, x) == 0,
        b.len() == 0 ==> trailing_run(r + b, x) == trailing_run(r, x),
    decreases b.len(),
{
    if b.len() == 0 {
        assert(r + b == r);
    } else {
        let b1 = b.drop_last();
        assert(lacks_char(b1, x)) by {
            assert forall|j: int| 0 <= j < b1.len() implies #[trigger] b1[j] != x by {
                assert(b1[j] == b[j]);
            }
        }
        lemma_runs_append_plain(r, x, b1, n);
        assert(r + b == (r + b1).push(b.last()));
        assert(b.last() == b[b.len() - 1]);
        lemma_runs_push(r + b1, x, b.last(), n);
    }
}

proof fn lemma_runs_prefix(r: Seq<char>, x: char, k: int, n: nat)
    requires
        runs_at_most(r, x, n),
        0 <= k <= r.len(),
    ensures
        runs_at_most(r.subrange(0, k), x, n),
    decreases r.len(),
{
    if k == r.len() {
        assert(r.subrange(0, k) == r);
    } else {
        lemma_runs_prefix(r.drop_last(), x, k, n);
        assert(r.drop_last().subrange(0, k) == r.subrange(0, k));
    }
}

proof fn lemma_trailing_suffix(r: Seq<char>, x: char, a: int)
    requires
        0 <= a <= r.len(),
    ensures
        trailing_run(r.subrange(a, r.len() as int), x) <= trailing_run(r, x),
    decreases r.len(),
{
    let t = r.subrange(a, r.len() as int);
    if a < r.len() && r.last() == x {
        lemma_trailing_suffix(r.drop_last(), x, a);
        assert(t.drop_last() == r.drop_last().subrange(a, r.drop_last().len() as int));
        assert(t.last() == r.last());
    } else if a < r.len() {
        assert(t.last() == r.last());
    }
}

proof fn lemma_runs_suffix(r: Seq<char>, x: char, a: int, n: nat)
    requires
        runs_at_most(r, x, n),
        0 <= a <= r.len(),
    ensures
        runs_at_most(r.subrange(a, r.len() as int), x, n),
    decreases r.len(),
{
    let t = r.subrange(a, r.len() as int);
    if a < r.len() {
        lemma_runs_suffix(r.drop_last(), x, a, n);
        assert(t.drop_last() == r.drop_last().subrange(a, r.drop_last().len() as int));
        lemma_trailing_suffix(r, x, a);
    }
}

proof fn lemma_runs_subrange(r: Seq<char>, x: char, a: int, b: int, n: nat)
    requires
        runs_at_most(r, x, n),
        0 <= a <= b <= r.len(),
    ensures
        runs_at_most(r.subrange(a, b), x, n),
{
    lemma_runs_suffix(r, x, a, n);
    let t = r.subrange(a, r.len() as int);
    lemma_runs_prefix(t, x, b - a, n);
    assert(t.subrange(0, b - a) == r.subrange(a, b));
}

proof fn lemma_trailing_run_zero(r: Seq<char>, x: char)
    requires
        r.len() > 0 ==> r.last() != x,
    ensures
        trailing_run(r, x) == 0,
{
}

/// A window of more than `n` characters in a text whose runs of `x` are at
/// most `n` long holds a character other than `x`.
proof fn lemma_runs_exclude_window(r: Seq<char>, x: char, j: int, w: nat, n: nat)
    requires
        runs_at_most(r, x, n),
        n < w,
        0 <= j,
        j + w <= r.len(),
    ensures
        exists|q: int| j <= q < j + w && #[trigger] r[q] != x,
{
    if forall|q: int| j <= q < j + w ==> #[trigger] r[q] == x {
        let p = r.subrange(0, j + w);
        lemma_runs_prefix(r, x, j + w, n);
        assert forall|q: int| j <= q < j + w implies #[trigger] p[q] == x by {
            assert(p[q] == r[q]);
        }
        lemma_window_trailing(p, x, j, w);
        lemma_runs_bound_trailing(p, x, n);
    }
}

proof fn lemma_runs_bound_trailing(r: Seq<char>, x: char, n: nat)
    requires
        runs_at_most(r, x, n),
    ensures
        trailing_run(r, x) <= n,
{
}

proof fn lemma_window_trailing(p: Seq<char>, x: char, j: int, w: nat)
    requires
        0 <= j,
        j + w == p.len(),
        forall|q: int| j <= q < j + w ==> #[trigger] p[q] == x,
    ensures
        trailing_run(p, x) >= w,
    decreases w,
{
    if w > 0 {
        let p1 = p.drop_last();
        assert forall|q: int| j <= q < j + (w - 1) implies #[trigger] p1[q] == x by {
            assert(p1[q] == p[q]);
        }
        lemma_window_trailing(p1, x, j, (w - 1) as nat);
        assert(p.last() == p[p.len() - 1]);
    }
}

// ---------------------------------------------------------------------------
// What the pass keeps invariant
// ---------------------------------------------------------------------------

/// A character the cleaner writes for white space or line breaks is a plain
/// space or a line feed.
pub open spec fn is_normalized_char(c: char) -> bool {
    !(is_blank(c) || is_line_break(c)) || c == ' ' || c == '\n'
}

pub open spec fn all_normalized(r: Seq<char>) -> bool {
    forall|j: int| 0 <= j < r.len() ==> is_normalized_char(#[trigger] r[j])
}

/// The modes whose promise on runs of line feeds holds: when no character is
/// dropped, no run is longer than the mode's limit.
pub open spec fn bounds_line_feed_runs(cfg: TextCleaner) -> bool {
    (cfg.newlines == Newlines::TwoPlus || cfg.newlines == Newlines::Single)
        && !cfg.remove_non_basic_ascii
}

pub open spec fn line_feed_limit(cfg: TextCleaner) -> nat {
    if cfg.newlines == Newlines::Single {
        1
    } else {
        2
    }
}

spec fn ends_with_line_feed(r: Seq<char>) -> bool {
    r.len() > 0 && r.last() == '\n'
}

/// The settings under which runs of white space become a single space: line
/// breaks are not written as spaces, and neither citation removal nor the
/// control-character filter is on.
pub open spec fn collapses_spaces(cfg: TextCleaner) -> bool {
    cfg.newlines != Newlines::Space && !cfg.remove_citations && !cfg.remove_non_basic_ascii
}

spec fn ends_with_space(r: Seq<char>) -> bool {
    r.len() > 0 && r.last() == ' '
}

/// What the cleaner may write, given its settings: white space only as a
/// space or a line feed (or, in single-newline mode, a carriage return), no
/// line feed in single-space mode, and no ASCII control character other than
/// ASCII white space with the filter on.
pub open spec fn char_ok(cfg: TextCleaner, c: char) -> bool {
    &&& is_normalized_char(c) || (cfg.newlines == Newlines::Single && c == '\r')
    &&& cfg.newlines == Newlines::Space ==> c != '\n'
    &&& cfg.remove_non_basic_ascii ==> spec_is_valid_text_char(c)
}

pub open spec fn all_chars_ok(cfg: TextCleaner, r: Seq<char>) -> bool {
    forall|j: int| 0 <= j < r.len() ==> char_ok(cfg, #[trigger] r[j])
}

spec fn pass_invariant(cfg: TextCleaner, s: Seq<char>, i: int, st: CleanModel) -> bool {
    &&& all_chars_ok(cfg, st.result)
    &&& st.newlines > 0 ==> !st.last_was_space
    &&& collapses_spaces(cfg) ==> {
        &&& runs_at_most(st.result, ' ', 1)
        &&& ends_with_space(st.result) ==> st.last_was_space || st.newlines > 0
    }
    &&& bounds_line_feed_runs(cfg) ==> {
        &&& runs_at_most(st.result, '\n', line_feed_limit(cfg))
        &&& ends_with_line_feed(st.result) ==> {
            &&& st.newlines == 0
            &&& !st.last_was_space
            &&& 0 <= i < s.len()
            &&& is_closing_punctuation(s[i])
        }
    }
}

proof fn lemma_classify_facts(cfg: TextCleaner, s: Seq<char>, i: int)
    requires
        0 <= i < s.len(),
    ensures
        ({
            let (step, next) = classify(cfg, s, i);
            &&& i < next <= s.len()
            &&& step matches Step::Emit(c) ==> is_normalized_char(c) && c != '\n' && c != ' '
            &&& step matches Step::LineBreaks(k) ==> k >= 1
            &&& !cfg.remove_citations ==> !(step is CitationRemoved) && !(step is Replay)
            &&& step matches Step::Replay(b) ==> {
                &&& b.len() > 0
                &&& b[0] == '['
                &&& all_chars_ok(cfg, b)
                &&& lacks_char(b, '\n')
                &&& lacks_char(b, '\r')
            }
            &&& step matches Step::CitationRemoved(p) ==> (p ==> next < s.len()
                && is_closing_punctuation(s[next]))
            &&& is_closing_punctuation(s[i]) ==> step == Step::Emit(s[i]) && next == i + 1
        }),
{
    crate::text_spec::lemma_citation_body_end_facts(s, i + 1);
    let (step, next) = classify(cfg, s, i);
    if let Step::Replay(b) = step {
        let k = citation_body_end(s, i + 1);
        assert(b == seq!['['] + s.subrange(i + 1, k));
        assert forall|j: int| 0 <= j < b.len() implies char_ok(cfg, #[trigger] b[j]) && b[j]
            != '\n' && b[j] != '\r' by {
            if j > 0 {
                assert(b[j] == s[i + j]);
                assert(is_citation_body_char(s[i + j]));
            }
        }
    }
}

proof fn lemma_line_feeds_lack_space(m: nat)
    ensures
        lacks_char(line_feeds(m), ' '),
{
}

proof fn lemma_flush(cfg: TextCleaner, s: Seq<char>, i: int, st: CleanModel)
    requires
        pass_invariant(cfg, s, i, st),
    ensures
        ({
            let f = flush_newlines(cfg.newlines, st);
            &&& all_chars_ok(cfg, f.result)
            &&& bounds_line_feed_runs(cfg) ==> runs_at_most(
                f.result,
                '\n',
                line_feed_limit(cfg),
            )
            &&& collapses_spaces(cfg) ==> runs_at_most(f.result, ' ', 1)
            &&& collapses_spaces(cfg) && st.newlines > 0 ==> ends_with_line_feed(f.result)
            &&& f.newlines == 0
            &&& f.last_was_space == st.last_was_space
            &&& st.newlines == 0 ==> f == st
            &&& st.newlines > 0 ==> f.result.len() > st.result.len()
        }),
{
    if st.newlines > 0 {
        let text = newline_text(cfg.newlines, st.newlines, st.crlf);
        let f = flush_newlines(cfg.newlines, st);
        assert(f.result == st.result + text);
        assert forall|j: int|
            0 <= j < f.result.len() implies char_ok(cfg, #[trigger] f.result[j]) by {
            if j >= st.result.len() {
                assert(f.result[j] == text[j - st.result.len()]);
            }
        }
        if collapses_spaces(cfg) {
            if cfg.newlines == Newlines::Single && st.crlf {
                assert(text == seq!['\r', '\n']);
                assert(lacks_char(text, ' '));
            } else {
                let m: nat = match cfg.newlines {
                    Newlines::Single => 1,
                    Newlines::TwoPlus => if st.newlines < 2 { st.newlines } else { 2 },
                    _ => st.newlines,
                };
                assert(text == line_feeds(m));
                lemma_line_feeds_lack_space(m);
            }
            lemma_runs_append_plain(st.result, ' ', text, 1);
            assert(f.result.last() == text[text.len() - 1]);
        }
        if bounds_line_feed_runs(cfg) {
            lemma_trailing_run_zero(st.result, '\n');
            if cfg.newlines == Newlines::Single && st.crlf {
                assert(text == seq!['\r', '\n']);
                assert(f.result == st.result.push('\r').push('\n'));
                lemma_runs_push(st.result, '\n', '\r', line_feed_limit(cfg));
                lemma_runs_push(st.result.push('\r'), '\n', '\n', line_feed_limit(cfg));
            } else if cfg.newlines == Newlines::Single {
                assert(text == line_feeds(1));
                lemma_runs_append_feeds(st.result, 1, line_feed_limit(cfg));
            } else {
                let m: nat = if st.newlines < 2 { st.newlines } else { 2 };
                assert(text == line_feeds(m));
                lemma_runs_append_feeds(st.result, m, line_feed_limit(cfg));
            }
        }
    }
}

proof fn lemma_step_keeps_invariant(cfg: TextCleaner, s: Seq<char>, i: int, st: CleanModel)
    requires
        0 <= i < s.len(),
        pass_invariant(cfg, s, i, st),
    ensures
        pass_invariant(cfg, s, classify(cfg, s, i).1, apply_step(cfg, st, classify(cfg, s, i).0)),
{
    lemma_classify_facts(cfg, s, i);
    let (step, next) = classify(cfg, s, i);
    let r = st.result;
    let n = line_feed_limit(cfg);
    let post = apply_step(cfg, st, step);
    // Only an `Emit` may follow a buffer that ends with a line feed.
    if bounds_line_feed_runs(cfg) && ends_with_line_feed(r) {
        assert(step == Step::Emit(s[i]));
    }
    match step {
        Step::LineBreaks(k) => {
            assert(post.result == r);
        },
        Step::CrLf => {
            assert(post.result == r);
        },
        Step::Blank => {
            if st.newlines > 0 && cfg.newlines == Newlines::Space {
                assert(post.result == r.push(' '));
                assert forall|j: int|
                    0 <= j < post.result.len() implies char_ok(cfg, #[trigger] post.result[j]) by {
                    if j < r.len() {
                        assert(post.result[j] == r[j]);
                    }
                }
            } else {
                lemma_flush(cfg, s, i, st);
                let f = flush_newlines(cfg.newlines, st);
                if !f.last_was_space {
                    assert(post.result == f.result.push(' '));
                    assert forall|j: int|
                        0 <= j < post.result.len() implies char_ok(cfg, #[trigger] post.result[j]) by {
                        if j < f.result.len() {
                            assert(post.result[j] == f.result[j]);
                        }
                    }
                    if bounds_line_feed_runs(cfg) {
                        lemma_runs_push(f.result, '\n', ' ', n);
                    }
                    if collapses_spaces(cfg) {
                        if st.newlines > 0 {
                            lemma_trailing_run_zero(f.result, ' ');
                        } else {
                            lemma_trailing_run_zero(r, ' ');
                        }
                        lemma_runs_push(f.result, ' ', ' ', 1);
                    }
                } else {
                    assert(post == f);
                    if bounds_line_feed_runs(cfg) {
                        assert(st.newlines == 0);
                    }
                }
            }
        },
        Step::EscapedBlank => {
            if !st.last_was_space && st.newlines == 0 {
                assert(post.result == r.push(' '));
                assert forall|j: int|
                    0 <= j < post.result.len() implies char_ok(cfg, #[trigger] post.result[j]) by {
                    if j < r.len() {
                        assert(post.result[j] == r[j]);
                    }
                }
                if bounds_line_feed_runs(cfg) {
                    lemma_runs_push(r, '\n', ' ', n);
                }
                if collapses_spaces(cfg) {
                    lemma_trailing_run_zero(r, ' ');
                    lemma_runs_push(r, ' ', ' ', 1);
                }
            }
        },
        Step::EscapedLineBreak => {
            assert(post.result == r);
        },
        Step::CitationRemoved(p) => {
            if p && st.last_was_space && r.len() > 0 && r.last() == ' ' {
                let d = r.drop_last();
                assert(post.result == d);
                assert forall|j: int|
                    0 <= j < d.len() implies char_ok(cfg, #[trigger] d[j]) by {
                    assert(d[j] == r[j]);
                }
                if bounds_line_feed_runs(cfg) {
                    assert(st.newlines == 0);
                }
            }
        },
        Step::Replay(b) => {
            lemma_flush(cfg, s, i, st);
            let f = flush_newlines(cfg.newlines, st);
            assert(post.result == f.result + b);
            assert forall|j: int|
                0 <= j < post.result.len() implies char_ok(cfg, #[trigger] post.result[j]) by {
                if j < f.result.len() {
                    assert(post.result[j] == f.result[j]);
                } else {
                    assert(post.result[j] == b[j - f.result.len()]);
                }
            }
            if bounds_line_feed_runs(cfg) {
                lemma_runs_append_plain(f.result, '\n', b, n);
                assert(post.result.last() == b[b.len() - 1]);
            }
        },
        Step::Emit(c) => {
            lemma_flush(cfg, s, i, st);
            let f = flush_newlines(cfg.newlines, st);
            if !cfg.remove_non_basic_ascii || spec_is_valid_text_char(c) {
                assert(post.result == f.result.push(c));
                assert forall|j: int|
                    0 <= j < post.result.len() implies char_ok(cfg, #[trigger] post.result[j]) by {
                    if j < f.result.len() {
                        assert(post.result[j] == f.result[j]);
                    }
                }
                if bounds_line_feed_runs(cfg) {
                    lemma_runs_push(f.result, '\n', c, n);
                }
                if collapses_spaces(cfg) {
                    lemma_runs_push(f.result, ' ', c, 1);
                }
            } else {
                assert(post.result == f.result);
            }
        },
    }
}

proof fn lemma_pass_keeps_invariant(cfg: TextCleaner, s: Seq<char>, i: int, st: CleanModel)
    requires
        0 <= i <= s.len(),
        pass_invariant(cfg, s, i, st),
    ensures
        pass_invariant(cfg, s, s.len() as int, process_from(cfg, s, i, st)),
    decreases s.len() - i,
{
    if i < s.len() {
        lemma_classify_facts(cfg, s, i);
        lemma_step_keeps_invariant(cfg, s, i, st);
        let (step, next) = classify(cfg, s, i);
        lemma_pass_keeps_invariant(cfg, s, next, apply_step(cfg, st, step));
    } else {
        if bounds_line_feed_runs(cfg) {
            assert(!ends_with_line_feed(st.result));
        }
    }
}

/// The buffer a pass leaves before trimming keeps the invariant's promises.
proof fn lemma_final_buffer(cfg: TextCleaner, s: Seq<char>)
    ensures
        all_chars_ok(cfg, clean_model(cfg, s).result),
        collapses_spaces(cfg) ==> runs_at_most(clean_model(cfg, s).result, ' ', 1),
        bounds_line_feed_runs(cfg) ==> runs_at_most(
            clean_model(cfg, s).result,
            '\n',
            line_feed_limit(cfg),
        ),
{
    let init = initial_model();
    assert(pass_invariant(cfg, s, 0, init));
    lemma_pass_keeps_invariant(cfg, s, 0, init);
    lemma_flush(cfg, s, s.len() as int, process_from(cfg, s, 0, init));
}

/// White space in the output is normalised: every character of the cleaner's
/// white-space and line-break classes that `run` writes is a plain space or a
/// line feed, or, in single-newline mode, the carriage return of a CRLF.
pub proof fn law_white_space_is_normalized(cfg: TextCleaner, s: Seq<char>)
    ensures
        forall|j: int|
            0 <= j < clean_text(cfg, s).len() ==> is_normalized_char(
                #[trigger] clean_text(cfg, s)[j],
            ) || (cfg.newlines == Newlines::Single && clean_text(cfg, s)[j] == '\r'),
{
    let r = clean_model(cfg, s).result;
    lemma_final_buffer(cfg, s);
    let (a, b) = lemma_trim_output_parts(r);
    assert forall|j: int| 0 <= j < clean_text(cfg, s).len() implies is_normalized_char(
        #[trigger] clean_text(cfg, s)[j],
    ) || (cfg.newlines == Newlines::Single && clean_text(cfg, s)[j] == '\r') by {
        if clean_text(cfg, s)[j] != '\n' {
            assert(char_ok(cfg, r[a + j]));
        }
    }
}

/// With `reduce_newlines_to_single_space`, the output is a single line: it
/// holds no line feed.
pub proof fn law_single_space_mode_has_no_line_feed(cfg: TextCleaner, s: Seq<char>)
    requires
        cfg.newlines == Newlines::Space,
    ensures
        lacks_char(clean_text(cfg, s), '\n'),
{
    let r = clean_model(cfg, s).result;
    lemma_final_buffer(cfg, s);
    let (a, b) = lemma_trim_output_parts(r);
    let t = trim_end_blanks(trim_start_white_space(r));
    let out = clean_text(cfg, s);
    if a + t.len() > b {
        let q = a + t.len() - 1;
        assert(is_normalized_char(r[q]));
        assert(r[q] != '\n');
    }
    assert forall|j: int| 0 <= j < out.len() implies #[trigger] out[j] != '\n' by {
        assert(out[j] == r[a + j]);
    }
}

/// In double-newline mode, when no character is dropped by the
/// control-character filter, the output holds no run of more than two line
/// feeds.
proof fn lemma_output_runs(cfg: TextCleaner, s: Seq<char>)
    requires
        cfg.newlines == Newlines::TwoPlus,
        !cfg.remove_non_basic_ascii,
    ensures
        runs_at_most(clean_text(cfg, s), '\n', line_feed_limit(cfg)),
{
    let r = clean_model(cfg, s).result;
    let n = line_feed_limit(cfg);
    lemma_final_buffer(cfg, s);
    let (a, b) = lemma_trim_output_parts(r);
    let t = trim_end_blanks(trim_start_white_space(r));
    let k = trailing_line_end_count(t);
    let m: nat = kept_line_feeds(t);
    let body = r.subrange(a, b);
    lemma_runs_subrange(r, '\n', a, b, n);
    if b > a {
        assert(body.last() == r[b - 1]);
    }
    lemma_trailing_run_zero(body, '\n');
    lemma_runs_append_feeds(body, m, n);
}

/// With `reduce_newlines_to_double_newline` (the default) and without
/// `remove_non_basic_ascii`, the output never holds three line feeds in a row.
pub proof fn law_double_newline_mode_bounds_paragraph_breaks(cfg: TextCleaner, s: Seq<char>)
    requires
        cfg.newlines == Newlines::TwoPlus,
        !cfg.remove_non_basic_ascii,
    ensures
        forall|j: int|
            0 <= j && j + 2 < clean_text(cfg, s).len() ==> !(#[trigger] clean_text(cfg, s)[j]
                == '\n' && clean_text(cfg, s)[j + 1] == '\n' && clean_text(cfg, s)[j + 2] == '\n'),
{
    let out = clean_text(cfg, s);
    lemma_output_runs(cfg, s);
    assert forall|j: int| 0 <= j && j + 2 < out.len() implies !(#[trigger] out[j] == '\n' && out[j
        + 1] == '\n' && out[j + 2] == '\n') by {
        lemma_runs_exclude_window(out, '\n', j, 3, 2);
        let q = choose|q: int| j <= q < j + 3 && #[trigger] out[q] != '\n';
        assert(q == j || q == j + 1 || q == j + 2);
    }
}

/// With `reduce_newlines_to_single_newline` and without
/// `remove_non_basic_ascii`, the output never holds two line feeds in a row.
pub proof fn law_single_newline_mode_bounds_line_breaks(cfg: TextCleaner, s: Seq<char>)
    requires
        cfg.newlines == Newlines::Single,
        !cfg.remove_non_basic_ascii,
    ensures
        forall|j: int|
            0 <= j && j + 1 < clean_text(cfg, s).len() ==> !(#[trigger] clean_text(cfg, s)[j]
                == '\n' && clean_text(cfg, s)[j + 1] == '\n'),
{
    let out = clean_text(cfg, s);
    let r = clean_model(cfg, s).result;
    lemma_final_buffer(cfg, s);
    lemma_single_mode_tail(cfg, s);
    let (a, b) = lemma_trim_output_parts(r);
    let t = trim_end_blanks(trim_start_white_space(r));
    let m: nat = kept_line_feeds(t);
    let body = r.subrange(a, b);
    lemma_runs_subrange(r, '\n', a, b, 1);
    assert(out == body + line_feeds(m));
    assert forall|j: int| 0 <= j && j + 1 < out.len() implies !(#[trigger] out[j] == '\n' && out[j
        + 1] == '\n') by {
        if j + 1 < body.len() {
            lemma_runs_exclude_window(body, '\n', j, 2, 1);
            let q = choose|q: int| j <= q < j + 2 && #[trigger] body[q] != '\n';
            assert(out[q] == body[q]);
            assert(q == j || q == j + 1);
        } else if j + 1 == body.len() {
            assert(out[j] == body[j]);
            assert(body[j] == r[b - 1]);
        }
    }
}

/// Runs of white space collapse to a single space: when line breaks are not
/// written as spaces and neither citation removal nor the
/// control-character filter is on, the output never holds two spaces in a row.
pub proof fn law_spaces_are_collapsed(cfg: TextCleaner, s: Seq<char>)
    requires
        collapses_spaces(cfg),
    ensures
        forall|j: int|
            0 <= j && j + 1 < clean_text(cfg, s).len() ==> !(#[trigger] clean_text(cfg, s)[j]
                == ' ' && clean_text(cfg, s)[j + 1] == ' '),
{
    let r = clean_model(cfg, s).result;
    let out = clean_text(cfg, s);
    lemma_final_buffer(cfg, s);
    let (a, b) = lemma_trim_output_parts(r);
    let t = trim_end_blanks(trim_start_white_space(r));
    let k = trailing_line_end_count(t);
    let m: nat = kept_line_feeds(t);
    lemma_runs_subrange(r, ' ', a, b, 1);
    lemma_line_feeds_lack_space(m);
    lemma_runs_append_plain(r.subrange(a, b), ' ', line_feeds(m), 1);
    assert(out == r.subrange(a, b) + line_feeds(m));
    assert forall|j: int| 0 <= j && j + 1 < out.len() implies !(#[trigger] out[j] == ' ' && out[j
        + 1] == ' ') by {
        lemma_runs_exclude_window(out, ' ', j, 2, 1);
        let q = choose|q: int| j <= q < j + 2 && #[trigger] out[q] != ' ';
        assert(q == j || q == j + 1);
    }
}

/// With `remove_non_basic_ascii`, the output holds no ASCII control character
/// other than ASCII white space.
pub proof fn law_filter_removes_control_characters(cfg: TextCleaner, s: Seq<char>)
    requires
        cfg.remove_non_basic_ascii,
    ensures
        forall|j: int|
            0 <= j < clean_text(cfg, s).len() ==> spec_is_valid_text_char(
                #[trigger] clean_text(cfg, s)[j],
            ),
{
    let r = clean_model(cfg, s).result;
    lemma_final_buffer(cfg, s);
    let (a, b) = lemma_trim_output_parts(r);
    assert forall|j: int| 0 <= j < clean_text(cfg, s).len() implies spec_is_valid_text_char(
        #[trigger] clean_text(cfg, s)[j],
    ) by {
        if clean_text(cfg, s)[j] != '\n' {
            assert(char_ok(cfg, r[a + j]));
        }
    }
}

/// Writing the pending line breaks twice writes them once, and writes
/// nothing when none are pending. This is the newline writer of `run`, whose
/// contract is `flush_newlines` on the pass's state.
pub proof fn law_flushing_newlines_is_idempotent(mode: Newlines, st: CleanModel)
    ensures
        flush_newlines(mode, flush_newlines(mode, st)) == flush_newlines(mode, st),
        st.newlines == 0 ==> flush_newlines(mode, st) == st,
{
}

/// White space right after white space changes nothing: however long a run
/// of white space, it writes what its first character writes. This is the
/// white-space handler of `run`, whose contract is the `Blank` step.
pub proof fn law_blank_after_blank_changes_nothing(cfg: TextCleaner, st: CleanModel)
    ensures
        apply_step(cfg, apply_step(cfg, st, Step::Blank), Step::Blank) == apply_step(
            cfg,
            st,
            Step::Blank,
        ),
{
}

// ---------------------------------------------------------------------------
// Cleaning a cleaned text
// ---------------------------------------------------------------------------

/// The letters that make a backslash before them an escape.
pub open spec fn is_escape_letter(c: char) -> bool {
    c == 's' || c == 't' || c == 'n' || c == 'r'
}

/// No backslash in `r` stands before an escape letter.
pub open spec fn no_escapes(r: Seq<char>) -> bool {
    forall|q: int|
        0 <= q && q + 1 < r.len() && #[trigger] r[q] == '\\' ==> !is_escape_letter(r[q + 1])
}

/// Every carriage return in `r` begins a CRLF that does not follow a line feed.
pub open spec fn crlf_only(r: Seq<char>) -> bool {
    forall|q: int|
        0 <= q < r.len() && #[trigger] r[q] == '\r' ==> q + 1 < r.len() && r[q + 1] == '\n' && (q
            > 0 ==> r[q - 1] != '\n')
}

spec fn fix_invariant(cfg: TextCleaner, s: Seq<char>, i: int, st: CleanModel) -> bool {
    &&& st.last_was_space ==> ends_with_space(st.result)
    &&& no_escapes(st.result)
    &&& crlf_only(st.result)
    &&& st.result.len() > 0 && st.result.last() == '\\' ==> (st.newlines > 0 || i >= s.len()
        || !is_escape_letter(s[i]))
}

proof fn lemma_append_keeps_shape(r: Seq<char>, t: Seq<char>)
    requires
        no_escapes(r),
        no_escapes(t),
        crlf_only(r),
        crlf_only(t),
        r.len() > 0 && r.last() == '\\' && t.len() > 0 ==> !is_escape_letter(t[0]),
        r.len() > 0 && r.last() == '\n' && t.len() > 0 ==> t[0] != '\r',
    ensures
        no_escapes(r + t),
        crlf_only(r + t),
{
    let u = r + t;
    assert forall|q: int| 0 <= q && q + 1 < u.len() && #[trigger] u[q] == '\\' implies !is_escape_letter(
        u[q + 1],
    ) by {
        if q + 1 < r.len() {
            assert(u[q] == r[q] && u[q + 1] == r[q + 1]);
        } else if q + 1 == r.len() {
            assert(u[q] == r[q] && r.last() == r[q] && u[q + 1] == t[0]);
        } else {
            assert(u[q] == t[q - r.len()] && u[q + 1] == t[q + 1 - r.len()]);
        }
    }
    assert forall|q: int| 0 <= q < u.len() && #[trigger] u[q] == '\r' implies q + 1 < u.len() && u[q
        + 1] == '\n' && (q > 0 ==> u[q - 1] != '\n') by {
        if q < r.len() {
            assert(u[q] == r[q]);
            assert(q + 1 < r.len());
            assert(u[q + 1] == r[q + 1]);
            if q > 0 {
                assert(u[q - 1] == r[q - 1]);
            }
        } else {
            assert(u[q] == t[q - r.len()]);
            assert(u[q + 1] == t[q + 1 - r.len()]);
            if q > r.len() {
                assert(u[q - 1] == t[q - 1 - r.len()]);
            } else if q > 0 {
                assert(u[q - 1] == r[r.len() - 1]);
            }
        }
    }
}

proof fn lemma_newline_text_shape(cfg: TextCleaner, st: CleanModel)
    requires
        cfg.newlines != Newlines::Space,
        st.newlines > 0,
    ensures
        ({
            let t = newline_text(cfg.newlines, st.newlines, st.crlf);
            &&& t.len() > 0
            &&& t[0] == '\n' || t[0] == '\r'
            &&& t.last() == '\n'
            &&& no_escapes(t)
            &&& crlf_only(t)
            &&& t[0] == '\r' ==> cfg.newlines == Newlines::Single
        }),
{
    let t = newline_text(cfg.newlines, st.newlines, st.crlf);
    if cfg.newlines == Newlines::Single && st.crlf {
        assert(t == seq!['\r', '\n']);
    } else {
        let m: nat = match cfg.newlines {
            Newlines::Single => 1,
            Newlines::TwoPlus => if st.newlines < 2 { st.newlines } else { 2 },
            _ => st.newlines,
        };
        assert(t == line_feeds(m));
        assert(t[0] == '\n');
        assert(t.last() == t[t.len() - 1]);
    }
}

proof fn lemma_single_shape(c: char)
    requires
        c != '\r',
    ensures
        no_escapes(seq![c]),
        crlf_only(seq![c]),
{
    assert(seq![c][0] == c);
}

proof fn lemma_flush_keeps_shape(cfg: TextCleaner, s: Seq<char>, i: int, st: CleanModel)
    requires
        collapses_spaces(cfg),
        pass_invariant(cfg, s, i, st),
        fix_invariant(cfg, s, i, st),
    ensures
        no_escapes(flush_newlines(cfg.newlines, st).result),
        crlf_only(flush_newlines(cfg.newlines, st).result),
        st.newlines > 0 ==> flush_newlines(cfg.newlines, st).result.last() == '\n',
{
    if st.newlines > 0 {
        lemma_newline_text_shape(cfg, st);
        let t = newline_text(cfg.newlines, st.newlines, st.crlf);
        lemma_append_keeps_shape(st.result, t);
        assert((st.result + t).last() == t[t.len() - 1]);
    }
}

proof fn lemma_emit_facts(cfg: TextCleaner, s: Seq<char>, i: int)
    requires
        0 <= i < s.len(),
    ensures
        ({
            let (step, next) = classify(cfg, s, i);
            step matches Step::Emit(c) ==> {
                &&& c == s[i]
                &&& c == '\\' ==> next == i + 1 && (next < s.len() ==> !is_escape_letter(s[next]))
            }
        }),
{
}

proof fn lemma_fix_step(cfg: TextCleaner, s: Seq<char>, i: int, st: CleanModel)
    requires
        0 <= i < s.len(),
        collapses_spaces(cfg),
        pass_invariant(cfg, s, i, st),
        fix_invariant(cfg, s, i, st),
    ensures
        fix_invariant(cfg, s, classify(cfg, s, i).1, apply_step(cfg, st, classify(cfg, s, i).0)),
{
    lemma_classify_facts(cfg, s, i);
    lemma_emit_facts(cfg, s, i);
    let (step, next) = classify(cfg, s, i);
    let r = st.result;
    let post = apply_step(cfg, st, step);
    match step {
        Step::Blank => {
            lemma_flush_keeps_shape(cfg, s, i, st);
            let f = flush_newlines(cfg.newlines, st);
            if !f.last_was_space {
                lemma_single_shape(' ');
                lemma_append_keeps_shape(f.result, seq![' ']);
                assert(post.result == f.result + seq![' ']);
            }
        },
        Step::EscapedBlank => {
            if !st.last_was_space && st.newlines == 0 {
                lemma_single_shape(' ');
                lemma_append_keeps_shape(r, seq![' ']);
                assert(post.result == r + seq![' ']);
            }
        },
        Step::Emit(c) => {
            lemma_flush_keeps_shape(cfg, s, i, st);
            let f = flush_newlines(cfg.newlines, st);
            lemma_single_shape(c);
            if st.newlines > 0 {
                assert(f.result.len() > 0);
            }
            lemma_append_keeps_shape(f.result, seq![c]);
            assert(post.result == f.result + seq![c]);
        },
        _ => {},
    }
}

proof fn lemma_fix_pass(cfg: TextCleaner, s: Seq<char>, i: int, st: CleanModel)
    requires
        0 <= i <= s.len(),
        collapses_spaces(cfg),
        pass_invariant(cfg, s, i, st),
        fix_invariant(cfg, s, i, st),
    ensures
        fix_invariant(cfg, s, s.len() as int, process_from(cfg, s, i, st)),
        pass_invariant(cfg, s, s.len() as int, process_from(cfg, s, i, st)),
    decreases s.len() - i,
{
    if i < s.len() {
        lemma_classify_facts(cfg, s, i);
        lemma_step_keeps_invariant(cfg, s, i, st);
        lemma_fix_step(cfg, s, i, st);
        let (step, next) = classify(cfg, s, i);
        lemma_fix_pass(cfg, s, next, apply_step(cfg, st, step));
    } else {
        lemma_pass_keeps_invariant(cfg, s, i, st);
    }
}

/// The buffer a pass leaves, before trimming, holds no escape and no stray
/// carriage return.
proof fn lemma_final_buffer_shape(cfg: TextCleaner, s: Seq<char>)
    requires
        collapses_spaces(cfg),
    ensures
        no_escapes(clean_model(cfg, s).result),
        crlf_only(clean_model(cfg, s).result),
{
    let init = initial_model();
    assert(pass_invariant(cfg, s, 0, init));
    assert(fix_invariant(cfg, s, 0, init));
    lemma_fix_pass(cfg, s, 0, init);
    lemma_flush_keeps_shape(cfg, s, s.len() as int, process_from(cfg, s, 0, init));
}

/// The cleaned text holds no escape and no stray carriage return.
proof fn lemma_output_shape(cfg: TextCleaner, s: Seq<char>)
    requires
        collapses_spaces(cfg),
    ensures
        no_escapes(clean_text(cfg, s)),
        crlf_only(clean_text(cfg, s)),
{
    let r = clean_model(cfg, s).result;
    lemma_final_buffer_shape(cfg, s);
    let (a, b) = lemma_trim_output_parts(r);
    let t = trim_end_blanks(trim_start_white_space(r));
    let k = trailing_line_end_count(t);
    let m: nat = kept_line_feeds(t);
    let body = r.subrange(a, b);
    assert forall|q: int| 0 <= q && q + 1 < body.len() && #[trigger] body[q] == '\\' implies !is_escape_letter(
        body[q + 1],
    ) by {
        assert(body[q] == r[a + q] && body[q + 1] == r[a + q + 1]);
    }
    assert forall|q: int| 0 <= q < body.len() && #[trigger] body[q] == '\r' implies q + 1 < body.len()
        && body[q + 1] == '\n' && (q > 0 ==> body[q - 1] != '\n') by {
        assert(body[q] == r[a + q]);
        assert(r[b - 1] == body[body.len() - 1]);
        if q == 0 {
            assert(is_unicode_white_space(r[a]));
        }
        assert(body[q + 1] == r[a + q + 1]);
        if q > 0 {
            assert(body[q - 1] == r[a + q - 1]);
        }
    }
    let lf = line_feeds(m);
    assert forall|q: int| 0 <= q < lf.len() implies #[trigger] lf[q] == '\n' by {}
    if body.len() > 0 {
        assert(body.last() == r[b - 1]);
    }
    lemma_append_keeps_shape(body, lf);
    assert(clean_text(cfg, s) == body + lf);
}

/// What a text must be like for a pass to write it back unchanged: white
/// space only as single spaces and line feeds (or CRLFs in single-newline
/// mode), runs of line feeds no longer than the mode writes, and no escape.
pub open spec fn is_fixed_shape(cfg: TextCleaner, x: Seq<char>) -> bool {
    &&& forall|j: int|
        0 <= j < x.len() ==> is_normalized_char(#[trigger] x[j]) || (cfg.newlines
            == Newlines::Single && x[j] == '\r')
    &&& forall|j: int| 0 <= j && j + 1 < x.len() ==> !(#[trigger] x[j] == ' ' && x[j + 1] == ' ')
    &&& cfg.newlines == Newlines::TwoPlus ==> forall|j: int|
        0 <= j && j + 2 < x.len() ==> !(#[trigger] x[j] == '\n' && x[j + 1] == '\n' && x[j + 2]
            == '\n')
    &&& cfg.newlines == Newlines::Single ==> forall|j: int|
        0 <= j && j + 1 < x.len() ==> !(#[trigger] x[j] == '\n' && x[j + 1] == '\n')
    &&& no_escapes(x)
    &&& crlf_only(x)
}

spec fn sim_invariant(cfg: TextCleaner, x: Seq<char>, i: int, st: CleanModel) -> bool {
    &&& 0 <= i <= x.len()
    &&& flush_newlines(cfg.newlines, st).result == x.take(i)
    &&& st.result.len() == 0 || st.result.last() != '\n'
    &&& st.newlines > 0 ==> !st.last_was_space
    &&& cfg.newlines == Newlines::TwoPlus ==> st.newlines <= 2
    &&& cfg.newlines == Newlines::Single ==> st.newlines <= 1
    &&& st.newlines == 0 ==> (st.last_was_space <==> (i > 0 && x[i - 1] == ' '))
}

proof fn lemma_sim_step(cfg: TextCleaner, x: Seq<char>, i: int, st: CleanModel)
    requires
        collapses_spaces(cfg),
        is_fixed_shape(cfg, x),
        sim_invariant(cfg, x, i, st),
        i < x.len(),
    ensures
        i < classify(cfg, x, i).1,
        sim_invariant(cfg, x, classify(cfg, x, i).1, apply_step(cfg, st, classify(cfg, x, i).0)),
{
    let (step, next) = classify(cfg, x, i);
    let post = apply_step(cfg, st, step);
    let c = x[i];
    let r = st.result;
    let f = flush_newlines(cfg.newlines, st);
    assert(is_normalized_char(x[i]) || (cfg.newlines == Newlines::Single && x[i] == '\r'));
    let pend = newline_text(cfg.newlines, st.newlines, st.crlf);
    if st.newlines > 0 {
        lemma_newline_text_shape(cfg, st);
        assert(f.result == r + pend);
        assert(x.take(i)[i - 1] == f.result[f.result.len() - 1]);
        assert(x[i - 1] == '\n');
    } else {
        assert(f == st);
    }
    if c == '\r' {
        assert(x[i + 1] == '\n');
        assert(st.newlines == 0);
        assert(step == Step::CrLf && next == i + 2);
        assert(flush_newlines(cfg.newlines, post).result == r + seq!['\r', '\n']);
        assert(x.take(i + 2) =~= x.take(i) + seq!['\r', '\n']);
    } else if c == '\n' {
        assert(step == Step::LineBreaks(1) && next == i + 1);
        assert(x.take(i + 1) =~= x.take(i) + seq!['\n']);
        match cfg.newlines {
            Newlines::Single => {
                assert(st.newlines == 0);
                assert(flush_newlines(cfg.newlines, post).result == r + seq!['\n']);
            },
            Newlines::TwoPlus => {
                if st.newlines == 2 {
                    assert(pend == line_feeds(2));
                    assert(x.take(i)[i - 2] == f.result[f.result.len() - 2]);
                    assert(x[i - 2] == '\n');
                }
                if st.newlines == 0 {
                    assert(flush_newlines(cfg.newlines, post).result =~= r + seq!['\n']);
                } else {
                    assert(pend == line_feeds(st.newlines));
                    assert(flush_newlines(cfg.newlines, post).result =~= r + pend + seq!['\n']);
                }
            },
            _ => {
                if st.newlines == 0 {
                    assert(flush_newlines(cfg.newlines, post).result =~= r + seq!['\n']);
                } else {
                    assert(flush_newlines(cfg.newlines, post).result =~= r + pend + seq!['\n']);
                }
            },
        }
    } else if c == ' ' {
        assert(step == Step::Blank && next == i + 1);
        if i > 0 {
            assert(!(x[i - 1] == ' ' && x[i] == ' '));
        }
        assert(!f.last_was_space);
        assert(post.result == f.result.push(' '));
        assert(x.take(i + 1) =~= x.take(i).push(' '));
    } else {
        assert(!is_blank(c) && !is_line_break(c));
        if c == '\\' {
            if i + 1 < x.len() {
                assert(!is_escape_letter(x[i + 1]));
            }
        }
        assert(step == Step::Emit(c) && next == i + 1);
        assert(post.result == f.result.push(c));
        assert(x.take(i + 1) =~= x.take(i).push(c));
    }
}

proof fn lemma_sim_pass(cfg: TextCleaner, x: Seq<char>, i: int, st: CleanModel)
    requires
        collapses_spaces(cfg),
        is_fixed_shape(cfg, x),
        sim_invariant(cfg, x, i, st),
    ensures
        flush_newlines(cfg.newlines, process_from(cfg, x, i, st)).result == x,
    decreases x.len() - i,
{
    if i < x.len() {
        lemma_sim_step(cfg, x, i, st);
        lemma_classify_facts(cfg, x, i);
        let (step, next) = classify(cfg, x, i);
        lemma_sim_pass(cfg, x, next, apply_step(cfg, st, step));
    } else {
        assert(x.take(i) == x);
    }
}

/// Cleaning a cleaned text gives it back unchanged, when white space is
/// collapsed (line breaks not written as spaces, no citation removal and no
/// control-character filter).
pub proof fn law_cleaning_is_idempotent(cfg: TextCleaner, s: Seq<char>)
    requires
        collapses_spaces(cfg),
    ensures
        clean_text(cfg, clean_text(cfg, s)) == clean_text(cfg, s),
{
    let x = clean_text(cfg, s);
    law_white_space_is_normalized(cfg, s);
    law_spaces_are_collapsed(cfg, s);
    lemma_output_shape(cfg, s);
    if cfg.newlines == Newlines::TwoPlus {
        law_double_newline_mode_bounds_paragraph_breaks(cfg, s);
    }
    if cfg.newlines == Newlines::Single {
        law_single_newline_mode_bounds_line_breaks(cfg, s);
    }
    assert(is_fixed_shape(cfg, x));
    let init = initial_model();
    assert(x.take(0) =~= Seq::<char>::empty());
    assert(sim_invariant(cfg, x, 0, init));
    lemma_sim_pass(cfg, x, 0, init);
    law_trim_is_idempotent(clean_model(cfg, s).result);
}

proof fn lemma_append_crlf(r: Seq<char>, t: Seq<char>)
    requires
        crlf_only(r),
        crlf_only(t),
        r.len() > 0 && r.last() == '\n' && t.len() > 0 ==> t[0] != '\r',
    ensures
        crlf_only(r + t),
{
    let u = r + t;
    assert forall|q: int| 0 <= q < u.len() && #[trigger] u[q] == '\r' implies q + 1 < u.len() && u[q
        + 1] == '\n' && (q > 0 ==> u[q - 1] != '\n') by {
        if q < r.len() {
            assert(u[q] == r[q]);
            assert(q + 1 < r.len());
            assert(u[q + 1] == r[q + 1]);
            if q > 0 {
                assert(u[q - 1] == r[q - 1]);
            }
        } else {
            assert(u[q] == t[q - r.len()]);
            assert(u[q + 1] == t[q + 1 - r.len()]);
            if q > r.len() {
                assert(u[q - 1] == t[q - 1 - r.len()]);
            } else if q > 0 {
                assert(u[q - 1] == r[r.len() - 1]);
            }
        }
    }
}

proof fn lemma_flush_keeps_crlf(cfg: TextCleaner, s: Seq<char>, i: int, st: CleanModel)
    requires
        !cfg.remove_non_basic_ascii,
        pass_invariant(cfg, s, i, st),
        crlf_only(st.result),
    ensures
        crlf_only(flush_newlines(cfg.newlines, st).result),
{
    if st.newlines > 0 {
        let t = newline_text(cfg.newlines, st.newlines, st.crlf);
        if cfg.newlines == Newlines::Space {
            assert(t == seq![' ']);
            assert(t[0] == ' ');
        } else {
            lemma_newline_text_shape(cfg, st);
        }
        lemma_append_crlf(st.result, t);
    }
}

proof fn lemma_crlf_step(cfg: TextCleaner, s: Seq<char>, i: int, st: CleanModel)
    requires
        0 <= i < s.len(),
        !cfg.remove_non_basic_ascii,
        pass_invariant(cfg, s, i, st),
        crlf_only(st.result),
    ensures
        crlf_only(apply_step(cfg, st, classify(cfg, s, i).0).result),
{
    lemma_classify_facts(cfg, s, i);
    let (step, next) = classify(cfg, s, i);
    let r = st.result;
    let post = apply_step(cfg, st, step);
    match step {
        Step::Blank => {
            if st.newlines > 0 && cfg.newlines == Newlines::Space {
                lemma_single_shape(' ');
                lemma_append_crlf(r, seq![' ']);
                assert(post.result == r + seq![' ']);
            } else {
                lemma_flush_keeps_crlf(cfg, s, i, st);
                let f = flush_newlines(cfg.newlines, st);
                if !f.last_was_space {
                    lemma_single_shape(' ');
                    lemma_append_crlf(f.result, seq![' ']);
                    assert(post.result == f.result + seq![' ']);
                }
            }
        },
        Step::EscapedBlank => {
            if !st.last_was_space && st.newlines == 0 {
                lemma_single_shape(' ');
                lemma_append_crlf(r, seq![' ']);
                assert(post.result == r + seq![' ']);
            }
        },
        Step::CitationRemoved(p) => {
            if p && st.last_was_space && r.len() > 0 && r.last() == ' ' {
                let d = r.drop_last();
                assert forall|q: int| 0 <= q < d.len() && #[trigger] d[q] == '\r' implies q + 1
                    < d.len() && d[q + 1] == '\n' && (q > 0 ==> d[q - 1] != '\n') by {
                    assert(r[q] == d[q]);
                    assert(r[r.len() - 1] == ' ');
                    assert(d[q + 1] == r[q + 1]);
                    if q > 0 {
                        assert(d[q - 1] == r[q - 1]);
                    }
                }
            }
        },
        Step::Replay(buf) => {
            lemma_flush_keeps_crlf(cfg, s, i, st);
            let f = flush_newlines(cfg.newlines, st);
            assert forall|q: int| 0 <= q < buf.len() && #[trigger] buf[q] == '\r' implies false by {}
            lemma_append_crlf(f.result, buf);
        },
        Step::Emit(c) => {
            lemma_flush_keeps_crlf(cfg, s, i, st);
            let f = flush_newlines(cfg.newlines, st);
            lemma_single_shape(c);
            lemma_append_crlf(f.result, seq![c]);
            assert(post.result == f.result + seq![c]);
        },
        _ => {},
    }
}

proof fn lemma_crlf_pass(cfg: TextCleaner, s: Seq<char>, i: int, st: CleanModel)
    requires
        0 <= i <= s.len(),
        !cfg.remove_non_basic_ascii,
        pass_invariant(cfg, s, i, st),
        crlf_only(st.result),
    ensures
        crlf_only(process_from(cfg, s, i, st).result),
        pass_invariant(cfg, s, s.len() as int, process_from(cfg, s, i, st)),
    decreases s.len() - i,
{
    if i < s.len() {
        lemma_classify_facts(cfg, s, i);
        lemma_step_keeps_invariant(cfg, s, i, st);
        lemma_crlf_step(cfg, s, i, st);
        let (step, next) = classify(cfg, s, i);
        lemma_crlf_pass(cfg, s, next, apply_step(cfg, st, step));
    } else {
        lemma_pass_keeps_invariant(cfg, s, i, st);
    }
}

/// Without the filter, every carriage return the pass writes begins a CRLF
/// that follows no line feed.
proof fn lemma_final_crlf(cfg: TextCleaner, s: Seq<char>)
    requires
        !cfg.remove_non_basic_ascii,
    ensures
        crlf_only(clean_model(cfg, s).result),
{
    let init = initial_model();
    assert(pass_invariant(cfg, s, 0, init));
    lemma_crlf_pass(cfg, s, 0, init);
    lemma_flush_keeps_crlf(cfg, s, s.len() as int, process_from(cfg, s, 0, init));
}

/// In single-newline mode without the filter, the trailing line ends of the
/// trimmed buffer are one line end (a line feed or a CRLF), or none.
proof fn lemma_single_mode_tail(cfg: TextCleaner, s: Seq<char>)
    requires
        cfg.newlines == Newlines::Single,
        !cfg.remove_non_basic_ascii,
    ensures
        kept_line_feeds(trim_end_blanks(trim_start_white_space(clean_model(cfg, s).result)))
            <= 1,
{
    let r = clean_model(cfg, s).result;
    lemma_final_buffer(cfg, s);
    lemma_final_crlf(cfg, s);
    let (a, b) = lemma_trim_output_parts(r);
    let t = trim_end_blanks(trim_start_white_space(r));
    let k = trailing_line_end_count(t);
    let e = a + t.len();
    if k > 0 {
        assert(is_cr_or_lf(r[e - 1]));
        if r[e - 1] == '\r' {
            assert(e < r.len() && r[e] == '\n');
            assert(r[e] == ' ' || r[e] == '\t');
        }
        if k >= 2 {
            assert(is_cr_or_lf(r[e - 2]));
            if r[e - 2] == '\n' {
                lemma_runs_exclude_window(r, '\n', e - 2, 2, 1);
                let q = choose|q: int| e - 2 <= q < e - 2 + 2 && #[trigger] r[q] != '\n';
                assert(q == e - 2 || q == e - 1);
            }
            if k >= 3 {
                assert(is_cr_or_lf(r[e - 3]));
                assert(r[e - 2] == '\r');
            }
        }
        let tail = t.subrange(t.len() - k, t.len() as int);
        assert forall|j: int| 0 <= j < tail.len() implies #[trigger] tail[j] == r[b + j] by {}
        if k == 1 {
            assert(tail.drop_last() =~= Seq::<char>::empty());
            assert(line_end_units(Seq::<char>::empty()) == 0);
            assert(line_end_units(tail) == line_end_units(tail.drop_last()) + 1);
        } else {
            assert(k == 2);
            assert(tail[0] == '\r' && tail[1] == '\n');
            assert(tail.subrange(0, 0) =~= Seq::<char>::empty());
            assert(line_end_units(Seq::<char>::empty()) == 0);
            assert(line_end_units(tail) == line_end_units(tail.subrange(0, 0)) + 1);
        }
    } else {
        assert(t.subrange(t.len() - k, t.len() as int) =~= Seq::<char>::empty());
    }
}

/// The horizontal white space of Unicode other than the ASCII space: the tab,
/// the no-break space, the Ogham space mark, the spaces U+2000 to U+200A, the
/// narrow no-break space, the medium mathematical space and the ideographic
/// space.
pub open spec fn is_other_horizontal_space(c: char) -> bool {
    ||| c == '\t'
    ||| c == '\u{00A0}'
    ||| c == '\u{1680}'
    ||| ('\u{2000}' <= c && c <= '\u{200A}')
    ||| c == '\u{202F}'
    ||| c == '\u{205F}'
    ||| c == '\u{3000}'
}

/// Whatever the settings, the output holds no horizontal white space but the
/// ASCII space: tabs and the Unicode spaces are each written as a space (or
/// dropped in a run of white space).
pub proof fn law_output_has_only_ascii_spaces(cfg: TextCleaner, s: Seq<char>)
    ensures
        forall|j: int|
            0 <= j < clean_text(cfg, s).len() ==> !is_other_horizontal_space(
                #[trigger] clean_text(cfg, s)[j],
            ),
{
    law_white_space_is_normalized(cfg, s);
    let out = clean_text(cfg, s);
    assert forall|j: int| 0 <= j < out.len() implies !is_other_horizontal_space(#[trigger] out[j]) by {
        let c = out[j];
        assert(is_normalized_char(c) || (cfg.newlines == Newlines::Single && c == '\r'));
        if is_other_horizontal_space(c) {
            assert(is_blank(c));
        }
    }
}

// ---------------------------------------------------------------------------
// Which brackets citation removal keeps
// ---------------------------------------------------------------------------

/// A character that may stand between the brackets of a numeric citation:
/// an ASCII digit, a comma, a hyphen or a space.
pub open spec fn may_stand_in_citation(c: char) -> bool {
    (0x30 <= (c as u32) && (c as u32) <= 0x39) || c == ',' || c == '-' || c == ' '
}

/// Whether a numeric citation starts at `i`: a `[`, then characters that may
/// stand in a citation, at least one of them a digit, then a `]`.
pub open spec fn numeric_citation_at(s: Seq<char>, i: int) -> bool {
    &&& 0 <= i < s.len()
    &&& s[i] == '['
    &&& exists|k: int|
        i < k < s.len() && #[trigger] s[k] == ']' && (forall|j: int|
            i < j < k ==> may_stand_in_citation(#[trigger] s[j])) && (exists|j: int|
            i < j < k && 0x30 <= (#[trigger] s[j] as u32) && (s[j] as u32) <= 0x39)
}

/// The number of `[` among the first `n` characters of `s` that start no
/// numeric citation.
pub open spec fn kept_brackets(s: Seq<char>, n: int) -> nat
    decreases n,
{
    if n <= 0 {
        0
    } else {
        kept_brackets(s, n - 1) + if s[n - 1] == '[' && !numeric_citation_at(s, n - 1) {
            1nat
        } else {
            0nat
        }
    }
}

/// The number of copies of `c` in `r`.
pub open spec fn count_char(r: Seq<char>, c: char) -> nat
    decreases r.len(),
{
    if r.len() == 0 {
        0
    } else {
        count_char(r.drop_last(), c) + if r.last() == c {
            1nat
        } else {
            0nat
        }
    }
}

proof fn lemma_count_concat(a: Seq<char>, b: Seq<char>, c: char)
    ensures
        count_char(a + b, c) == count_char(a, c) + count_char(b, c),
    decreases b.len(),
{
    if b.len() == 0 {
        assert(a + b == a);
    } else {
        lemma_count_concat(a, b.drop_last(), c);
        assert((a + b).drop_last() == a + b.drop_last());
        assert((a + b).last() == b.last());
    }
}

proof fn lemma_count_absent(r: Seq<char>, c: char)
    requires
        forall|j: int| 0 <= j < r.len() ==> #[trigger] r[j] != c,
    ensures
        count_char(r, c) == 0,
    decreases r.len(),
{
    if r.len() > 0 {
        let d = r.drop_last();
        assert forall|j: int| 0 <= j < d.len() implies #[trigger] d[j] != c by {
            assert(d[j] == r[j]);
        }
        lemma_count_absent(d, c);
        assert(r.last() == r[r.len() - 1]);
    }
}

proof fn lemma_kept_brackets_skip(s: Seq<char>, n: int, m: int)
    requires
        0 <= n <= m <= s.len(),
        forall|j: int| n <= j < m ==> #[trigger] s[j] != '[',
    ensures
        kept_brackets(s, m) == kept_brackets(s, n),
    decreases m - n,
{
    if m > n {
        lemma_kept_brackets_skip(s, n, m - 1);
    }
}

proof fn lemma_body_end_is(s: Seq<char>, j: int, k: int)
    requires
        0 <= j <= k < s.len(),
        forall|q: int| j <= q < k ==> is_citation_body_char(#[trigger] s[q]),
        !is_citation_body_char(s[k]),
    ensures
        citation_body_end(s, j) == k,
    decreases k - j,
{
    if j < k {
        lemma_body_end_is(s, j + 1, k);
    }
}

/// With citation removal, a `[` is dropped exactly when it starts a numeric
/// citation.
proof fn lemma_citation_iff(cfg: TextCleaner, s: Seq<char>, i: int)
    requires
        0 <= i < s.len(),
        s[i] == '[',
        cfg.remove_citations,
    ensures
        classify(cfg, s, i).0 is CitationRemoved <==> numeric_citation_at(s, i),
{
    crate::text_spec::lemma_citation_body_end_facts(s, i + 1);
    let k = citation_body_end(s, i + 1);
    let body = s.subrange(i + 1, k);
    if classify(cfg, s, i).0 is CitationRemoved {
        assert(k < s.len() && s[k] == ']' && has_ascii_digit(body));
        let d = choose|d: int| 0 <= d < body.len() && #[trigger] is_ascii_digit(body[d]);
        assert(body[d] == s[i + 1 + d]);
        assert(0x30 <= (s[i + 1 + d] as u32) && (s[i + 1 + d] as u32) <= 0x39);
        assert forall|j: int| i < j < k implies may_stand_in_citation(#[trigger] s[j]) by {
            assert(is_citation_body_char(s[j]));
        }
    }
    if numeric_citation_at(s, i) {
        let k2 = choose|k2: int|
            i < k2 < s.len() && #[trigger] s[k2] == ']' && (forall|j: int|
                i < j < k2 ==> may_stand_in_citation(#[trigger] s[j])) && (exists|j: int|
                i < j < k2 && 0x30 <= (#[trigger] s[j] as u32) && (s[j] as u32) <= 0x39);
        assert forall|q: int| i + 1 <= q < k2 implies is_citation_body_char(#[trigger] s[q]) by {
            assert(may_stand_in_citation(s[q]));
        }
        lemma_body_end_is(s, i + 1, k2);
        let d = choose|d: int| i < d < k2 && 0x30 <= (#[trigger] s[d] as u32) && (s[d] as u32)
            <= 0x39;
        assert(body[d - i - 1] == s[d]);
        assert(is_ascii_digit(body[d - i - 1]));
    }
}

spec fn bracket_invariant(s: Seq<char>, i: int, st: CleanModel) -> bool {
    count_char(st.result, '[') == kept_brackets(s, i)
}

proof fn lemma_flush_keeps_brackets(cfg: TextCleaner, st: CleanModel)
    ensures
        count_char(flush_newlines(cfg.newlines, st).result, '[') == count_char(st.result, '['),
{
    if st.newlines > 0 {
        let t = newline_text(cfg.newlines, st.newlines, st.crlf);
        assert forall|j: int| 0 <= j < t.len() implies #[trigger] t[j] != '[' by {
            if cfg.newlines == Newlines::Single && st.crlf {
                assert(t == seq!['\r', '\n']);
            } else if cfg.newlines == Newlines::Space {
                assert(t == seq![' ']);
            }
        }
        lemma_count_absent(t, '[');
        lemma_count_concat(st.result, t, '[');
    }
}

proof fn lemma_bracket_step(cfg: TextCleaner, s: Seq<char>, i: int, st: CleanModel)
    requires
        0 <= i < s.len(),
        cfg.remove_citations,
        bracket_invariant(s, i, st),
    ensures
        bracket_invariant(s, classify(cfg, s, i).1, apply_step(cfg, st, classify(cfg, s, i).0)),
{
    crate::text_spec::lemma_citation_body_end_facts(s, i + 1);
    lemma_classify_facts(cfg, s, i);
    let (step, next) = classify(cfg, s, i);
    let r = st.result;
    let post = apply_step(cfg, st, step);
    lemma_flush_keeps_brackets(cfg, st);
    let f = flush_newlines(cfg.newlines, st);
    // The characters the step reads after the first hold no `[`.
    assert forall|j: int| i + 1 <= j < next implies #[trigger] s[j] != '[' by {
        if s[i] == '[' {
            let k = citation_body_end(s, i + 1);
            if j < k {
                assert(is_citation_body_char(s[j]));
            }
        }
    }
    lemma_kept_brackets_skip(s, i + 1, next);
    assert(kept_brackets(s, i + 1) == kept_brackets(s, i) + if s[i] == '[' && !numeric_citation_at(
        s,
        i,
    ) {
        1nat
    } else {
        0nat
    });
    if s[i] == '[' {
        lemma_citation_iff(cfg, s, i);
    }
    match step {
        Step::Blank => {
            assert(is_blank(s[i]));
            assert(s[i] != '[');
            assert(kept_brackets(s, next) == kept_brackets(s, i));
            if !(st.newlines > 0 && cfg.newlines == Newlines::Space) && f.last_was_space {
                assert(post == f);
            } else if st.newlines > 0 && cfg.newlines == Newlines::Space {
                lemma_count_concat(r, seq![' '], '[');
                lemma_count_absent(seq![' '], '[');
                assert(post.result =~= r + seq![' ']);
            } else {
                lemma_count_concat(f.result, seq![' '], '[');
                lemma_count_absent(seq![' '], '[');
                assert(post.result =~= f.result + seq![' ']);
            }
            assert(bracket_invariant(s, next, post));
        },
        Step::EscapedBlank => {
            if !st.last_was_space && st.newlines == 0 {
                lemma_count_concat(r, seq![' '], '[');
                lemma_count_absent(seq![' '], '[');
                assert(post.result =~= r + seq![' ']);
            }
            assert(bracket_invariant(s, next, post));
        },
        Step::CitationRemoved(p) => {
            if p && st.last_was_space && r.len() > 0 && r.last() == ' ' {
                assert(r =~= r.drop_last() + seq![' ']);
                lemma_count_concat(r.drop_last(), seq![' '], '[');
                lemma_count_absent(seq![' '], '[');
            }
            assert(bracket_invariant(s, next, post));
        },
        Step::Replay(b) => {
            let k = citation_body_end(s, i + 1);
            assert(b == seq!['['] + s.subrange(i + 1, k));
            let body = s.subrange(i + 1, k);
            assert forall|j: int| 0 <= j < body.len() implies #[trigger] body[j] != '[' by {
                assert(body[j] == s[i + 1 + j]);
            }
            lemma_count_absent(body, '[');
            lemma_count_concat(seq!['['], body, '[');
            assert(seq!['['].drop_last() =~= Seq::<char>::empty());
            assert(count_char(Seq::<char>::empty(), '[') == 0);
            assert(count_char(seq!['['], '[') == 1);
            lemma_count_concat(f.result, b, '[');
            assert(post.result == f.result + b);
            assert(s[i] == '[');
            assert(bracket_invariant(s, next, post));
        },
        Step::Emit(c) => {
            assert(c != '[');
            if !cfg.remove_non_basic_ascii || spec_is_valid_text_char(c) {
                lemma_count_concat(f.result, seq![c], '[');
                lemma_count_absent(seq![c], '[');
                assert(post.result =~= f.result + seq![c]);
            } else {
                assert(post.result == f.result);
            }
            assert(bracket_invariant(s, next, post));
        },
        _ => {},
    }
    assert(bracket_invariant(s, next, post));
}

proof fn lemma_bracket_pass(cfg: TextCleaner, s: Seq<char>, i: int, st: CleanModel)
    requires
        0 <= i <= s.len(),
        cfg.remove_citations,
        bracket_invariant(s, i, st),
    ensures
        bracket_invariant(s, s.len() as int, process_from(cfg, s, i, st)),
    decreases s.len() - i,
{
    if i < s.len() {
        lemma_classify_facts(cfg, s, i);
        lemma_bracket_step(cfg, s, i, st);
        let (step, next) = classify(cfg, s, i);
        lemma_bracket_pass(cfg, s, next, apply_step(cfg, st, step));
    }
}

/// With `remove_citations`, the brackets kept are exactly those that start no
/// numeric citation: the output holds as many `[` as the input has `[` not
/// followed by characters that may stand in a citation (ASCII digits, commas,
/// hyphens, spaces; at least one digit) and a `]`. So a bracket around text
/// with a letter in it, such as a Markdown link label, is always kept.
pub proof fn law_citation_removal_keeps_other_brackets(cfg: TextCleaner, s: Seq<char>)
    requires
        cfg.remove_citations,
    ensures
        count_char(clean_text(cfg, s), '[') == kept_brackets(s, s.len() as int),
{
    let init = initial_model();
    assert(bracket_invariant(s, 0, init));
    lemma_bracket_pass(cfg, s, 0, init);
    let st = process_from(cfg, s, 0, init);
    lemma_flush_keeps_brackets(cfg, st);
    let r = clean_model(cfg, s).result;
    let (a, b) = lemma_trim_output_parts(r);
    let t = trim_end_blanks(trim_start_white_space(r));
    let m: nat = kept_line_feeds(t);
    let pre = r.subrange(0, a);
    let mid = r.subrange(a, b);
    let post = r.subrange(b, r.len() as int);
    assert(r == pre + mid + post);
    assert forall|j: int| 0 <= j < pre.len() implies #[trigger] pre[j] != '[' by {
        assert(is_unicode_white_space(r[j]));
    }
    assert forall|j: int| 0 <= j < post.len() implies #[trigger] post[j] != '[' by {
        assert(post[j] == r[b + j]);
        if b + j < a + t.len() {
            assert(is_cr_or_lf(r[b + j]));
        } else {
            assert(r[b + j] == ' ' || r[b + j] == '\t');
        }
    }
    lemma_count_absent(pre, '[');
    lemma_count_absent(post, '[');
    lemma_count_concat(pre, mid, '[');
    lemma_count_concat(pre + mid, post, '[');
    let lf = line_feeds(m);
    assert forall|j: int| 0 <= j < lf.len() implies #[trigger] lf[j] != '[' by {}
    lemma_count_absent(lf, '[');
    lemma_count_concat(mid, lf, '[');
}

} // verus!
