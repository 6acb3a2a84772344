//! Detection of table cells whose `colspan` may read as zero, which the HTML
//! renderer cannot lay out. The scan is conservative: it looks at every
//! occurrence of the attribute name in the text, in any letter case, reads
//! the value after it as an HTML tokenizer would, and flags a value made of
//! zeros (after an optional `+`) or one holding a character reference.
use vstd::prelude::*;

verus! {

/// The white space that may stand around `=` in an HTML attribute.
pub open spec fn is_attr_space(c: char) -> bool {
    c == ' ' || c == '\t' || c == '\n' || c == '\r' || c == '\x0C'
}

/// Whether the attribute name `colspan`, in any ASCII letter case, starts at `p`.
pub open spec fn colspan_name_at(h: Seq<char>, p: int) -> bool {
    &&& 0 <= p
    &&& p + 7 <= h.len()
    &&& h[p] == 'c' || h[p] == 'C'
    &&& h[p + 1] == 'o' || h[p + 1] == 'O'
    &&& h[p + 2] == 'l' || h[p + 2] == 'L'
    &&& h[p + 3] == 's' || h[p + 3] == 'S'
    &&& h[p + 4] == 'p' || h[p + 4] == 'P'
    &&& h[p + 5] == 'a' || h[p + 5] == 'A'
    &&& h[p + 6] == 'n' || h[p + 6] == 'N'
}

/// The first index at or after `i` that holds no attribute white space.
pub open spec fn skip_attr_space(h: Seq<char>, i: int) -> int
    decreases h.len() - i,
{
    if 0 <= i < h.len() && is_attr_space(h[i]) {
        skip_attr_space(h, i + 1)
    } else {
        i
    }
}

/// The first index at or after `i` that holds the quote `q`, or the end.
pub open spec fn quoted_end(h: Seq<char>, i: int, q: char) -> int
    decreases h.len() - i,
{
    if 0 <= i < h.len() && h[i] != q {
        quoted_end(h, i + 1, q)
    } else {
        i
    }
}

/// The first index at or after `i` that ends an unquoted value (white space
/// or `>`), or the end.
pub open spec fn unquoted_end(h: Seq<char>, i: int) -> int
    decreases h.len() - i,
{
    if 0 <= i < h.len() && !is_attr_space(h[i]) && h[i] != '>' {
        unquoted_end(h, i + 1)
    } else {
        i
    }
}

/// Where the value of an attribute whose name ends at `e` starts and ends:
/// after optional white space, `=` and optional white space, either a quoted
/// value or an unquoted one; an empty range when no `=` follows.
pub open spec fn attr_value_range(h: Seq<char>, e: int) -> (int, int) {
    let j = skip_attr_space(h, e);
    if 0 <= j < h.len() && h[j] == '=' {
        let v = skip_attr_space(h, j + 1);
        if 0 <= v < h.len() && (h[v] == '"' || h[v] == '\'') {
            (v + 1, quoted_end(h, v + 1, h[v]))
        } else {
            (v, unquoted_end(h, v))
        }
    } else {
        (e, e)
    }
}

pub open spec fn all_zeros(v: Seq<char>) -> bool {
    v.len() > 0 && forall|k: int| 0 <= k < v.len() ==> #[trigger] v[k] == '0'
}

/// Whether the attribute value `v` may read as the number zero: zeros after
/// an optional `+`, or any value with a character reference in it.
pub open spec fn may_read_as_zero(v: Seq<char>) -> bool {
    ||| exists|k: int| 0 <= k < v.len() && #[trigger] v[k] == '&'
    ||| all_zeros(v)
    ||| v.len() >= 2 && v[0] == '+' && all_zeros(v.drop_first())
}

/// Whether a `colspan` attribute at `p` has a value that may read as zero.
pub open spec fn zero_colspan_at(h: Seq<char>, p: int) -> bool {
    colspan_name_at(h, p) && may_read_as_zero(
        h.subrange(attr_value_range(h, p + 7).0, attr_value_range(h, p + 7).1),
    )
}

/// Whether the HTML `h` may hold a table cell whose `colspan` reads as zero.
pub open spec fn has_zero_colspan(h: Seq<char>) -> bool {
    exists|p: int| 0 <= p < h.len() && #[trigger] zero_colspan_at(h, p)
}

fn skip_space_from(h: &Vec<char>, i: usize) -> (res: usize)
    requires
        i <= h@.len(),
    ensures
        res as int == skip_attr_space(h@, i as int),
        i <= res <= h@.len(),
{
    let mut j = i;
    while j < h.len() && (h[j] == ' ' || h[j] == '\t' || h[j] == '\n' || h[j] == '\r' || h[j]
        == '\x0C')
        invariant
            i <= j <= h@.len(),
            skip_attr_space(h@, i as int) == skip_attr_space(h@, j as int),
        decreases h@.len() - j,
    {
        j = j + 1;
    }
    j
}

fn quoted_end_from(h: &Vec<char>, i: usize, q: char) -> (res: usize)
    requires
        i <= h@.len(),
    ensures
        res as int == quoted_end(h@, i as int, q),
        i <= res <= h@.len(),
{
    let mut j = i;
    while j < h.len() && h[j] != q
        invariant
            i <= j <= h@.len(),
            quoted_end(h@, i as int, q) == quoted_end(h@, j as int, q),
        decreases h@.len() - j,
    {
        j = j + 1;
    }
    j
}

fn unquoted_end_from(h: &Vec<char>, i: usize) -> (res: usize)
    requires
        i <= h@.len(),
    ensures
        res as int == unquoted_end(h@, i as int),
        i <= res <= h@.len(),
{
    let mut j = i;
    while j < h.len() && !(h[j] == ' ' || h[j] == '\t' || h[j] == '\n' || h[j] == '\r' || h[j]
        == '\x0C') && h[j] != '>'
        invariant
            i <= j <= h@.len(),
            unquoted_end(h@, i as int) == unquoted_end(h@, j as int),
        decreases h@.len() - j,
    {
        j = j + 1;
    }
    j
}

fn value_range(h: &Vec<char>, e: usize) -> (res: (usize, usize))
    requires
        e <= h@.len(),
    ensures
        (res.0 as int, res.1 as int) == attr_value_range(h@, e as int),
        res.0 <= res.1 <= h@.len(),
{
    let j = skip_space_from(h, e);
    if j < h.len() && h[j] == '=' {
        let v = skip_space_from(h, j + 1);
        if v < h.len() && (h[v] == '"' || h[v] == '\'') {
            (v + 1, quoted_end_from(h, v + 1, h[v]))
        } else {
            (v, unquoted_end_from(h, v))
        }
    } else {
        (e, e)
    }
}

/// Whether the characters of `h` from `start` to `end` are all zeros (and
/// at least one).
fn zeros_between(h: &Vec<char>, start: usize, end: usize) -> (res: bool)
    requires
        start <= end <= h@.len(),
    ensures
        res == all_zeros(h@.subrange(start as int, end as int)),
{
    let ghost v = h@.subrange(start as int, end as int);
    let mut k = start;
    while k < end
        invariant
            start <= k <= end <= h@.len(),
            v == h@.subrange(start as int, end as int),
            forall|m: int| start <= m < k ==> #[trigger] h@[m] == '0',
        decreases end - k,
    {
        if h[k] != '0' {
            assert(v[k - start] == h@[k as int]);
            return false;
        }
        k = k + 1;
    }
    assert forall|m: int| 0 <= m < v.len() implies #[trigger] v[m] == '0' by {
        assert(v[m] == h@[start + m]);
    }
    start < end
}

fn value_may_read_as_zero(h: &Vec<char>, start: usize, end: usize) -> (res: bool)
    requires
        start <= end <= h@.len(),
    ensures
        res == may_read_as_zero(h@.subrange(start as int, end as int)),
{
    let ghost v = h@.subrange(start as int, end as int);
    let mut k = start;
    while k < end
        invariant
            start <= k <= end <= h@.len(),
            v == h@.subrange(start as int, end as int),
            forall|m: int| start <= m < k ==> #[trigger] h@[m] != '&',
        decreases end - k,
    {
        if h[k] == '&' {
            assert(v[k - start] == '&');
            return true;
        }
        k = k + 1;
    }
    assert(!exists|m: int| 0 <= m < v.len() && #[trigger] v[m] == '&') by {
        assert forall|m: int| 0 <= m < v.len() implies #[trigger] v[m] != '&' by {
            assert(v[m] == h@[start + m]);
        }
    }
    if zeros_between(h, start, end) {
        return true;
    }
    if end - start >= 2 && h[start] == '+' {
        assert(v.drop_first() == h@.subrange(start + 1, end as int));
        zeros_between(h, start + 1, end)
    } else {
        false
    }
}

/// Whether the HTML `h` may hold a table cell whose `colspan` reads as zero.
pub fn zero_colspan_in(h: &Vec<char>) -> (res: bool)
    ensures
        res == has_zero_colspan(h@),
{
    let len = h.len();
    let mut p: usize = 0;
    while p < len
        invariant
            len == h@.len(),
            p <= len,
            forall|q: int| 0 <= q < p ==> !#[trigger] zero_colspan_at(h@, q),
        decreases len - p,
    {
        if len - p >= 7 && (h[p] == 'c' || h[p] == 'C') && (h[p + 1] == 'o' || h[p + 1] == 'O') && (
        h[p + 2] == 'l' || h[p + 2] == 'L') && (h[p + 3] == 's' || h[p + 3] == 'S') && (h[p + 4]
            == 'p' || h[p + 4] == 'P') && (h[p + 5] == 'a' || h[p + 5] == 'A') && (h[p + 6] == 'n'
            || h[p + 6] == 'N') {
            let (start, end) = value_range(h, p + 7);
            if value_may_read_as_zero(h, start, end) {
                assert(zero_colspan_at(h@, p as int));
                return true;
            }
        }
        p = p + 1;
    }
    false
}

/// Whether `v` is a decimal numeral with a digit other than `0`.
pub open spec fn is_nonzero_numeral(v: Seq<char>) -> bool {
    &&& forall|k: int| 0 <= k < v.len() ==> '0' <= #[trigger] v[k] && v[k] <= '9'
    &&& exists|k: int| 0 <= k < v.len() && '1' <= #[trigger] v[k] && v[k] <= '9'
}

/// A value that is a decimal numeral with a non-zero digit (such as `1`,
/// `2` or `01`) is never taken for zero; a value of zeros, after an optional
/// `+`, always is.
pub proof fn law_only_zero_values_read_as_zero(v: Seq<char>)
    ensures
        is_nonzero_numeral(v) ==> !may_read_as_zero(v),
        v.len() > 0 && (forall|k: int| 0 <= k < v.len() ==> #[trigger] v[k] == '0')
            ==> may_read_as_zero(v),
{
    if is_nonzero_numeral(v) {
        let k = choose|k: int| 0 <= k < v.len() && '1' <= #[trigger] v[k] && v[k] <= '9';
        assert(!all_zeros(v));
        if v.len() >= 2 && v[0] == '+' {
            assert('0' <= v[0] && v[0] <= '9');
        }
        assert forall|m: int| 0 <= m < v.len() implies #[trigger] v[m] != '&' by {
            assert('0' <= v[m] && v[m] <= '9');
        }
    }
}

/// HTML in which every `colspan` value is a decimal numeral with a non-zero
/// digit holds no zero `colspan`, so it is rendered, never refused.
pub proof fn law_nonzero_colspans_are_rendered(h: Seq<char>)
    requires
        forall|p: int|
            #[trigger] colspan_name_at(h, p) ==> is_nonzero_numeral(
                h.subrange(attr_value_range(h, p + 7).0, attr_value_range(h, p + 7).1),
            ),
    ensures
        !has_zero_colspan(h),
{
    assert forall|p: int| 0 <= p < h.len() implies !#[trigger] zero_colspan_at(h, p) by {
        if colspan_name_at(h, p) {
            law_only_zero_values_read_as_zero(
                h.subrange(attr_value_range(h, p + 7).0, attr_value_range(h, p + 7).1),
            );
        }
    }
}

} // verus!
