//! URL extraction: the URL links `linkify` finds in a text, kept when `url`
//! accepts them, each URL once.
use std::str::FromStr;

use linkify::{LinkFinder, LinkKind};
use url::Url;
use vstd::prelude::*;

verus! {

/// `url`'s parsed URL, carried through unchanged.
#[verifier::external_type_specification]
#[verifier::external_body]
pub struct ExUrl(Url);

/// `url`'s parse error, carried through unchanged.
#[verifier::external_type_specification]
#[verifier::external_body]
pub struct ExUrlParseError(url::ParseError);

/// The texts of the URL links that `linkify` finds in `text`, in order.
pub uninterp spec fn url_link_texts(text: Seq<char>) -> Seq<Seq<char>>;

/// Whether `url` parses `text` as an absolute URL.
pub uninterp spec fn url_parses(text: Seq<char>) -> bool;

/// The `Url` that `url` parses `text` into, where it parses.
pub uninterp spec fn parsed_url(text: Seq<char>) -> Url;

/// The serialization (`Url::as_str`) of the URL that `url` parses `text`
/// into, where it parses. Two `Url`s are equal exactly when their
/// serializations are.
pub uninterp spec fn url_serialization(text: Seq<char>) -> Seq<char>;

pub open spec fn strings_view(v: Seq<String>) -> Seq<Seq<char>> {
    v.map_values(|s: String| s@)
}

/// Trusted: a `linkify::LinkFinder` restricted with `kinds(&[LinkKind::Url])`
/// and run with `links(text)`; each link's `as_str()` is copied into a
/// `String`. The contract only names the result: it is a function of `text`.
#[verifier::external_body]
fn find_url_links(text: &str) -> (res: Vec<String>)
    ensures
        strings_view(res@) == url_link_texts(text@),
{
    LinkFinder::new()
        .kinds(&[LinkKind::Url])
        .links(text)
        .map(|link| link.as_str().to_string())
        .collect()
}

/// Trusted: `<Url as FromStr>::from_str` (that is, `Url::parse`), with the
/// parsed URL's `as_str()` copied into a `String`. The contract states that
/// it succeeds exactly when `url_parses` holds of the text, and names the
/// parsed `Url` and its serialization, which depend on the text alone.
#[verifier::external_body]
fn parse_url(text: &str) -> (res: Result<(Url, String), url::ParseError>)
    ensures
        res is Ok <==> url_parses(text@),
        res matches Ok(p) ==> p.0 == parsed_url(text@) && p.1@ == url_serialization(text@),
{
    match Url::from_str(text) {
        Ok(u) => {
            let s = u.as_str().to_string();
            Ok((u, s))
        },
        Err(e) => Err(e),
    }
}

/// The items of `s` without repeats, each where it first occurs.
pub open spec fn first_occurrences(s: Seq<Seq<char>>) -> Seq<Seq<char>>
    decreases s.len(),
{
    if s.len() == 0 {
        Seq::empty()
    } else {
        let p = s.drop_last();
        if p.contains(s.last()) {
            first_occurrences(p)
        } else {
            first_occurrences(p).push(s.last())
        }
    }
}

/// The items of `s` that `url` parses, in order.
pub open spec fn parsing_urls(s: Seq<Seq<char>>) -> Seq<Seq<char>>
    decreases s.len(),
{
    if s.len() == 0 {
        Seq::empty()
    } else if url_parses(s.last()) {
        parsing_urls(s.drop_last()).push(s.last())
    } else {
        parsing_urls(s.drop_last())
    }
}

/// The serializations of the URLs parsed from the texts `s`.
pub open spec fn serializations(s: Seq<Seq<char>>) -> Seq<Seq<char>> {
    s.map_values(|t: Seq<char>| url_serialization(t))
}

/// The items of `s` whose URL comes first in `s`: an item is left out when an
/// earlier one parses to the same URL.
pub open spec fn first_urls(s: Seq<Seq<char>>) -> Seq<Seq<char>>
    decreases s.len(),
{
    if s.len() == 0 {
        Seq::empty()
    } else {
        let p = s.drop_last();
        if serializations(p).contains(url_serialization(s.last())) {
            first_urls(p)
        } else {
            first_urls(p).push(s.last())
        }
    }
}

/// The texts of the URLs that `extract_urls` returns, in order: each link
/// text taken once, those that parse, each URL once.
pub open spec fn extracted_url_texts(text: Seq<char>) -> Seq<Seq<char>> {
    first_urls(parsing_urls(first_occurrences(url_link_texts(text))))
}

/// The URLs that `extract_urls` returns for `text`, in order.
pub open spec fn extracted_urls(text: Seq<char>) -> Seq<Url> {
    extracted_url_texts(text).map_values(|t: Seq<char>| parsed_url(t))
}

proof fn lemma_first_occurrences_contains(s: Seq<Seq<char>>)
    ensures
        forall|x: Seq<char>| #[trigger] first_occurrences(s).contains(x) <==> s.contains(x),
    decreases s.len(),
{
    if s.len() > 0 {
        let p = s.drop_last();
        lemma_first_occurrences_contains(p);
        assert forall|x: Seq<char>| #[trigger] first_occurrences(s).contains(x) <==> s.contains(
            x,
        ) by {
            if s.contains(x) {
                let k = choose|k: int| 0 <= k < s.len() && s[k] == x;
                if k < s.len() - 1 {
                    assert(p[k] == x);
                } else if !p.contains(s.last()) {
                    assert(first_occurrences(s).last() == x);
                }
            }
            if first_occurrences(s).contains(x) && !first_occurrences(p).contains(x) {
                assert(x == s.last());
                assert(s[s.len() - 1] == x);
            }
            if first_occurrences(p).contains(x) {
                let k = choose|k: int| 0 <= k < p.len() && p[k] == x;
                assert(s[k] == x);
                if !p.contains(s.last()) {
                    let m = choose|m: int|
                        0 <= m < first_occurrences(p).len() && first_occurrences(p)[m] == x;
                    assert(first_occurrences(s)[m] == x);
                }
            }
        }
    }
}

/// Extracting links drops repeats and nothing else: the links returned are
/// pairwise distinct and are exactly the links found.
pub proof fn law_links_are_deduplicated(s: Seq<Seq<char>>)
    ensures
        forall|i: int, j: int|
            0 <= i < j < first_occurrences(s).len() ==> #[trigger] first_occurrences(s)[i]
                != #[trigger] first_occurrences(s)[j],
        forall|x: Seq<char>| #[trigger] first_occurrences(s).contains(x) <==> s.contains(x),
    decreases s.len(),
{
    lemma_first_occurrences_contains(s);
    if s.len() > 0 {
        let p = s.drop_last();
        law_links_are_deduplicated(p);
        let d = first_occurrences(p);
        if !p.contains(s.last()) {
            assert forall|i: int, j: int|
                0 <= i < j < first_occurrences(s).len() implies #[trigger] first_occurrences(s)[i]
                != #[trigger] first_occurrences(s)[j] by {
                if j == d.len() {
                    assert(first_occurrences(s)[i] == d[i]);
                    assert(d.contains(d[i]));
                } else {
                    assert(first_occurrences(s)[i] == d[i]);
                    assert(first_occurrences(s)[j] == d[j]);
                }
            }
        }
    }
}

pub open spec fn pairwise_distinct(s: Seq<Seq<char>>) -> bool {
    forall|i: int, j: int| 0 <= i < j < s.len() ==> #[trigger] s[i] != #[trigger] s[j]
}

proof fn lemma_parsing_urls_facts(s: Seq<Seq<char>>)
    ensures
        forall|x: Seq<char>| #[trigger] parsing_urls(s).contains(x) ==> s.contains(x) && url_parses(x),
        pairwise_distinct(s) ==> pairwise_distinct(parsing_urls(s)),
    decreases s.len(),
{
    if s.len() > 0 {
        let p = s.drop_last();
        lemma_parsing_urls_facts(p);
        let q = parsing_urls(p);
        assert forall|x: Seq<char>| #[trigger] parsing_urls(s).contains(x) implies s.contains(x)
            && url_parses(x) by {
            let k = choose|k: int| 0 <= k < parsing_urls(s).len() && parsing_urls(s)[k] == x;
            if k < q.len() {
                assert(parsing_urls(s)[k] == q[k]);
                assert(q.contains(x));
                let m = choose|m: int| 0 <= m < p.len() && p[m] == x;
                assert(s[m] == x);
            } else {
                assert(s[s.len() - 1] == x);
            }
        }
        if pairwise_distinct(s) {
            assert(pairwise_distinct(p)) by {
                assert forall|i: int, j: int| 0 <= i < j < p.len() implies #[trigger] p[i]
                    != #[trigger] p[j] by {
                    assert(p[i] == s[i] && p[j] == s[j]);
                }
            }
            if url_parses(s.last()) {
                assert forall|i: int, j: int| 0 <= i < j < parsing_urls(s).len() implies
                    #[trigger] parsing_urls(s)[i] != #[trigger] parsing_urls(s)[j] by {
                    assert(parsing_urls(s)[i] == q[i]);
                    if j < q.len() {
                        assert(parsing_urls(s)[j] == q[j]);
                    } else {
                        assert(q.contains(q[i]));
                        if p.contains(s.last()) {
                            let m = choose|m: int| 0 <= m < p.len() && p[m] == s.last();
                            assert(s[m] == s[s.len() - 1]);
                        }
                    }
                }
            }
        }
    }
}

proof fn lemma_parsing_urls_keeps(s: Seq<Seq<char>>, x: Seq<char>)
    requires
        s.contains(x),
        url_parses(x),
    ensures
        parsing_urls(s).contains(x),
    decreases s.len(),
{
    let p = s.drop_last();
    if s.last() == x {
        assert(parsing_urls(s).last() == x);
        assert(parsing_urls(s)[parsing_urls(s).len() - 1] == x);
    } else {
        let k = choose|k: int| 0 <= k < s.len() && s[k] == x;
        assert(p[k] == x);
        lemma_parsing_urls_keeps(p, x);
        let m = choose|m: int| 0 <= m < parsing_urls(p).len() && parsing_urls(p)[m] == x;
        assert(parsing_urls(s)[m] == x);
    }
}

proof fn lemma_first_urls_facts(s: Seq<Seq<char>>)
    ensures
        forall|y: Seq<char>| #[trigger] serializations(first_urls(s)).contains(y) <==> serializations(
            s,
        ).contains(y),
        forall|x: Seq<char>| #[trigger] first_urls(s).contains(x) ==> s.contains(x),
        pairwise_distinct(serializations(first_urls(s))),
    decreases s.len(),
{
    if s.len() > 0 {
        let p = s.drop_last();
        let x = s.last();
        lemma_first_urls_facts(p);
        let f = first_urls(p);
        assert(serializations(s) == serializations(p).push(url_serialization(x)));
        if serializations(p).contains(url_serialization(x)) {
            assert forall|y: Seq<char>| #[trigger] serializations(first_urls(s)).contains(y)
                <==> serializations(s).contains(y) by {
                if serializations(s).contains(y) && !serializations(p).contains(y) {
                    let k = choose|k: int| 0 <= k < serializations(s).len() && serializations(s)[k]
                        == y;
                    if k < p.len() {
                        assert(serializations(p)[k] == y);
                    }
                }
                if serializations(p).contains(y) {
                    let k = choose|k: int| 0 <= k < serializations(p).len() && serializations(p)[k]
                        == y;
                    assert(serializations(s)[k] == y);
                }
            }
            assert forall|z: Seq<char>| #[trigger] first_urls(s).contains(z) implies s.contains(z) by {
                assert(f.contains(z));
                assert(p.contains(z));
                let k = choose|k: int| 0 <= k < p.len() && p[k] == z;
                assert(s[k] == z);
            }
        } else {
            assert(serializations(first_urls(s)) == serializations(f).push(url_serialization(x)));
            assert forall|y: Seq<char>| #[trigger] serializations(first_urls(s)).contains(y)
                <==> serializations(s).contains(y) by {
                let fs = serializations(f);
                let ps = serializations(p);
                if serializations(s).contains(y) {
                    let k = choose|k: int| 0 <= k < serializations(s).len() && serializations(s)[k]
                        == y;
                    if k < p.len() {
                        assert(ps[k] == y);
                        assert(ps.contains(y));
                        assert(fs.contains(y));
                        let m = choose|m: int| 0 <= m < fs.len() && fs[m] == y;
                        assert(serializations(first_urls(s))[m] == y);
                    } else {
                        assert(serializations(first_urls(s))[fs.len() as int] == y);
                    }
                }
                if serializations(first_urls(s)).contains(y) {
                    let k = choose|k: int|
                        0 <= k < serializations(first_urls(s)).len() && serializations(
                            first_urls(s),
                        )[k] == y;
                    if k < fs.len() {
                        assert(fs[k] == y);
                        assert(fs.contains(y));
                        assert(ps.contains(y));
                        let m = choose|m: int| 0 <= m < ps.len() && ps[m] == y;
                        assert(serializations(s)[m] == y);
                    } else {
                        assert(serializations(s)[p.len() as int] == y);
                    }
                }
            }
            assert forall|z: Seq<char>| #[trigger] first_urls(s).contains(z) implies s.contains(z) by {
                let k = choose|k: int| 0 <= k < first_urls(s).len() && first_urls(s)[k] == z;
                if k < f.len() {
                    assert(f[k] == z);
                    assert(f.contains(z));
                    assert(p.contains(z));
                    let m = choose|m: int| 0 <= m < p.len() && p[m] == z;
                    assert(s[m] == z);
                } else {
                    assert(s[s.len() - 1] == z);
                }
            }
            let fs = serializations(f);
            assert forall|i: int, j: int|
                0 <= i < j < serializations(first_urls(s)).len() implies #[trigger] serializations(
                first_urls(s),
            )[i] != #[trigger] serializations(first_urls(s))[j] by {
                assert(serializations(first_urls(s))[i] == fs[i]);
                if j < fs.len() {
                    assert(serializations(first_urls(s))[j] == fs[j]);
                } else {
                    assert(fs.contains(fs[i]));
                }
            }
        }
    }
}

/// The URLs that `extract_urls` returns are pairwise distinct (by their
/// serialization, which is how `Url`s compare), each parsed from a link that
/// `linkify` found; no URL of a found link is missing; and the URL at each
/// place is the one parsed from the link text at that place.
pub proof fn law_extracted_urls_are_distinct(text: Seq<char>)
    ensures
        pairwise_distinct(serializations(extracted_url_texts(text))),
        forall|x: Seq<char>| #[trigger] extracted_url_texts(text).contains(x) ==> url_link_texts(
            text,
        ).contains(x) && url_parses(x),
        forall|x: Seq<char>|
            url_link_texts(text).contains(x) && url_parses(x) ==> #[trigger] serializations(
                extracted_url_texts(text),
            ).contains(url_serialization(x)),
        extracted_urls(text).len() == extracted_url_texts(text).len(),
        forall|i: int|
            0 <= i < extracted_urls(text).len() ==> #[trigger] extracted_urls(text)[i]
                == parsed_url(extracted_url_texts(text)[i]),
{
    let found = url_link_texts(text);
    let d = first_occurrences(found);
    let p = parsing_urls(d);
    lemma_first_occurrences_contains(found);
    lemma_parsing_urls_facts(d);
    lemma_first_urls_facts(p);
    assert forall|x: Seq<char>| url_link_texts(text).contains(x) && url_parses(x) implies #[trigger] serializations(
        extracted_url_texts(text),
    ).contains(url_serialization(x)) by {
        lemma_parsing_urls_keeps(d, x);
        let k = choose|k: int| 0 <= k < p.len() && p[k] == x;
        assert(serializations(p)[k] == url_serialization(x));
    }
}

fn contains_string(v: &Vec<String>, x: &String) -> (res: bool)
    ensures
        res == strings_view(v@).contains(x@),
{
    let mut j: usize = 0;
    while j < v.len()
        invariant
            j <= v@.len(),
            forall|k: int| 0 <= k < j ==> #[trigger] v@[k]@ != x@,
        decreases v@.len() - j,
    {
        if v[j] == *x {
            assert(strings_view(v@)[j as int] == x@);
            return true;
        }
        j = j + 1;
    }
    assert forall|k: int| 0 <= k < strings_view(v@).len() implies #[trigger] strings_view(
        v@,
    )[k] != x@ by {
        assert(strings_view(v@)[k] == v@[k]@);
    }
    false
}

/// Extract the URLs of `input`: each link text taken once, those that parse
/// as URLs, and each URL once, in the order their links are found.
pub fn extract_urls(input: &str) -> (res: Vec<Url>)
    ensures
        res@ == extracted_urls(input@),
{
    let links = find_url_links(input);
    let ghost found = strings_view(links@);
    // The texts and serializations seen so far are kept in `Vec`s: Verus
    // proves nothing of the contents of a `HashSet<String>`.
    let mut unique: Vec<String> = Vec::new();
    let mut seen: Vec<String> = Vec::new();
    let mut urls: Vec<Url> = Vec::new();
    let mut i: usize = 0;
    while i < links.len()
        invariant
            i <= links@.len(),
            found == strings_view(links@),
            strings_view(unique@) == first_occurrences(found.take(i as int)),
            strings_view(seen@) == serializations(
                first_urls(parsing_urls(first_occurrences(found.take(i as int)))),
            ),
            urls@ == first_urls(parsing_urls(first_occurrences(found.take(i as int)))).map_values(
                |t: Seq<char>| parsed_url(t),
            ),
        decreases links@.len() - i,
    {
        let ghost prefix = found.take(i as int);
        let ghost next = found.take(i + 1);
        proof {
            assert(next.drop_last() == prefix);
            assert(next.last() == links@[i as int]@);
            lemma_first_occurrences_contains(prefix);
        }
        // Deduplicate on the cheap string representation first, and parse
        // only the first occurrence of each link.
        if !contains_string(&unique, &links[i]) {
            let text = links[i].clone();
            let ghost link = text@;
            let ghost d = first_occurrences(prefix);
            let ghost before = parsing_urls(d);
            proof {
                assert(strings_view(unique@.push(text)) == strings_view(unique@).push(link));
                assert(first_occurrences(next) == d.push(link));
                assert(d.push(link).drop_last() == d);
                assert(d.push(link).last() == link);
                lemma_first_urls_facts(before);
            }
            unique.push(text);
            match parse_url(links[i].as_str()) {
                Ok((url, serialization)) => {
                    let ghost after = before.push(link);
                    proof {
                        assert(parsing_urls(first_occurrences(next)) == after);
                        assert(after.drop_last() == before);
                        assert(after.last() == link);
                    }
                    // Keep the URL only where no earlier link parsed to it.
                    if !contains_string(&seen, &serialization) {
                        proof {
                            assert(first_urls(after) == first_urls(before).push(link));
                            assert(strings_view(seen@.push(serialization)) =~= strings_view(
                                seen@,
                            ).push(serialization@));
                            assert(serializations(first_urls(before).push(link)) =~= serializations(
                                first_urls(before),
                            ).push(url_serialization(link)));
                            assert(strings_view(seen@.push(serialization)) =~= serializations(
                                first_urls(after),
                            ));
                            assert(urls@.push(url) =~= first_urls(after).map_values(
                                |t: Seq<char>| parsed_url(t),
                            ));
                        }
                        seen.push(serialization);
                        urls.push(url);
                    } else {
                        assert(first_urls(after) == first_urls(before));
                    }
                },
                Err(_) => {
                    assert(parsing_urls(first_occurrences(next)) == before);
                },
            }
        }
        i = i + 1;
    }
    proof {
        assert(found.take(links@.len() as int) == found);
    }
    urls
}

} // verus!
