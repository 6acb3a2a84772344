use vstd::prelude::*;

verus! {

/// The characters of `text`, in order.
pub fn chars_of(text: &str) -> (res: Vec<char>)
    ensures
        res@ == text@,
{
    let mut res: Vec<char> = Vec::new();
    for c in it: text.chars()
        invariant
            res@ == it.history(),
    {
        res.push(c);
    }
    res
}

/// The string made of the characters of `chars`, in order.
///
/// Trusted: calls std's `FromIterator<char>` for `String` (`Iterator::collect`),
/// whose result holds the characters it was given, in the order given.
#[verifier::external_body]
pub(crate) fn string_from_chars(chars: &Vec<char>) -> (res: String)
    ensures
        res@ == chars@,
{
    chars.iter().collect()
}

} // verus!
