//! Moving between strings and sequences of characters.

use vstd::prelude::*;
use vstd::string::*;

verus! {

/// The characters of a string, in order.
pub(crate) fn chars_of(s: &str) -> (chars: Vec<char>)
    ensures
        chars@ == s@,
{
    let mut chars: Vec<char> = Vec::new();
    for c in it: s.chars()
        invariant
            chars@ == it.seq().take(it.index() as int),
            it.seq() == s@,
    {
        chars.push(c);
    }
    chars
}

/// The index of the first `c` at or behind `from`, or the length where there is none.
pub(crate) fn index_of(s: &[char], c: char, from: usize) -> (at: usize)
    requires
        from <= s@.len(),
    ensures
        from <= at <= s@.len(),
        at < s@.len() ==> s@[at as int] == c,
        forall|p: int| from <= p < at ==> s@[p] != c,
{
    let mut at: usize = from;
    while at < s.len() && s[at] != c
        invariant
            from <= at <= s@.len(),
            forall|p: int| from <= p < at ==> s@[p] != c,
        decreases s@.len() - at,
    {
        at = at + 1;
    }
    at
}

} // verus!
