//! Decoding of string slices into indexable sequences of scalar values.

use vstd::prelude::*;

verus! {

/// Collects the scalar values of `s`, in order, into a vector that can be
/// indexed in constant time.
pub fn to_chars(s: &str) -> (v: Vec<char>)
    ensures
        v@ == s@,
{
    let mut v: Vec<char> = Vec::new();
    for c in it: s.chars()
        invariant
            v@ == it.seq().take(it.index()),
    {
        v.push(c);
    }
    v
}

} // verus!
