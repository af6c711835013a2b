//! The skip table: for every proper prefix of a pattern, how far an alignment
//! may move once that prefix is known to agree with the text.

use vstd::prelude::*;
use vstd::slice::slice_subrange;
use crate::chars::to_chars;

verus! {

/// Sliding `a` forward by `gap` positions over `b` leaves the two in
/// agreement wherever they still overlap: `a[gap..]` equals the prefix of `b`
/// of the same length.
pub open spec fn overlaps(a: Seq<char>, b: Seq<char>, gap: int) -> bool {
    &&& 0 <= gap <= a.len()
    &&& a.len() - gap <= b.len()
    &&& forall|i: int| 0 <= i < a.len() - gap ==> a[gap + i] == #[trigger] b[i]
}

/// `s` is the skip for `a` against `b`: the least gap of at least one under
/// which `a` still overlaps `b`, which is the whole length of `a` when no
/// shorter gap does, and one for the empty `a`.
pub open spec fn is_skip(a: Seq<char>, b: Seq<char>, s: int) -> bool {
    if a.len() == 0 {
        s == 1
    } else {
        &&& 1 <= s <= a.len()
        &&& overlaps(a, b, s)
        &&& forall|g: int| 1 <= g < s ==> !overlaps(a, b, g)
    }
}

/// `table` is the skip table of `pattern`: one entry for each prefix length
/// below the pattern's own, holding the skip of that prefix against the whole
/// pattern.
pub open spec fn is_skip_table(pattern: Seq<char>, table: Seq<usize>) -> bool {
    &&& table.len() == pattern.len()
    &&& forall|i: int|
        0 <= i < table.len() ==> is_skip(pattern.take(i), pattern, #[trigger] table[i] as int)
}

/// A prefix has one skip and no other.
pub proof fn lemma_skip_unique(a: Seq<char>, b: Seq<char>, s: int, t: int)
    requires
        is_skip(a, b, s),
        is_skip(a, b, t),
    ensures
        s == t,
{
}

/// Every entry of a skip table is at least one, the entry for the empty
/// prefix is one, and no later entry exceeds the length of its prefix.
pub proof fn lemma_skip_table_bounds(pattern: Seq<char>, table: Seq<usize>)
    requires
        is_skip_table(pattern, table),
    ensures
        forall|i: int| 0 <= i < table.len() ==> 1 <= #[trigger] table[i],
        forall|i: int| 1 <= i < table.len() ==> #[trigger] table[i] <= i,
        table.len() > 0 ==> table[0] == 1,
{
    assert forall|i: int| 0 <= i < table.len() implies 1 <= #[trigger] table[i] && (i >= 1
        ==> table[i] <= i) && (i == 0 ==> table[i] == 1) by {
        assert(is_skip(pattern.take(i), pattern, table[i] as int));
    }
}

/// Tells whether `txt0`, moved forward by `gap`, agrees with `txt1` on the
/// positions where the two overlap.
pub fn dup(txt0: &[char], txt1: &[char], gap: usize) -> (r: bool)
    requires
        gap <= txt0@.len(),
        txt0@.len() - gap <= txt1@.len(),
    ensures
        r == overlaps(txt0@, txt1@, gap as int),
{
    let diflen: usize = txt0.len() - gap;
    let mut i: usize = 0;
    while i < diflen
        invariant
            gap <= txt0@.len() <= usize::MAX,
            diflen == txt0@.len() - gap,
            diflen <= txt1@.len(),
            i <= diflen,
            forall|k: int| 0 <= k < i ==> txt0@[gap + k] == #[trigger] txt1@[k],
        decreases diflen - i,
    {
        if txt0[gap + i] != txt1[i] {
            return false;
        }
        i += 1;
    }
    true
}

/// The skip for `txt0` against `txt1`: how far `txt0` must at least move
/// before it can agree with the start of `txt1` again.
pub fn capable_gap(txt0: &[char], txt1: &[char]) -> (r: usize)
    requires
        txt0@.len() <= txt1@.len() + 1,
    ensures
        is_skip(txt0@, txt1@, r as int),
{
    let txt0_len: usize = txt0.len();
    if txt0_len == 0 {
        return 1;
    }
    let mut i: usize = 1;
    while i < txt0_len
        invariant
            txt0_len == txt0@.len(),
            txt0_len <= txt1@.len() + 1,
            1 <= i <= txt0_len,
            forall|g: int| 1 <= g < i ==> !overlaps(txt0@, txt1@, g),
        decreases txt0_len - i,
    {
        if dup(txt0, txt1, i) {
            return i;
        }
        i += 1;
    }
    txt0_len
}

/// Builds the skip table of `txt`.
///
/// Entry `i` is the skip of the first `i` scalar values of `txt` against all
/// of `txt`. Every entry is at least one, the first is one, and entry `i`
/// for `i > 0` is at most `i`.
pub fn skipmap(txt: &str) -> (table: Vec<usize>)
    ensures
        is_skip_table(txt@, table@),
        forall|i: int| 0 <= i < table@.len() ==> 1 <= #[trigger] table@[i],
        forall|i: int| 1 <= i < table@.len() ==> #[trigger] table@[i] <= i,
        table@.len() > 0 ==> table@[0] == 1,
{
    let txt_vec: Vec<char> = to_chars(txt);
    let mut arr: Vec<usize> = Vec::new();
    let mut i: usize = 0;
    while i < txt_vec.len()
        invariant
            txt_vec@ == txt@,
            i <= txt_vec@.len(),
            arr@.len() == i,
            forall|k: int|
                0 <= k < i ==> is_skip(txt@.take(k), txt@, #[trigger] arr@[k] as int),
        decreases txt_vec@.len() - i,
    {
        let prefix: &[char] = slice_subrange(txt_vec.as_slice(), 0, i);
        assert(prefix@ == txt@.take(i as int));
        arr.push(capable_gap(prefix, txt_vec.as_slice()));
        i += 1;
    }
    arr
}

} // verus!
