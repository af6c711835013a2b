//! The scanner: one sweep over the text, left to right.
//!
//! The scanner keeps a cursor, the index in the text at which the pattern is
//! currently laid, and a carry, the number of leading pattern positions that
//! are already known to agree with the text at the cursor. Each comparison
//! starts behind the carry. When it stops after `j` agreeing positions, the
//! skip table's entry for `j` is the distance to the next index at which the
//! pattern can occur at all, and `j` minus that entry is the new carry: what
//! the text showed on the last attempt is not read again.

use vstd::prelude::*;
use crate::chars::to_chars;
use crate::occurrence::{
    agrees, disjoint_occurrences_from, first_occurrence_from, index_of, indices, keeps_apart,
    lemma_disjoint_occurrences, lemma_empty_pattern, lemma_first_occurrence, lemma_occurrences,
    lemma_pass_over, occurrences_from, occurs_at, stride,
};
use crate::skip::{is_skip, is_skip_table, overlaps, skipmap};

verus! {

/// Moving an alignment by a skip is safe and keeps what was learnt.
///
/// When the first `k` pattern positions agree with the text at `c`, the
/// pattern occurs at none of the indices that the skip for `k` passes over,
/// and at the new alignment the first `k` minus skip positions agree again.
pub proof fn lemma_skip_is_safe(
    text: Seq<char>,
    pattern: Seq<char>,
    table: Seq<usize>,
    c: int,
    k: int,
)
    requires
        is_skip_table(pattern, table),
        0 <= c,
        c + pattern.len() <= text.len(),
        0 <= k < pattern.len(),
        agrees(text, pattern, c, k),
    ensures
        1 <= table[k],
        k == 0 ==> table[k] == 1,
        k >= 1 ==> table[k] <= k && agrees(text, pattern, c + table[k], k - table[k]),
        forall|j: int| c < j < c + table[k] ==> !occurs_at(text, pattern, j),
{
    let s = table[k] as int;
    let prefix = pattern.take(k);
    assert(is_skip(prefix, pattern, s));
    if k >= 1 {
        assert forall|i: int| 0 <= i < k - s implies text[c + s + i] == #[trigger] pattern[i] by {
            assert(prefix[s + i] == pattern[i]);
            assert(text[c + (s + i)] == pattern[s + i]);
        }
        assert forall|j: int| c < j < c + s implies !occurs_at(text, pattern, j) by {
            let g = j - c;
            if occurs_at(text, pattern, j) {
                assert forall|i: int| 0 <= i < k - g implies prefix[g + i] == #[trigger] pattern[i] by {
                    assert(text[c + (g + i)] == pattern[g + i]);
                    assert(text[(c + g) + i] == pattern[i]);
                }
                assert(overlaps(prefix, pattern, g));
            }
        }
    }
}

/// Compares `pattern` with `text` at the alignment `cursor`, from position
/// `carry` on, and returns the first position at which the two differ, or
/// the pattern's length when they do not.
fn agreement(text: &Vec<char>, pattern: &Vec<char>, cursor: usize, carry: usize) -> (j: usize)
    requires
        cursor + pattern@.len() <= text@.len(),
        carry <= pattern@.len(),
        agrees(text@, pattern@, cursor as int, carry as int),
    ensures
        carry <= j <= pattern@.len(),
        agrees(text@, pattern@, cursor as int, j as int),
        j < pattern@.len() ==> text@[cursor + j] != pattern@[j as int],
{
    let n: usize = text.len();
    let m: usize = pattern.len();
    let mut j: usize = carry;
    while j < m
        invariant
            m == pattern@.len(),
            n == text@.len(),
            cursor + m <= n,
            carry <= j <= m,
            agrees(text@, pattern@, cursor as int, j as int),
        decreases m - j,
    {
        if text[cursor + j] != pattern[j] {
            return j;
        }
        j += 1;
    }
    j
}

/// Returns the index of the first occurrence of `pattern` in `text`, counted
/// in scalar values, or `None` when the pattern does not occur.
///
/// The empty pattern occurs at index 0 of every text. A pattern longer than
/// the text occurs nowhere.
pub fn kmpm_str(text: &str, pattern: &str) -> (r: Option<usize>)
    ensures
        index_of(r) == first_occurrence_from(text@, pattern@, 0),
        r matches Some(k) ==> occurs_at(text@, pattern@, k as int) && forall|j: int|
            0 <= j < k ==> !occurs_at(text@, pattern@, j),
        r is None <==> forall|j: int| !occurs_at(text@, pattern@, j),
        pattern@.len() > text@.len() ==> r is None,
        pattern@.len() == 0 ==> r == Some(0usize),
{
    let txt: Vec<char> = to_chars(text);
    let pat: Vec<char> = to_chars(pattern);
    let sm_list: Vec<usize> = skipmap(pattern);
    let n: usize = txt.len();
    let m: usize = pat.len();
    if m > n {
        proof {
            lemma_first_occurrence(text@, pattern@, 0);
        }
        return None;
    }
    let endpoint: usize = n - m;
    let mut cursor: usize = 0;
    let mut carry: usize = 0;
    while cursor <= endpoint
        invariant
            txt@ == text@,
            pat@ == pattern@,
            is_skip_table(pat@, sm_list@),
            n == txt@.len(),
            m == pat@.len(),
            endpoint + m == n,
            cursor <= n,
            carry <= m,
            agrees(txt@, pat@, cursor as int, carry as int),
            forall|j: int| 0 <= j < cursor ==> !occurs_at(txt@, pat@, j),
        decreases txt@.len() - cursor,
    {
        let j: usize = agreement(&txt, &pat, cursor, carry);
        if j == m {
            proof {
                assert(occurs_at(txt@, pat@, cursor as int));
                lemma_first_occurrence(txt@, pat@, 0);
            }
            return Some(cursor);
        }
        // The text differs from the pattern at position `j`.
        proof {
            lemma_skip_is_safe(txt@, pat@, sm_list@, cursor as int, j as int);
        }
        let skipstep: usize = sm_list[j];
        carry = if j == 0 { 0 } else { j - skipstep };
        cursor += skipstep;
    }
    proof {
        lemma_first_occurrence(txt@, pat@, 0);
    }
    None
}

/// The indices from `first` to `last`, both included, in rising order.
fn every_index(first: usize, last: usize) -> (r: Vec<usize>)
    requires
        first <= last,
    ensures
        indices(r@) == Seq::new((last - first + 1) as nat, |i: int| first + i),
{
    let mut r: Vec<usize> = Vec::new();
    let mut k: usize = first;
    while k < last
        invariant
            first <= k <= last,
            r@.len() == k - first,
            forall|i: int| 0 <= i < r@.len() ==> r@[i] == first + i,
        decreases last - k,
    {
        r.push(k);
        k += 1;
    }
    r.push(last);
    assert(indices(r@) =~= Seq::new((last - first + 1) as nat, |i: int| first + i));
    r
}

/// A list of indices that equals the list of all occurrences holds
/// occurrences only, in strictly rising order, and misses none.
proof fn lemma_all_listed(text: Seq<char>, pattern: Seq<char>, r: Seq<usize>)
    requires
        indices(r) == occurrences_from(text, pattern, 0),
    ensures
        forall|i: int| 0 <= i < r.len() ==> occurs_at(text, pattern, #[trigger] r[i] as int),
        forall|i: int, j: int| 0 <= i < j < r.len() ==> r[i] < r[j],
        forall|k: int| occurs_at(text, pattern, k) ==> exists|i: int| 0 <= i < r.len() && r[i] == k,
        r.len() > 0 ==> occurs_at(text, pattern, r[0] as int),
{
    let all = occurrences_from(text, pattern, 0);
    lemma_occurrences(text, pattern, 0);
    assert(r.len() == all.len());
    assert forall|i: int| 0 <= i < r.len() implies #[trigger] r[i] as int == all[i] by {
        assert(indices(r)[i] == r[i] as int);
    }
    assert forall|k: int| occurs_at(text, pattern, k) implies exists|i: int|
        0 <= i < r.len() && r[i] == k by {
        assert(all.contains(k));
        let i = choose|i: int| 0 <= i < all.len() && all[i] == k;
        assert(r[i] == k);
    }
}

/// Returns the index of every occurrence of `pattern` in `text`, counted in
/// scalar values, in rising order. Occurrences may share positions.
///
/// The empty pattern occurs at every index from 0 to the length of the text,
/// that length included. A pattern longer than the text occurs nowhere.
pub fn kmpm_str_all(text: &str, pattern: &str) -> (rarr: Vec<usize>)
    ensures
        indices(rarr@) == occurrences_from(text@, pattern@, 0),
        forall|i: int|
            0 <= i < rarr@.len() ==> occurs_at(text@, pattern@, #[trigger] rarr@[i] as int),
        forall|i: int|
            0 <= i < rarr@.len() ==> #[trigger] rarr@[i] + pattern@.len() <= text@.len(),
        forall|i: int, j: int| 0 <= i < j < rarr@.len() ==> rarr@[i] < rarr@[j],
        forall|k: int|
            occurs_at(text@, pattern@, k) ==> exists|i: int| 0 <= i < rarr@.len() && rarr@[i] == k,
        (forall|k: int| !occurs_at(text@, pattern@, k)) ==> rarr@.len() == 0,
        pattern@.len() > text@.len() ==> rarr@.len() == 0,
        pattern@.len() == 0 ==> indices(rarr@) == Seq::new(
            (text@.len() + 1) as nat,
            |i: int| i,
        ),
{
    let txt: Vec<char> = to_chars(text);
    let pat: Vec<char> = to_chars(pattern);
    let n: usize = txt.len();
    let m: usize = pat.len();
    if m > n {
        let none: Vec<usize> = Vec::new();
        proof {
            assert(indices(none@) =~= occurrences_from(text@, pattern@, 0));
            lemma_all_listed(text@, pattern@, none@);
        }
        return none;
    }
    if m == 0 {
        let all: Vec<usize> = every_index(0, n);
        proof {
            lemma_empty_pattern(text@, pattern@, 0);
            assert(Seq::new((n - 0 + 1) as nat, |i: int| 0 + i) =~= Seq::new(
                (n + 1) as nat,
                |i: int| i,
            ));
            lemma_all_listed(text@, pattern@, all@);
        }
        return all;
    }
    let sm_list: Vec<usize> = skipmap(pattern);
    let endpoint: usize = n - m;
    let mut rarr: Vec<usize> = Vec::new();
    let mut cursor: usize = 0;
    let mut carry: usize = 0;
    assert(indices(rarr@) + occurrences_from(txt@, pat@, 0) =~= occurrences_from(txt@, pat@, 0));
    while cursor <= endpoint
        invariant
            txt@ == text@,
            pat@ == pattern@,
            is_skip_table(pat@, sm_list@),
            n == txt@.len(),
            m == pat@.len(),
            1 <= m,
            endpoint + m == n,
            cursor <= n,
            carry <= m,
            agrees(txt@, pat@, cursor as int, carry as int),
            indices(rarr@) + occurrences_from(txt@, pat@, cursor as int) == occurrences_from(
                txt@,
                pat@,
                0,
            ),
        decreases n - cursor,
    {
        let ghost found = indices(rarr@);
        let j: usize = agreement(&txt, &pat, cursor, carry);
        // After an occurrence the scan goes on as if the last position had
        // differed: the table has an entry for every shorter prefix, and the
        // next occurrence may begin inside this one.
        let settled: usize = if j == m {
            rarr.push(cursor);
            m - 1
        } else {
            j
        };
        let skipstep: usize = sm_list[settled];
        proof {
            lemma_skip_is_safe(txt@, pat@, sm_list@, cursor as int, settled as int);
            let rest = occurrences_from(txt@, pat@, cursor + skipstep);
            if j == m {
                assert(occurs_at(txt@, pat@, cursor as int));
                lemma_pass_over(txt@, pat@, cursor + 1, cursor + skipstep);
                assert(indices(rarr@) =~= found + seq![cursor as int]);
                assert((found + seq![cursor as int]) + rest =~= found + (seq![cursor as int]
                    + rest));
            } else {
                assert(!occurs_at(txt@, pat@, cursor as int));
                lemma_pass_over(txt@, pat@, cursor as int, cursor + skipstep);
            }
        }
        carry = if settled == 0 { 0 } else { settled - skipstep };
        cursor += skipstep;
    }
    proof {
        assert(indices(rarr@) + Seq::<int>::empty() =~= indices(rarr@));
        lemma_all_listed(text@, pattern@, rarr@);
    }
    rarr
}

/// A list of indices that equals the list of the occurrences kept apart
/// keeps apart, and says so of its own entries.
proof fn lemma_apart_listed(text: Seq<char>, pattern: Seq<char>, from: int, r: Seq<usize>)
    requires
        0 <= from,
        indices(r) == disjoint_occurrences_from(text, pattern, from),
    ensures
        keeps_apart(text, pattern, from, indices(r)),
        forall|i: int|
            0 <= i < r.len() ==> from <= #[trigger] r[i] && occurs_at(text, pattern, r[i] as int),
        forall|i: int, j: int|
            0 <= i < j < r.len() ==> #[trigger] r[i] + stride(pattern) <= #[trigger] r[j],
        r.len() > 0 ==> from <= r[0] && occurs_at(text, pattern, r[0] as int),
{
    let kept = indices(r);
    lemma_disjoint_occurrences(text, pattern, from);
    assert forall|i: int| 0 <= i < r.len() implies from <= #[trigger] r[i] && occurs_at(
        text,
        pattern,
        r[i] as int,
    ) by {
        assert(kept[i] == r[i] as int);
        assert(occurs_at(text, pattern, kept[i]));
    }
    assert forall|i: int, j: int| 0 <= i < j < r.len() implies #[trigger] r[i] + stride(pattern)
        <= #[trigger] r[j] by {
        assert(kept[i] + stride(pattern) <= kept[j]);
    }
}

/// Returns the indices of occurrences of `pattern` in `text` that share no
/// position, counted in scalar values, in rising order.
///
/// The search starts at `cursor_start`: nothing before that index is looked
/// at. It takes the first occurrence it finds and resumes at the index behind
/// the end of that occurrence, so that each index returned is at least the
/// pattern's length above the one before it. Two occurrences of the empty
/// pattern share no position, so for it every index from `cursor_start` to
/// the length of the text is returned. Where the pattern no longer fits
/// between `cursor_start` and the end of the text, the result is empty.
pub fn kmpm_str_nad(text: &str, pattern: &str, cursor_start: usize) -> (rarr: Vec<usize>)
    ensures
        indices(rarr@) == disjoint_occurrences_from(text@, pattern@, cursor_start as int),
        keeps_apart(text@, pattern@, cursor_start as int, indices(rarr@)),
        forall|i: int|
            0 <= i < rarr@.len() ==> cursor_start <= #[trigger] rarr@[i] && occurs_at(
                text@,
                pattern@,
                rarr@[i] as int,
            ),
        forall|i: int, j: int|
            0 <= i < j < rarr@.len() ==> #[trigger] rarr@[i] + stride(pattern@)
                <= #[trigger] rarr@[j],
        pattern@.len() > text@.len() ==> rarr@.len() == 0,
        cursor_start + pattern@.len() > text@.len() ==> rarr@.len() == 0,
        (forall|k: int| cursor_start <= k ==> !occurs_at(text@, pattern@, k)) ==> rarr@.len() == 0,
        pattern@.len() == 0 && cursor_start <= text@.len() ==> indices(rarr@) == Seq::new(
            (text@.len() - cursor_start + 1) as nat,
            |i: int| cursor_start + i,
        ),
{
    let txt: Vec<char> = to_chars(text);
    let pat: Vec<char> = to_chars(pattern);
    let n: usize = txt.len();
    let m: usize = pat.len();
    if m > n || cursor_start > n - m {
        let none: Vec<usize> = Vec::new();
        proof {
            assert(indices(none@) =~= disjoint_occurrences_from(
                text@,
                pattern@,
                cursor_start as int,
            ));
            lemma_apart_listed(text@, pattern@, cursor_start as int, none@);
        }
        return none;
    }
    if m == 0 {
        let all: Vec<usize> = every_index(cursor_start, n);
        proof {
            lemma_empty_pattern(text@, pattern@, cursor_start as int);
            lemma_apart_listed(text@, pattern@, cursor_start as int, all@);
        }
        return all;
    }
    let sm_list: Vec<usize> = skipmap(pattern);
    let endpoint: usize = n - m;
    let mut rarr: Vec<usize> = Vec::new();
    let mut cursor: usize = cursor_start;
    let mut carry: usize = 0;
    assert(indices(rarr@) + disjoint_occurrences_from(txt@, pat@, cursor as int)
        =~= disjoint_occurrences_from(txt@, pat@, cursor_start as int));
    while cursor <= endpoint
        invariant
            txt@ == text@,
            pat@ == pattern@,
            is_skip_table(pat@, sm_list@),
            n == txt@.len(),
            m == pat@.len(),
            1 <= m,
            endpoint + m == n,
            cursor <= n,
            carry <= m,
            agrees(txt@, pat@, cursor as int, carry as int),
            indices(rarr@) + disjoint_occurrences_from(txt@, pat@, cursor as int)
                == disjoint_occurrences_from(txt@, pat@, cursor_start as int),
        decreases n - cursor,
    {
        let ghost found = indices(rarr@);
        let j: usize = agreement(&txt, &pat, cursor, carry);
        if j == m {
            // The next occurrence may not begin inside this one: the scan
            // resumes behind its end, with nothing settled.
            rarr.push(cursor);
            proof {
                let rest = disjoint_occurrences_from(txt@, pat@, cursor + m);
                assert(occurs_at(txt@, pat@, cursor as int));
                assert(indices(rarr@) =~= found + seq![cursor as int]);
                assert((found + seq![cursor as int]) + rest =~= found + (seq![cursor as int]
                    + rest));
            }
            carry = 0;
            cursor += m;
        } else {
            let skipstep: usize = sm_list[j];
            proof {
                lemma_skip_is_safe(txt@, pat@, sm_list@, cursor as int, j as int);
                assert(!occurs_at(txt@, pat@, cursor as int));
                lemma_pass_over(txt@, pat@, cursor as int, cursor + skipstep);
            }
            carry = if j == 0 { 0 } else { j - skipstep };
            cursor += skipstep;
        }
    }
    proof {
        assert(indices(rarr@) + Seq::<int>::empty() =~= indices(rarr@));
        lemma_apart_listed(text@, pattern@, cursor_start as int, rarr@);
    }
    rarr
}

} // verus!
