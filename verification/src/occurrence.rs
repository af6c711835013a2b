//! What it means for a pattern to occur in a text, and the three results that
//! a search can ask for, each defined by trying one index after the other.

use vstd::prelude::*;

verus! {

/// The first `len` scalar values of `pattern` stand in `text` from index `k`
/// on.
pub open spec fn agrees(text: Seq<char>, pattern: Seq<char>, k: int, len: int) -> bool {
    forall|i: int| 0 <= i < len ==> text[k + i] == #[trigger] pattern[i]
}

/// `pattern` occurs in `text` at index `k`: it fits there, and the text
/// repeats it value for value.
pub open spec fn occurs_at(text: Seq<char>, pattern: Seq<char>, k: int) -> bool {
    &&& 0 <= k
    &&& k + pattern.len() <= text.len()
    &&& agrees(text, pattern, k, pattern.len() as int)
}

/// The distance between the starts of two occurrences that do not share a
/// position: the pattern's length, and one for the empty pattern.
pub open spec fn stride(pattern: Seq<char>) -> int {
    if pattern.len() == 0 {
        1
    } else {
        pattern.len() as int
    }
}

/// The lowest index at or after `from` at which `pattern` occurs in `text`,
/// found by comparing at `from`, then at `from + 1`, and so on.
pub open spec fn first_occurrence_from(text: Seq<char>, pattern: Seq<char>, from: int) -> Option<
    int,
>
    decreases text.len() - from + 1,
{
    if from < 0 || from + pattern.len() > text.len() {
        None
    } else if occurs_at(text, pattern, from) {
        Some(from)
    } else {
        first_occurrence_from(text, pattern, from + 1)
    }
}

/// Every index at or after `from` at which `pattern` occurs in `text`, in
/// rising order, found by comparing at each index in turn.
pub open spec fn occurrences_from(text: Seq<char>, pattern: Seq<char>, from: int) -> Seq<int>
    decreases text.len() - from + 1,
{
    if from < 0 || from + pattern.len() > text.len() {
        Seq::empty()
    } else if occurs_at(text, pattern, from) {
        seq![from] + occurrences_from(text, pattern, from + 1)
    } else {
        occurrences_from(text, pattern, from + 1)
    }
}

/// The occurrences of `pattern` in `text` that a reader meets who starts at
/// `from`, takes the first occurrence found, and resumes behind its end.
pub open spec fn disjoint_occurrences_from(text: Seq<char>, pattern: Seq<char>, from: int) -> Seq<
    int,
>
    decreases text.len() - from + 1,
{
    if from < 0 || from + pattern.len() > text.len() {
        Seq::empty()
    } else if occurs_at(text, pattern, from) {
        seq![from] + disjoint_occurrences_from(text, pattern, from + stride(pattern))
    } else {
        disjoint_occurrences_from(text, pattern, from + 1)
    }
}

/// An optional index as a mathematical integer.
pub open spec fn index_of(r: Option<usize>) -> Option<int> {
    match r {
        Some(k) => Some(k as int),
        None => None,
    }
}

/// A list of indices as mathematical integers.
pub open spec fn indices(r: Seq<usize>) -> Seq<int> {
    Seq::new(r.len(), |i: int| r[i] as int)
}

/// Indices at which the pattern does not occur can be passed over: all three
/// searches give from `from` what they give from `to` when no occurrence
/// starts in between.
pub proof fn lemma_pass_over(text: Seq<char>, pattern: Seq<char>, from: int, to: int)
    requires
        0 <= from <= to,
        forall|j: int| from <= j < to ==> !occurs_at(text, pattern, j),
    ensures
        first_occurrence_from(text, pattern, from) == first_occurrence_from(text, pattern, to),
        occurrences_from(text, pattern, from) == occurrences_from(text, pattern, to),
        disjoint_occurrences_from(text, pattern, from) == disjoint_occurrences_from(
            text,
            pattern,
            to,
        ),
    decreases to - from,
{
    if from < to {
        assert(!occurs_at(text, pattern, from));
        lemma_pass_over(text, pattern, from + 1, to);
    }
}

/// The search for the first occurrence finds the lowest index at or after
/// `from` at which the pattern occurs, and finds nothing exactly when there
/// is no such index.
pub proof fn lemma_first_occurrence(text: Seq<char>, pattern: Seq<char>, from: int)
    requires
        0 <= from,
    ensures
        match first_occurrence_from(text, pattern, from) {
            Some(k) => {
                &&& from <= k
                &&& occurs_at(text, pattern, k)
                &&& forall|j: int| from <= j < k ==> !occurs_at(text, pattern, j)
            },
            None => forall|j: int| from <= j ==> !occurs_at(text, pattern, j),
        },
    decreases text.len() - from + 1,
{
    if from + pattern.len() <= text.len() && !occurs_at(text, pattern, from) {
        lemma_first_occurrence(text, pattern, from + 1);
    }
}

/// The search for all occurrences lists, in strictly rising order, exactly
/// the indices at or after `from` at which the pattern occurs.
pub proof fn lemma_occurrences(text: Seq<char>, pattern: Seq<char>, from: int)
    requires
        0 <= from,
    ensures
        forall|i: int|
            0 <= i < occurrences_from(text, pattern, from).len() ==> {
                &&& from <= #[trigger] occurrences_from(text, pattern, from)[i]
                &&& occurs_at(text, pattern, occurrences_from(text, pattern, from)[i])
            },
        forall|i: int, j: int|
            0 <= i < j < occurrences_from(text, pattern, from).len() ==> occurrences_from(
                text,
                pattern,
                from,
            )[i] < occurrences_from(text, pattern, from)[j],
        forall|k: int|
            from <= k && occurs_at(text, pattern, k) ==> occurrences_from(
                text,
                pattern,
                from,
            ).contains(k),
    decreases text.len() - from + 1,
{
    let here = occurrences_from(text, pattern, from);
    if from + pattern.len() <= text.len() {
        lemma_occurrences(text, pattern, from + 1);
        let rest = occurrences_from(text, pattern, from + 1);
        if occurs_at(text, pattern, from) {
            assert(here == seq![from] + rest);
            assert(here[0] == from);
            assert forall|i: int| 1 <= i < here.len() implies here[i] == rest[i - 1] by {}
            assert forall|k: int| from <= k && occurs_at(text, pattern, k) implies here.contains(
                k,
            ) by {
                if k == from {
                    assert(here[0] == k);
                } else {
                    assert(rest.contains(k));
                    let i = choose|i: int| 0 <= i < rest.len() && rest[i] == k;
                    assert(here[i + 1] == k);
                }
            }
            assert forall|i: int, j: int| 0 <= i < j < here.len() implies here[i] < here[j] by {
                if i > 0 {
                    assert(rest[i - 1] < rest[j - 1]);
                } else {
                    assert(from + 1 <= rest[j - 1]);
                }
            }
        }
    }
}

/// `s` lists occurrences of `pattern` in `text` only, none before `from`,
/// each starting at or behind the end of the one before it, and leaves out no
/// occurrence at or after `from` but one that starts inside an occurrence it
/// lists.
pub open spec fn keeps_apart(text: Seq<char>, pattern: Seq<char>, from: int, s: Seq<int>) -> bool {
    &&& forall|i: int| 0 <= i < s.len() ==> from <= #[trigger] s[i]
    &&& forall|i: int| 0 <= i < s.len() ==> #[trigger] occurs_at(text, pattern, s[i])
    &&& forall|i: int, j: int|
        0 <= i < j < s.len() ==> #[trigger] s[i] + stride(pattern) <= #[trigger] s[j]
    &&& forall|k: int|
        from <= k && #[trigger] occurs_at(text, pattern, k) ==> exists|i: int|
            0 <= i < s.len() && #[trigger] s[i] <= k < s[i] + stride(pattern)
}

/// An occurrence at `from`, put before a list that keeps apart from behind
/// its end, gives a list that keeps apart from `from`.
proof fn lemma_keeps_apart_first(text: Seq<char>, pattern: Seq<char>, from: int, rest: Seq<int>)
    requires
        occurs_at(text, pattern, from),
        keeps_apart(text, pattern, from + stride(pattern), rest),
    ensures
        keeps_apart(text, pattern, from, seq![from] + rest),
{
    let here = seq![from] + rest;
    let next = from + stride(pattern);
    assert(here[0] == from);
    assert forall|i: int| 0 <= i < here.len() implies from <= #[trigger] here[i] by {
        if i > 0 {
            assert(here[i] == rest[i - 1]);
        }
    }
    assert forall|i: int| 0 <= i < here.len() implies #[trigger] occurs_at(
        text,
        pattern,
        here[i],
    ) by {
        if i > 0 {
            assert(here[i] == rest[i - 1]);
            assert(occurs_at(text, pattern, rest[i - 1]));
        }
    }
    assert forall|i: int, j: int| 0 <= i < j < here.len() implies #[trigger] here[i] + stride(
        pattern,
    ) <= #[trigger] here[j] by {
        assert(here[j] == rest[j - 1]);
        if i > 0 {
            assert(here[i] == rest[i - 1]);
        }
    }
    assert forall|k: int| from <= k && #[trigger] occurs_at(text, pattern, k) implies exists|
        i: int,
    |
        0 <= i < here.len() && #[trigger] here[i] <= k < here[i] + stride(pattern) by {
        if k < next {
            assert(here[0] <= k < here[0] + stride(pattern));
        } else {
            let i = choose|i: int|
                0 <= i < rest.len() && #[trigger] rest[i] <= k < rest[i] + stride(pattern);
            assert(here[i + 1] == rest[i]);
            assert(here[i + 1] <= k < here[i + 1] + stride(pattern));
        }
    }
}

/// The search that keeps occurrences apart gives a list that keeps apart.
pub proof fn lemma_disjoint_occurrences(text: Seq<char>, pattern: Seq<char>, from: int)
    requires
        0 <= from,
    ensures
        keeps_apart(text, pattern, from, disjoint_occurrences_from(text, pattern, from)),
    decreases text.len() - from + 1,
{
    if from + pattern.len() <= text.len() {
        if occurs_at(text, pattern, from) {
            let next = from + stride(pattern);
            lemma_disjoint_occurrences(text, pattern, next);
            lemma_keeps_apart_first(
                text,
                pattern,
                from,
                disjoint_occurrences_from(text, pattern, next),
            );
        } else {
            lemma_disjoint_occurrences(text, pattern, from + 1);
        }
    }
}

/// The empty pattern occurs at every index of a text, the index behind its
/// last value included, and no two of these occurrences share a position.
pub proof fn lemma_empty_pattern(text: Seq<char>, pattern: Seq<char>, from: int)
    requires
        pattern.len() == 0,
        0 <= from <= text.len(),
    ensures
        first_occurrence_from(text, pattern, from) == Some(from),
        occurrences_from(text, pattern, from) == Seq::new(
            (text.len() - from + 1) as nat,
            |i: int| from + i,
        ),
        disjoint_occurrences_from(text, pattern, from) == occurrences_from(text, pattern, from),
    decreases text.len() - from,
{
    let all = Seq::new((text.len() - from + 1) as nat, |i: int| from + i);
    let here = occurrences_from(text, pattern, from);
    let rest = occurrences_from(text, pattern, from + 1);
    assert(occurs_at(text, pattern, from));
    assert(here == seq![from] + rest);
    assert(disjoint_occurrences_from(text, pattern, from) == seq![from]
        + disjoint_occurrences_from(text, pattern, from + 1));
    if from < text.len() {
        lemma_empty_pattern(text, pattern, from + 1);
    }
    assert(here =~= all);
}

/// A pattern longer than the text occurs nowhere in it, so none of the
/// searches finds anything, wherever it starts.
pub proof fn lemma_longer_pattern(text: Seq<char>, pattern: Seq<char>, from: int)
    requires
        pattern.len() > text.len(),
    ensures
        forall|k: int| !occurs_at(text, pattern, k),
        first_occurrence_from(text, pattern, from) is None,
        occurrences_from(text, pattern, from) == Seq::<int>::empty(),
        disjoint_occurrences_from(text, pattern, from) == Seq::<int>::empty(),
{
}

/// The first occurrence is the head of the list of all occurrences and the
/// head of the list of occurrences kept apart; where there is none, both
/// lists are empty.
pub proof fn lemma_first_heads_lists(text: Seq<char>, pattern: Seq<char>, from: int)
    requires
        0 <= from,
    ensures
        match first_occurrence_from(text, pattern, from) {
            Some(k) => {
                &&& occurrences_from(text, pattern, from).len() > 0
                &&& occurrences_from(text, pattern, from)[0] == k
                &&& disjoint_occurrences_from(text, pattern, from).len() > 0
                &&& disjoint_occurrences_from(text, pattern, from)[0] == k
            },
            None => {
                &&& occurrences_from(text, pattern, from).len() == 0
                &&& disjoint_occurrences_from(text, pattern, from).len() == 0
            },
        },
    decreases text.len() - from + 1,
{
    if from + pattern.len() <= text.len() && !occurs_at(text, pattern, from) {
        lemma_first_heads_lists(text, pattern, from + 1);
    }
}

} // verus!
