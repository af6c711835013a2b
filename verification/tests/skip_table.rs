use kmpm::chars::to_chars;
use kmpm::skip::{capable_gap, dup, skipmap};

#[test]
fn decoding_keeps_every_scalar_value_in_order() {
    assert_eq!(to_chars(""), Vec::<char>::new());
    assert_eq!(to_chars("abc"), vec!['a', 'b', 'c']);
    assert_eq!(to_chars("a世界é"), vec!['a', '世', '界', 'é']);
}

#[test]
fn dup_compares_the_overlap() {
    let full = vec!['a', 'b', 'a', 'b', 'c'];
    let prefix = vec!['a', 'b', 'a', 'b'];
    assert!(!dup(&prefix, &full, 1));
    assert!(dup(&prefix, &full, 2));
    assert!(!dup(&prefix, &full, 3));
    assert!(dup(&prefix, &full, 4));
    assert!(dup(&prefix, &full, 0));
    assert!(!dup(&full, &prefix, 1));
    assert!(!dup(&['a', 'b'], &['a', 'c'], 0));
}

#[test]
fn dup_of_an_empty_overlap_holds() {
    let none: Vec<char> = Vec::new();
    assert!(dup(&none, &none, 0));
    assert!(dup(&['x'], &none, 1));
}

#[test]
fn capable_gap_of_the_empty_prefix_is_one() {
    let none: Vec<char> = Vec::new();
    assert_eq!(capable_gap(&none, &['a', 'b']), 1);
    assert_eq!(capable_gap(&none, &none), 1);
}

#[test]
fn capable_gap_is_the_least_gap_that_overlaps() {
    let full = vec!['a', 'b', 'c', 'a', 'b', 'd'];
    assert_eq!(capable_gap(&full[..1], &full), 1);
    assert_eq!(capable_gap(&full[..2], &full), 2);
    assert_eq!(capable_gap(&full[..3], &full), 3);
    assert_eq!(capable_gap(&full[..4], &full), 3);
    assert_eq!(capable_gap(&full[..5], &full), 3);
    assert_eq!(capable_gap(&['a', 'a', 'a'], &['a', 'a', 'a', 'a']), 1);
}

#[test]
fn capable_gap_is_the_whole_length_without_overlap() {
    assert_eq!(capable_gap(&['a', 'b', 'c'], &['a', 'b', 'c', 'd']), 3);
    assert_eq!(capable_gap(&['x', 'y'], &['a', 'b']), 2);
}

#[test]
fn skip_table_of_the_empty_pattern_is_empty() {
    assert_eq!(skipmap(""), Vec::<usize>::new());
}

#[test]
fn skip_table_has_one_entry_per_prefix_length() {
    assert_eq!(skipmap("a"), vec![1]);
    assert_eq!(skipmap("aba"), vec![1, 1, 2]);
    assert_eq!(skipmap("aaaa"), vec![1, 1, 1, 1]);
    assert_eq!(skipmap("abcabd"), vec![1, 1, 2, 3, 3, 3]);
    assert_eq!(skipmap("aabaaab"), vec![1, 1, 1, 3, 3, 3, 4]);
    assert_eq!(skipmap("世界世"), vec![1, 1, 2]);
}

#[test]
fn skip_table_entries_are_at_least_one_and_the_first_is_one() {
    for pattern in ["a", "ab", "aab", "abab", "abcabcabc", "こんにちは", "zzzzzzzz"] {
        let table = skipmap(pattern);
        assert_eq!(table.len(), pattern.chars().count());
        assert_eq!(table[0], 1);
        for (i, s) in table.iter().enumerate() {
            assert!(*s >= 1);
            if i >= 1 {
                assert!(*s <= i);
            }
        }
    }
}
