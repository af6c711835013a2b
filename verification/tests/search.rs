use kmpm::{kmpm_str, kmpm_str_all, kmpm_str_nad};

#[test]
fn test00() {
    let text = "hello world";
    let pattern = "world";
    let ctr = kmpm_str(text, pattern);
    match ctr {
        Some(cursor) => {
            assert!(cursor == 6);
            println!("matched index {}", cursor)
        }
        None => {
            println!("\"{}\" does not match", pattern);
        }
    }
}

#[test]
fn test01() {
    let text = "........................失敗...fosososos";
    let pattern = "失敗";
    let ctr = kmpm_str(text, pattern);
    match ctr {
        Some(cursor) => {
            assert!(cursor == 24);
            println!("matched index {}", cursor)
        }
        None => {
            println!("\"{}\" does not match", pattern);
        }
    }
}

#[test]
fn test02() {
    let text = "hello こんにちは world 世界";
    let pattern = "こんにちは";

    let ctr = kmpm_str(text, pattern).unwrap();
    assert!(ctr == 6);
}

#[test]
fn test03() {
    let text = "hello こんにちは world 世界";
    let pattern = "2024";

    assert!(kmpm_str(text, pattern).is_none());
}

#[test]
fn test04() {
    let text = "abababa";
    let pattern = "aba";

    println!("{:?}", kmpm_str_all(text, pattern));
}

#[test]
fn first_match_is_reported_not_skipped() {
    assert_eq!(kmpm_str("hello world", "world"), Some(6));
    assert_eq!(kmpm_str("hello world !", "world"), Some(6));
    assert_eq!(kmpm_str("........................失敗...fosososos", "失敗"), Some(24));
}

#[test]
fn first_match_of_several_is_the_lowest() {
    assert_eq!(kmpm_str("abababa", "aba"), Some(0));
    assert_eq!(kmpm_str("xxabxxab", "ab"), Some(2));
    assert_eq!(kmpm_str("aaaa", "a"), Some(0));
}

#[test]
fn first_match_at_the_last_fitting_index() {
    assert_eq!(kmpm_str("aaab", "ab"), Some(2));
    assert_eq!(kmpm_str("ab", "b"), Some(1));
    assert_eq!(kmpm_str("abc", "abc"), Some(0));
}

#[test]
fn a_mismatch_on_the_first_value_settles_nothing() {
    assert_eq!(kmpm_str("ac", "b"), None);
    assert_eq!(kmpm_str("xxb", "ab"), None);
    assert_eq!(kmpm_str("xab", "ab"), Some(1));
}

#[test]
fn a_partial_match_is_resumed_inside_itself() {
    assert_eq!(kmpm_str("aaaab", "aaab"), Some(1));
    assert_eq!(kmpm_str("abababc", "ababc"), Some(2));
    assert_eq!(kmpm_str("abcabcabd", "abcabd"), Some(3));
    assert_eq!(kmpm_str("aabaabaaab", "aabaaab"), Some(3));
}

#[test]
fn pattern_that_does_not_occur_gives_none() {
    assert_eq!(kmpm_str("hello こんにちは world 世界", "2024"), None);
    assert_eq!(kmpm_str("abababab", "abb"), None);
    assert_eq!(kmpm_str("aaaa", "b"), None);
}

#[test]
fn pattern_longer_than_text_gives_none() {
    assert_eq!(kmpm_str("ab", "abc"), None);
    assert_eq!(kmpm_str("", "a"), None);
    assert_eq!(kmpm_str("世", "世界"), None);
}

#[test]
fn empty_pattern_is_found_first_at_zero() {
    assert_eq!(kmpm_str("anything", ""), Some(0));
    assert_eq!(kmpm_str("", ""), Some(0));
    assert_eq!(kmpm_str("世界", ""), Some(0));
}

#[test]
fn indices_count_scalar_values_not_bytes() {
    let text = "hello こんにちは world 世界";
    assert_eq!(kmpm_str(text, "こんにちは"), Some(6));
    assert_eq!(kmpm_str(text, "world"), Some(12));
    assert_eq!(kmpm_str(text, "世界"), Some(18));
    assert_eq!(text.find("世界"), Some(28));
    assert_eq!(kmpm_str_all("ééé", "é"), vec![0, 1, 2]);
}

#[test]
fn all_matches_may_overlap() {
    assert_eq!(kmpm_str_all("abababa", "aba"), vec![0, 2, 4]);
    assert_eq!(kmpm_str_all("aaaa", "aa"), vec![0, 1, 2]);
    assert_eq!(kmpm_str_all("aaaa", "a"), vec![0, 1, 2, 3]);
    assert_eq!(kmpm_str_all("abcabcabc", "abcabc"), vec![0, 3]);
}

#[test]
fn all_matches_of_an_absent_pattern_are_none() {
    assert_eq!(kmpm_str_all("abababa", "abb"), Vec::<usize>::new());
    assert_eq!(kmpm_str_all("hello", "2024"), Vec::<usize>::new());
}

#[test]
fn all_matches_of_a_pattern_longer_than_text_are_none() {
    assert_eq!(kmpm_str_all("ab", "aba"), Vec::<usize>::new());
    assert_eq!(kmpm_str_all("", "a"), Vec::<usize>::new());
}

#[test]
fn all_matches_of_the_empty_pattern_are_every_index() {
    assert_eq!(kmpm_str_all("abc", ""), vec![0, 1, 2, 3]);
    assert_eq!(kmpm_str_all("", ""), vec![0]);
    assert_eq!(kmpm_str_all("世界", ""), vec![0, 1, 2]);
}

#[test]
fn all_matches_rise_and_stay_in_bounds() {
    let text = "abaababaabaababaababa";
    let pattern = "abaaba";
    let found = kmpm_str_all(text, pattern);
    assert_eq!(found, vec![0, 5, 8, 13]);
    let n = text.chars().count();
    let m = pattern.chars().count();
    for w in found.windows(2) {
        assert!(w[0] < w[1]);
    }
    for k in &found {
        assert!(*k <= n - m);
    }
}

#[test]
fn matches_kept_apart_share_no_position() {
    assert_eq!(kmpm_str_nad("abababa", "aba", 0), vec![0, 4]);
    assert_eq!(kmpm_str_nad("aaaa", "aa", 0), vec![0, 2]);
    assert_eq!(kmpm_str_nad("aaaaa", "aa", 0), vec![0, 2]);
    assert_eq!(kmpm_str_nad("abcabcabc", "abcabc", 0), vec![0]);
    assert_eq!(kmpm_str_nad("abab", "ab", 0), vec![0, 2]);
}

#[test]
fn matches_kept_apart_start_at_the_given_index() {
    assert_eq!(kmpm_str_nad("abababa", "aba", 1), vec![2]);
    assert_eq!(kmpm_str_nad("abababa", "aba", 2), vec![2]);
    assert_eq!(kmpm_str_nad("abababa", "aba", 3), vec![4]);
    assert_eq!(kmpm_str_nad("abababa", "aba", 4), vec![4]);
    assert_eq!(kmpm_str_nad("abababa", "aba", 5), Vec::<usize>::new());
    assert_eq!(kmpm_str_nad("abababa", "aba", 100), Vec::<usize>::new());
    assert_eq!(kmpm_str_nad("aaaaa", "aa", 1), vec![1, 3]);
}

#[test]
fn matches_kept_apart_of_a_pattern_longer_than_text_are_none() {
    assert_eq!(kmpm_str_nad("ab", "aba", 0), Vec::<usize>::new());
    assert_eq!(kmpm_str_nad("", "a", 0), Vec::<usize>::new());
}

#[test]
fn matches_kept_apart_of_the_empty_pattern() {
    assert_eq!(kmpm_str_nad("abc", "", 0), vec![0, 1, 2, 3]);
    assert_eq!(kmpm_str_nad("abc", "", 2), vec![2, 3]);
    assert_eq!(kmpm_str_nad("abc", "", 3), vec![3]);
    assert_eq!(kmpm_str_nad("abc", "", 4), Vec::<usize>::new());
    assert_eq!(kmpm_str_nad("", "", 0), vec![0]);
}

#[test]
fn matches_kept_apart_count_scalar_values() {
    assert_eq!(kmpm_str_nad("世界世界世界", "世界", 0), vec![0, 2, 4]);
    assert_eq!(kmpm_str_nad("世界世界世界", "世界", 1), vec![2, 4]);
}
