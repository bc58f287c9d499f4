use ccd::matcher::{osa_distance, starts_word, subseq_match, subseq_match_lowered};

fn chars(s: &str) -> Vec<char> {
    s.chars().collect()
}

fn osa(a: &str, b: &str) -> usize {
    osa_distance(&chars(a), &chars(b))
}

#[test]
fn osa_handles_adjacent_transposition() {
    let a: Vec<char> = "donwloads".chars().collect();
    let b: Vec<char> = "downloads".chars().collect();
    assert_eq!(osa_distance(&a, &b), 1);
}

#[test]
fn osa_of_empty_strings_is_the_other_length() {
    assert_eq!(osa("", ""), 0);
    assert_eq!(osa("", "abc"), 3);
    assert_eq!(osa("abcd", ""), 4);
}

#[test]
fn osa_counts_substitutions_insertions_deletions() {
    assert_eq!(osa("kitten", "sitting"), 3);
    assert_eq!(osa("documents", "documnets"), 1);
    assert_eq!(osa("flaw", "lawn"), 2);
}

#[test]
fn osa_does_not_edit_a_substring_twice() {
    // Damerau-Levenshtein would give 2 here; OSA gives 3.
    assert_eq!(osa("ca", "abc"), 3);
}

#[test]
fn osa_is_symmetric_and_zero_only_for_equal_strings() {
    for (a, b) in [("src", "source"), ("web-node", "wn"), ("ab", "ba"), ("x", "x")] {
        assert_eq!(osa(a, b), osa(b, a));
        assert_eq!(osa(a, b) == 0, a == b);
        let la = a.chars().count();
        let lb = b.chars().count();
        assert!(osa(a, b) <= la.max(lb));
        assert!(osa(a, b) >= la.abs_diff(lb));
    }
}

#[test]
fn osa_adjacent_swap_in_the_middle_costs_one() {
    assert_eq!(osa("prefixXYsuffix", "prefixYXsuffix"), 1);
    assert_eq!(osa("ab", "ba"), 1);
}

#[test]
fn subsequence_match_of_abbreviation() {
    let m = subseq_match("dwn", "Downloads").unwrap();
    assert_eq!(m.query_len, 3);
    assert_eq!(m.base_len, 9);
    assert_eq!(m.first, 0);
    assert_eq!(m.last, 3);
    assert_eq!(m.at_boundary, 1);
}

#[test]
fn subsequence_match_counts_separator_boundaries() {
    let m = subseq_match("wn", "web-node").unwrap();
    assert_eq!((m.first, m.last, m.at_boundary), (0, 4, 2));
}

#[test]
fn subsequence_match_counts_camel_case_boundaries() {
    let m = subseq_match("fb", "FooBar").unwrap();
    assert_eq!((m.first, m.last, m.at_boundary), (0, 3, 2));
    let m = subseq_match("ob", "foobar").unwrap();
    assert_eq!((m.first, m.last, m.at_boundary), (1, 3, 0));
}

#[test]
fn subsequence_match_lowercases_both_sides() {
    assert!(subseq_match("DWN", "downloads").is_some());
    assert!(subseq_match("dwn", "DOWNLOADS").is_some());
}

#[test]
fn subsequence_match_rejects_non_subsequences_and_empty_queries() {
    assert!(subseq_match("nwd", "Downloads").is_none());
    assert!(subseq_match("", "Downloads").is_none());
    assert!(subseq_match("x", "").is_none());
}

#[test]
fn osa_single_edits_cost_one() {
    assert_eq!(osa("downloads", "downlloads"), 1);
    assert_eq!(osa("downloads", "dwnloads"), 1);
    assert_eq!(osa("downloads", "dowxloads"), 1);
}

#[test]
fn lowered_match_reads_word_starts_from_the_unlowered_text() {
    let m = subseq_match_lowered("fb", "foobar", "FooBar").unwrap();
    assert_eq!((m.query_len, m.base_len, m.first, m.last, m.at_boundary), (2, 6, 0, 3, 2));
    let m = subseq_match_lowered("fb", "foobar", "foobar").unwrap();
    assert_eq!(m.at_boundary, 1);
    assert!(subseq_match_lowered("", "foobar", "foobar").is_none());
    assert!(subseq_match_lowered("bf", "foobar", "foobar").is_none());
}

#[test]
fn word_starts_follow_separators_and_case_rises() {
    assert!(starts_word(None, false, false, false));
    assert!(starts_word(Some('-'), false, false, false));
    assert!(starts_word(Some('/'), true, false, false));
    assert!(starts_word(Some('o'), true, true, true));
    assert!(!starts_word(Some('o'), false, true, true));
    assert!(!starts_word(Some('o'), true, true, false));
    assert!(!starts_word(Some('o'), true, false, true));
}
