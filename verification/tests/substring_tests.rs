use algolab::substring::{boyer_moore, kmp, rabin_karp};

fn naive(text: &str, pattern: &str) -> Vec<usize> {
    let t = text.as_bytes();
    let p = pattern.as_bytes();
    let mut found = Vec::new();
    if p.is_empty() || p.len() > t.len() {
        return found;
    }
    for at in 0..=t.len() - p.len() {
        if &t[at..at + p.len()] == p {
            found.push(at);
        }
    }
    found
}

#[test]
fn overlapping_occurrences_are_all_reported() {
    assert_eq!(rabin_karp("ABABAC", "ABA"), vec![0, 2]);
    assert_eq!(kmp("ABABAC", "ABA"), vec![0, 2]);
    assert_eq!(boyer_moore("ABABAC", "ABA"), vec![0, 2]);
}

#[test]
fn separate_occurrences_are_all_reported() {
    assert_eq!(rabin_karp("ABACABABACB", "ABAC"), vec![0, 6]);
    assert_eq!(kmp("ABACABABACB", "ABAC"), vec![0, 6]);
    assert_eq!(boyer_moore("ABACABABACB", "ABAC"), vec![0, 6]);
}

#[test]
fn empty_pattern_gives_nothing() {
    assert_eq!(rabin_karp("abc", ""), Vec::<usize>::new());
    assert_eq!(kmp("abc", ""), Vec::<usize>::new());
    assert_eq!(boyer_moore("abc", ""), Vec::<usize>::new());
    assert_eq!(rabin_karp("", ""), Vec::<usize>::new());
    assert_eq!(kmp("", ""), Vec::<usize>::new());
    assert_eq!(boyer_moore("", ""), Vec::<usize>::new());
}

#[test]
fn pattern_longer_than_text_gives_nothing() {
    assert_eq!(rabin_karp("ab", "abc"), Vec::<usize>::new());
    assert_eq!(kmp("ab", "abc"), Vec::<usize>::new());
    assert_eq!(boyer_moore("ab", "abc"), Vec::<usize>::new());
}

#[test]
fn pattern_equal_to_text_occurs_at_zero() {
    assert_eq!(rabin_karp("needle", "needle"), vec![0]);
    assert_eq!(kmp("needle", "needle"), vec![0]);
    assert_eq!(boyer_moore("needle", "needle"), vec![0]);
}

#[test]
fn single_byte_runs_overlap_everywhere() {
    assert_eq!(rabin_karp("aaaaa", "aa"), vec![0, 1, 2, 3]);
    assert_eq!(kmp("aaaaa", "aa"), vec![0, 1, 2, 3]);
    assert_eq!(boyer_moore("aaaaa", "aa"), vec![0, 1, 2, 3]);
}

#[test]
fn occurrence_right_after_a_partial_match_is_found() {
    assert_eq!(rabin_karp("XBB", "BB"), vec![1]);
    assert_eq!(kmp("XBB", "BB"), vec![1]);
    assert_eq!(boyer_moore("XBB", "BB"), vec![1]);
}

#[test]
fn fingerprint_collisions_are_not_reported() {
    // "k" (107) and "\0" both have fingerprint 0 modulo 107.
    assert_eq!(rabin_karp("a\0b", "k"), Vec::<usize>::new());
    assert_eq!(rabin_karp("akb", "k"), vec![1]);
}

#[test]
fn offsets_are_byte_offsets() {
    let text = "añb añ";
    assert_eq!(rabin_karp(text, "ñ"), vec![1, 6]);
    assert_eq!(kmp(text, "ñ"), vec![1, 6]);
    assert_eq!(boyer_moore(text, "ñ"), vec![1, 6]);
}

#[test]
fn all_three_agree_with_a_direct_scan() {
    let texts = ["", "a", "abababab", "mississippi", "aaaaaaaaaa", "abcabcabcabd", "xyzzyxyzzy"];
    let patterns = ["", "a", "ab", "aba", "issi", "aaa", "abcabd", "zzy", "yx", "q", "ss"];
    for text in texts {
        for pattern in patterns {
            let expected = naive(text, pattern);
            assert_eq!(rabin_karp(text, pattern), expected);
            assert_eq!(kmp(text, pattern), expected);
            assert_eq!(boyer_moore(text, pattern), expected);
        }
    }
}
