use substring_index::error::SubstringError;
use substring_index::index::RustSubstringIndex;

fn build(entries: &[&str]) -> RustSubstringIndex {
    let owned: Vec<String> = entries.iter().map(|s| s.to_string()).collect();
    match RustSubstringIndex::new(owned) {
        Ok(idx) => idx,
        Err(e) => panic!("construction failed: {:?}", e),
    }
}

#[test]
fn finds_entries_containing_pattern() {
    let idx = build(&["cat", "cats", "concatenate", "dog"]);
    assert_eq!(idx.find_substring_conflicts("cat"), vec![1, 2]);
    assert_eq!(idx.find_substring_conflicts("at"), vec![0, 1, 2]);
    assert_eq!(idx.find_substring_conflicts("og"), vec![3]);
    assert_eq!(idx.find_substring_conflicts("zebra"), Vec::<usize>::new());
}

#[test]
fn self_exclusion_with_unique_entries() {
    let entries = ["ab", "abc", "b", "xabx", "c"];
    let idx = build(&entries);
    for (i, e) in entries.iter().enumerate() {
        assert!(!idx.find_substring_conflicts(e).contains(&i));
    }
}

#[test]
fn boundary_containment_reports_superstrings_only() {
    let entries = ["ab", "abc", "b", "xabx", "c"];
    let idx = build(&entries);
    assert_eq!(idx.find_substring_conflicts("ab"), vec![1, 3]);
    assert_eq!(idx.find_substring_conflicts("b"), vec![0, 1, 3]);
    assert_eq!(idx.find_substring_conflicts("c"), vec![1]);
    for (a, e1) in entries.iter().enumerate() {
        let found = idx.find_substring_conflicts(e1);
        for (b, e2) in entries.iter().enumerate() {
            if a != b && e2.contains(e1) {
                assert!(found.contains(&b));
            }
        }
        for j in found {
            assert!(entries[j].contains(e1));
        }
    }
}

#[test]
fn no_cross_entry_leakage() {
    let idx = build(&["ab", "ba"]);
    assert_eq!(idx.find_substring_conflicts("ab"), Vec::<usize>::new());
    assert_eq!(idx.find_substring_conflicts("bab"), Vec::<usize>::new());
    assert_eq!(idx.find_substring_conflicts("aba"), Vec::<usize>::new());
    assert_eq!(idx.find_substring_conflicts("b"), vec![0, 1]);
}

#[test]
fn pattern_with_separator_never_matches() {
    let idx = build(&["ab", "ba"]);
    assert_eq!(idx.find_substring_conflicts("b\u{0}b"), Vec::<usize>::new());
}

#[test]
fn repeated_queries_are_identical() {
    let idx = build(&["banana", "ban", "an", "nana", "ananas"]);
    let first = idx.find_substring_conflicts("an");
    let second = idx.find_substring_conflicts("an");
    assert_eq!(first, second);
    assert_eq!(first, vec![0, 1, 3, 4]);
}

#[test]
fn repeated_occurrences_reported_once() {
    let idx = build(&["aaaa", "a"]);
    assert_eq!(idx.find_substring_conflicts("a"), vec![0]);
    assert_eq!(idx.find_substring_conflicts("aa"), vec![0]);
}

#[test]
fn empty_corpus_has_no_conflicts() {
    let idx = build(&[]);
    assert_eq!(idx.find_substring_conflicts("a"), Vec::<usize>::new());
    assert_eq!(idx.find_substring_conflicts(""), Vec::<usize>::new());
    assert!(idx.get_typos().is_empty());
}

#[test]
fn boundary_containment_with_empty_entry() {
    let entries = ["", "ab", "c"];
    let idx = build(&entries);
    assert_eq!(idx.find_substring_conflicts(entries[0]), vec![1, 2]);
}

#[test]
fn empty_pattern_matches_every_entry_but_its_own() {
    let idx = build(&["a", "", "bc"]);
    assert_eq!(idx.find_substring_conflicts(""), vec![0, 2]);
    let idx = build(&["a", "bc"]);
    assert_eq!(idx.find_substring_conflicts(""), vec![0, 1]);
    let idx = build(&["", "a", ""]);
    assert_eq!(idx.find_substring_conflicts(""), vec![0, 1]);
}

#[test]
fn duplicate_entries_exclude_last_only() {
    let idx = build(&["ab", "xab", "ab"]);
    assert_eq!(idx.find_substring_conflicts("ab"), vec![0, 1]);
}

#[test]
fn entry_with_separator_is_rejected() {
    let r = RustSubstringIndex::new(vec!["ok".to_string(), "b\u{0}d".to_string()]);
    assert!(matches!(r, Err(SubstringError::InvalidInput)));
}

#[test]
fn entries_kept_in_order() {
    let idx = build(&["zeta", "alpha", "", "alpha"]);
    assert_eq!(idx.get_typos(), vec!["zeta", "alpha", "", "alpha"]);
}

#[test]
fn multibyte_entries_use_whole_characters() {
    let idx = build(&["café", "fé", "caféine"]);
    assert_eq!(idx.find_substring_conflicts("fé"), vec![0, 2]);
    assert_eq!(idx.find_substring_conflicts("é"), vec![0, 1, 2]);
}

#[test]
fn agrees_with_direct_scan_on_generated_corpus() {
    let alphabet = ["a", "b", "ab", "ba", "aab", "bba", "abab", ""];
    let mut entries: Vec<String> = Vec::new();
    for i in 0..40 {
        let mut e = String::new();
        let mut k = i;
        while k > 0 {
            e.push_str(alphabet[k % alphabet.len()]);
            k /= 3;
        }
        entries.push(e);
    }
    let idx = RustSubstringIndex::new(entries.clone()).unwrap();
    for pattern in ["a", "b", "ab", "ba", "aab", "abab", "bab", "", "zz"] {
        let own = entries.iter().rposition(|e| e == pattern);
        let expected: Vec<usize> = (0..entries.len())
            .filter(|&j| entries[j].contains(pattern) && Some(j) != own)
            .collect();
        assert_eq!(idx.find_substring_conflicts(pattern), expected);
    }
}
