use substring_index::boundary::{
    batch_check, batch_check_patterns, parse_direction, would_corrupt, would_corrupt_flagged, Direction,
};
use substring_index::error::SubstringError;

fn strings(v: &[&str]) -> Vec<String> {
    v.iter().map(|s| s.to_string()).collect()
}

#[test]
fn leading_at_word_start() {
    assert!(would_corrupt("cat", "cats", Direction::Leading));
}

#[test]
fn leading_inside_word() {
    assert!(!would_corrupt("cat", "concatenate", Direction::Leading));
}

#[test]
fn leading_after_punctuation() {
    assert!(would_corrupt("cat", "con-cat", Direction::Leading));
    assert!(would_corrupt("cat", "1cat", Direction::Leading));
}

#[test]
fn trailing_before_letter() {
    assert!(!would_corrupt("cat", "cats", Direction::Trailing));
}

#[test]
fn trailing_before_punctuation() {
    assert!(would_corrupt("cat", "cat!", Direction::Trailing));
}

#[test]
fn trailing_at_word_end() {
    assert!(would_corrupt("cat", "bobcat", Direction::Trailing));
    assert!(!would_corrupt("cat", "bobcat", Direction::Leading));
}

#[test]
fn overlapping_occurrences_are_scanned() {
    // the first "aa" is preceded by a letter, the second starts after '-'
    assert!(would_corrupt("aa", "baa-aa", Direction::Leading));
    // "aba" at 1 is followed by 'b'; "aba" at 3 ends the word
    assert!(would_corrupt("aba", "xababa", Direction::Trailing));
    assert!(!would_corrupt("aba", "xabab", Direction::Trailing));
}

#[test]
fn absent_pattern_never_corrupts() {
    assert!(!would_corrupt("dog", "cat", Direction::Leading));
    assert!(!would_corrupt("longer", "short", Direction::Trailing));
}

#[test]
fn non_ascii_letters_are_alphabetic() {
    assert!(!would_corrupt("cat", "écat", Direction::Leading));
    assert!(!would_corrupt("cat", "caté", Direction::Trailing));
}

#[test]
fn batch_matches_single_checks() {
    let patterns = strings(&["cat", "at", "dog", "x"]);
    let words = strings(&["cats", "concatenate", "hot-dog"]);
    for dir in [Direction::Leading, Direction::Trailing] {
        let r = batch_check(&patterns, &words, dir);
        assert_eq!(r.len(), patterns.len());
        for (i, p) in patterns.iter().enumerate() {
            let expected = words.iter().any(|w| would_corrupt(p, w, dir));
            assert_eq!(r[i], expected);
        }
    }
    assert_eq!(batch_check(&patterns, &words, Direction::Leading), vec![true, false, true, false]);
    assert_eq!(batch_check(&patterns, &words, Direction::Trailing), vec![false, false, true, false]);
}

#[test]
fn batch_of_no_patterns_is_empty() {
    let words = strings(&["cats"]);
    assert_eq!(batch_check(&Vec::new(), &words, Direction::Leading), Vec::<bool>::new());
    assert_eq!(batch_check_patterns(Vec::new(), words, "LTR".to_string()), Ok(Vec::new()));
}

#[test]
fn batch_with_no_words_is_all_false() {
    let patterns = strings(&["a", "b"]);
    assert_eq!(batch_check(&patterns, &Vec::new(), Direction::Trailing), vec![false, false]);
}

#[test]
fn direction_names() {
    assert_eq!(parse_direction("RTL"), Ok(Direction::Leading));
    assert_eq!(parse_direction("RIGHT_TO_LEFT"), Ok(Direction::Leading));
    assert_eq!(parse_direction("LTR"), Ok(Direction::Trailing));
    assert_eq!(parse_direction("LEFT_TO_RIGHT"), Ok(Direction::Trailing));
    assert_eq!(parse_direction("rtl"), Err(SubstringError::InvalidArgument));
    assert_eq!(parse_direction(""), Err(SubstringError::InvalidArgument));
}

#[test]
fn batch_by_name() {
    let patterns = strings(&["cat"]);
    let words = strings(&["cats"]);
    assert_eq!(batch_check_patterns(patterns.clone(), words.clone(), "RTL".to_string()), Ok(vec![true]));
    assert_eq!(batch_check_patterns(patterns.clone(), words.clone(), "LEFT_TO_RIGHT".to_string()), Ok(vec![false]));
    assert_eq!(
        batch_check_patterns(patterns, words, "UP".to_string()),
        Err(SubstringError::InvalidArgument)
    );
}

fn chars(s: &str) -> Vec<char> {
    s.chars().collect()
}

#[test]
fn flagged_check_follows_given_classification() {
    let p = chars("cat");
    let w = chars("cats");
    let all_alpha = vec![true; 4];
    assert!(would_corrupt_flagged(&p, &w, &all_alpha, Direction::Leading));
    assert!(!would_corrupt_flagged(&p, &w, &all_alpha, Direction::Trailing));
    let s_not_alpha = vec![true, true, true, false];
    assert!(would_corrupt_flagged(&p, &w, &s_not_alpha, Direction::Trailing));
    let w = chars("xcat");
    assert!(!would_corrupt_flagged(&p, &w, &vec![true; 4], Direction::Leading));
    assert!(would_corrupt_flagged(&p, &w, &vec![false, true, true, true], Direction::Leading));
}

#[test]
fn flagged_check_with_empty_pattern() {
    let w = chars("ab");
    assert!(would_corrupt_flagged(&Vec::new(), &w, &vec![true; 2], Direction::Leading));
    assert!(would_corrupt_flagged(&Vec::new(), &w, &vec![true; 2], Direction::Trailing));
}
