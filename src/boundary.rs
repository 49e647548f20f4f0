//! Deciding whether a pattern, matched at a word boundary, would alter a
//! reference word.
use vstd::prelude::*;
use crate::error::SubstringError;
use crate::text::{chars_of, occurs_at};

verus! {

/// Which side of a match is checked for a word boundary.
#[derive(Debug, Clone, Copy, PartialEq, Eq, Structural)]
pub enum Direction {
    /// Sensitive to what precedes the match.
    Leading,
    /// Sensitive to what follows the match.
    Trailing,
}

/// Whether a character is alphabetic, as Unicode defines it.
pub uninterp spec fn alphabetic(c: char) -> bool;

/// Relies on `char::is_alphabetic`: the Unicode `Alphabetic` property of `c`.
#[verifier::external_body]
fn is_alpha(c: char) -> (r: bool)
    ensures
        r == alphabetic(c),
{
    c.is_alphabetic()
}

/// Whether each character of `w` is alphabetic.
pub open spec fn alpha_flags(w: Seq<char>) -> Seq<bool> {
    w.map_values(|c: char| alphabetic(c))
}

/// The occurrence of `p` at offset `k` of `w` touches a word boundary on the
/// side that `d` names: the word's edge, or a character that `alpha` marks
/// as non-alphabetic.
pub open spec fn boundary_with(w: Seq<char>, p: Seq<char>, k: int, alpha: Seq<bool>, d: Direction) -> bool {
    match d {
        Direction::Leading => k == 0 || !alpha[k - 1],
        Direction::Trailing => k + p.len() == w.len() || !alpha[k + p.len()],
    }
}

/// Some occurrence of `p` in `w` touches a word boundary on the side `d`,
/// with the characters of `w` classified by `alpha`.
pub open spec fn corrupts_with(p: Seq<char>, w: Seq<char>, alpha: Seq<bool>, d: Direction) -> bool {
    exists|k: int| #[trigger] occurs_at(w, p, k) && boundary_with(w, p, k, alpha, d)
}

/// Some occurrence of `p` in `w` touches a word boundary on the side `d`:
/// the word's edge or a non-alphabetic character.
pub open spec fn corrupts(p: Seq<char>, w: Seq<char>, d: Direction) -> bool {
    corrupts_with(p, w, alpha_flags(w), d)
}

/// Some word of `ws` is corrupted by `p`.
pub open spec fn corrupts_any(p: Seq<char>, ws: Seq<Seq<char>>, d: Direction) -> bool {
    exists|j: int| 0 <= j < ws.len() && corrupts(p, #[trigger] ws[j], d)
}

/// The direction that a name selects: `RTL` or `RIGHT_TO_LEFT` for leading,
/// `LTR` or `LEFT_TO_RIGHT` for trailing.
pub open spec fn direction_of(s: Seq<char>) -> Option<Direction> {
    if s == seq!['R', 'T', 'L'] || s == seq![
        'R', 'I', 'G', 'H', 'T', '_', 'T', 'O', '_', 'L', 'E', 'F', 'T'
    ] {
        Some(Direction::Leading)
    } else if s == seq!['L', 'T', 'R'] || s == seq![
        'L', 'E', 'F', 'T', '_', 'T', 'O', '_', 'R', 'I', 'G', 'H', 'T'
    ] {
        Some(Direction::Trailing)
    } else {
        None
    }
}

/// Whether `p` occurs in `w` at offset `k`.
fn matches_at(w: &Vec<char>, p: &Vec<char>, k: usize) -> (r: bool)
    requires
        k + p@.len() <= w@.len(),
    ensures
        r == occurs_at(w@, p@, k as int),
{
    let wl = w.len();
    let mut i: usize = 0;
    while i < p.len()
        invariant
            wl == w@.len(),
            k + p@.len() <= w@.len(),
            i <= p@.len(),
            forall|x: int| 0 <= x < i ==> w@[k + x] == p@[x],
        decreases p@.len() - i,
    {
        if w[k + i] != p[i] {
            assert(w@.subrange(k as int, k + p@.len())[i as int] != p@[i as int]);
            return false;
        }
        i += 1;
    }
    assert(w@.subrange(k as int, k + p@.len()) =~= p@);
    true
}

/// Whether the occurrence at offset `k` touches a boundary on the side `d`.
fn boundary_ok(alpha: &Vec<bool>, plen: usize, k: usize, d: Direction) -> (r: bool)
    requires
        k + plen <= alpha@.len(),
    ensures
        forall|w: Seq<char>, p: Seq<char>|
            w.len() == alpha@.len() && p.len() == plen ==> (r == boundary_with(w, p, k as int, alpha@, d)),
{
    let wl = alpha.len();
    match d {
        Direction::Leading => k == 0 || !alpha[k - 1],
        Direction::Trailing => k + plen == wl || !alpha[k + plen],
    }
}

/// Whether `pattern` corrupts `word`, where `alpha` tells for each character
/// of `word` whether it is alphabetic.
pub fn would_corrupt_flagged(
    pattern: &Vec<char>,
    word: &Vec<char>,
    alpha: &Vec<bool>,
    direction: Direction,
) -> (r: bool)
    requires
        alpha@.len() == word@.len(),
    ensures
        r == corrupts_with(pattern@, word@, alpha@, direction),
{
    let wl = word.len();
    let plen = pattern.len();
    if plen > wl {
        return false;
    }
    let last = wl - plen;
    let mut k: usize = 0;
    loop
        invariant
            wl == word@.len(),
            alpha@.len() == wl,
            plen == pattern@.len(),
            last == wl - plen,
            k <= last,
            forall|x: int|
                0 <= x < k ==> !(#[trigger] occurs_at(word@, pattern@, x) && boundary_with(
                    word@,
                    pattern@,
                    x,
                    alpha@,
                    direction,
                )),
        decreases last - k,
    {
        if matches_at(word, pattern, k) && boundary_ok(alpha, plen, k, direction) {
            return true;
        }
        if k == last {
            return false;
        }
        k += 1;
    }
}

/// The alphabetic classification of each character of `word`.
fn alpha_flags_of(word: &Vec<char>) -> (r: Vec<bool>)
    ensures
        r@ == alpha_flags(word@),
{
    let mut r: Vec<bool> = Vec::new();
    let mut i: usize = 0;
    while i < word.len()
        invariant
            i <= word@.len(),
            r@.len() == i,
            forall|x: int| 0 <= x < i ==> r@[x] == alphabetic(word@[x]),
        decreases word@.len() - i,
    {
        r.push(is_alpha(word[i]));
        i += 1;
    }
    assert(r@ =~= alpha_flags(word@));
    r
}

/// Whether `pattern` occurs in `word` with a word boundary on the side that
/// `direction` names: at the word's start or after a non-alphabetic character
/// for `Leading`, at the word's end or before one for `Trailing`.
pub fn would_corrupt(pattern: &str, word: &str, direction: Direction) -> (r: bool)
    ensures
        r == corrupts(pattern@, word@, direction),
{
    let p = chars_of(pattern);
    let w = chars_of(word);
    let alpha = alpha_flags_of(&w);
    would_corrupt_flagged(&p, &w, &alpha, direction)
}

/// For each pattern, in order, whether it corrupts any of `words`.
pub fn batch_check(patterns: &Vec<String>, words: &Vec<String>, direction: Direction) -> (r: Vec<bool>)
    ensures
        r@.len() == patterns@.len(),
        forall|i: int|
            0 <= i < patterns@.len() ==> r@[i] == corrupts_any(
                #[trigger] patterns@[i]@,
                words@.map_values(|w: String| w@),
                direction,
            ),
{
    let ghost ws = words@.map_values(|w: String| w@);
    let mut word_chars: Vec<Vec<char>> = Vec::new();
    let mut word_alpha: Vec<Vec<bool>> = Vec::new();
    let mut j: usize = 0;
    while j < words.len()
        invariant
            j <= words@.len(),
            word_chars@.len() == j,
            word_alpha@.len() == j,
            forall|x: int| 0 <= x < j ==> (#[trigger] word_chars@[x])@ == words@[x]@,
            forall|x: int| 0 <= x < j ==> (#[trigger] word_alpha@[x])@ == alpha_flags(words@[x]@),
        decreases words@.len() - j,
    {
        let w = chars_of(words[j].as_str());
        word_alpha.push(alpha_flags_of(&w));
        word_chars.push(w);
        j += 1;
    }
    let mut r: Vec<bool> = Vec::new();
    let mut i: usize = 0;
    while i < patterns.len()
        invariant
            i <= patterns@.len(),
            r@.len() == i,
            ws == words@.map_values(|w: String| w@),
            word_chars@.len() == ws.len(),
            word_alpha@.len() == ws.len(),
            forall|x: int| 0 <= x < ws.len() ==> (#[trigger] word_chars@[x])@ == ws[x],
            forall|x: int| 0 <= x < ws.len() ==> (#[trigger] word_alpha@[x])@ == alpha_flags(ws[x]),
            forall|x: int| 0 <= x < i ==> r@[x] == corrupts_any(#[trigger] patterns@[x]@, ws, direction),
        decreases patterns@.len() - i,
    {
        let p = chars_of(patterns[i].as_str());
        let mut hit = false;
        let mut j: usize = 0;
        while j < word_chars.len() && !hit
            invariant
                j <= word_chars@.len(),
                p@ == patterns@[i as int]@,
                word_chars@.len() == ws.len(),
                word_alpha@.len() == ws.len(),
                forall|x: int| 0 <= x < ws.len() ==> (#[trigger] word_chars@[x])@ == ws[x],
                forall|x: int| 0 <= x < ws.len() ==> (#[trigger] word_alpha@[x])@ == alpha_flags(ws[x]),
                hit ==> corrupts_any(p@, ws, direction),
                !hit ==> forall|x: int| 0 <= x < j ==> !corrupts(p@, #[trigger] ws[x], direction),
            decreases word_chars@.len() - j,
        {
            if would_corrupt_flagged(&p, &word_chars[j], &word_alpha[j], direction) {
                hit = true;
            }
            j += 1;
        }
        r.push(hit);
        i += 1;
    }
    r
}

/// The direction that `s` names; `InvalidArgument` for any other text.
pub fn parse_direction(s: &str) -> (r: Result<Direction, SubstringError>)
    ensures
        match direction_of(s@) {
            Some(d) => r == Ok::<Direction, SubstringError>(d),
            None => r == Err::<Direction, SubstringError>(SubstringError::InvalidArgument),
        },
{
    let c = chars_of(s);
    if chars_eq(&c, &vec!['R', 'T', 'L']) || chars_eq(
        &c,
        &vec!['R', 'I', 'G', 'H', 'T', '_', 'T', 'O', '_', 'L', 'E', 'F', 'T'],
    ) {
        Ok(Direction::Leading)
    } else if chars_eq(&c, &vec!['L', 'T', 'R']) || chars_eq(
        &c,
        &vec!['L', 'E', 'F', 'T', '_', 'T', 'O', '_', 'R', 'I', 'G', 'H', 'T'],
    ) {
        Ok(Direction::Trailing)
    } else {
        Err(SubstringError::InvalidArgument)
    }
}

/// Whether two character vectors are equal.
fn chars_eq(a: &Vec<char>, b: &Vec<char>) -> (r: bool)
    ensures
        r == (a@ == b@),
{
    if a.len() != b.len() {
        return false;
    }
    let mut i: usize = 0;
    while i < a.len()
        invariant
            a@.len() == b@.len(),
            i <= a@.len(),
            forall|x: int| 0 <= x < i ==> a@[x] == b@[x],
        decreases a@.len() - i,
    {
        if a[i] != b[i] {
            return false;
        }
        i += 1;
    }
    assert(a@ =~= b@);
    true
}

/// For each pattern, whether it corrupts any of `source_words` in the
/// direction that `match_direction` names. Fails with `InvalidArgument`
/// exactly when the name is not recognised.
pub fn batch_check_patterns(
    patterns: Vec<String>,
    source_words: Vec<String>,
    match_direction: String,
) -> (r: Result<Vec<bool>, SubstringError>)
    ensures
        match direction_of(match_direction@) {
            None => r == Err::<Vec<bool>, SubstringError>(SubstringError::InvalidArgument),
            Some(d) => r is Ok && r->Ok_0@.len() == patterns@.len() && forall|i: int|
                0 <= i < patterns@.len() ==> r->Ok_0@[i] == corrupts_any(
                    #[trigger] patterns@[i]@,
                    source_words@.map_values(|w: String| w@),
                    d,
                ),
        },
{
    match parse_direction(match_direction.as_str()) {
        Ok(d) => Ok(batch_check(&patterns, &source_words, d)),
        Err(e) => Err(e),
    }
}

} // verus!
