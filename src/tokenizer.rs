//! Splitting text into lowercase alphabetic words.

use vstd::prelude::*;

verus! {

/// A character that may stand in a word: an ASCII lowercase letter.
pub open spec fn is_word_char(c: char) -> bool {
    'a' <= c && c <= 'z'
}

/// The maximal runs of word characters in `s`, from left to right.
pub open spec fn word_runs(s: Seq<char>) -> Seq<Seq<char>>
    decreases s.len(),
{
    if s.len() == 0 {
        seq![]
    } else {
        let before = word_runs(s.drop_last());
        let c = s.last();
        if !is_word_char(c) {
            before
        } else if s.len() >= 2 && is_word_char(s[s.len() - 2]) {
            before.drop_last().push(before.last().push(c))
        } else {
            before.push(seq![c])
        }
    }
}

/// The views of a sequence of strings.
pub open spec fn views(v: Seq<String>) -> Seq<Seq<char>> {
    v.map_values(|w: String| w@)
}

/// What `str::to_lowercase` makes of a string (Unicode lowercase mapping).
pub uninterp spec fn lower_of(s: Seq<char>) -> Seq<char>;

/// Relies on `str::to_lowercase`: the result depends on the characters alone,
/// and the empty string stays empty.
#[verifier::external_body]
fn lowercase(s: &str) -> (r: String)
    ensures
        r@ == lower_of(s@),
        s@.len() == 0 ==> r@.len() == 0,
{
    s.to_lowercase()
}

/// The pattern of a word: one or more letters `a` to `z`.
pub const WORD_PATTERN: &'static str = "[a-z]+";

/// Relies on `regex::Regex::new` and `regex::Regex::find_iter`: the pattern
/// `[a-z]+` compiles, and `find_iter` yields the successive non-overlapping
/// leftmost-first matches, which for a greedy repetition of one character
/// class are the maximal runs of that class.
#[verifier::external_body]
fn find_all(pattern: &str, s: &str) -> (r: Vec<String>)
    requires
        pattern@ == WORD_PATTERN@,
    ensures
        views(r@) == word_runs(s@),
{
    regex::Regex::new(pattern).unwrap().find_iter(s).map(|m| m.as_str().to_owned()).collect()
}

/// Lowercases `text`, then returns each maximal run of letters `a`..`z` in
/// it, in order of appearance. Every other character separates words.
pub fn tokenize(text: &str) -> (r: Vec<String>)
    ensures
        views(r@) == word_runs(lower_of(text@)),
        text@.len() == 0 ==> r@.len() == 0,
{
    let lower = lowercase(text);
    let words = find_all(WORD_PATTERN, lower.as_str());
    proof {
        if text@.len() == 0 {
            assert(lower@ =~= Seq::<char>::empty());
            assert(views(words@).len() == 0);
        }
    }
    words
}

} // verus!
