//! Character-pair scoring models consumed by the alignment engine.
use std::collections::HashMap;
use vstd::prelude::*;

verus! {

broadcast use vstd::std_specs::hash::group_hash_axioms;

/// ASCII upper-casing of one character: `a..=z` map to `A..=Z`, all else is unchanged.
pub open spec fn ascii_upper(c: char) -> char {
    if 'a' <= c && c <= 'z' {
        ((c as u32 - 32) as u8) as char
    } else {
        c
    }
}

/// Relies on `char::to_ascii_uppercase`: ASCII lower-case letters become upper case,
/// every other character is returned unchanged.
#[verifier::external_body]
pub(crate) fn to_ascii_upper(c: char) -> (r: char)
    ensures
        r == ascii_upper(c),
{
    c.to_ascii_uppercase()
}

/// ASCII lower-casing of one character: `A..=Z` map to `a..=z`, all else is unchanged.
pub open spec fn ascii_lower(c: char) -> char {
    if 'A' <= c && c <= 'Z' {
        ((c as u32 + 32) as u8) as char
    } else {
        c
    }
}

/// Relies on `char::to_ascii_lowercase`: ASCII upper-case letters become lower case,
/// every other character is returned unchanged.
#[verifier::external_body]
pub(crate) fn to_ascii_lower(c: char) -> (r: char)
    ensures
        r == ascii_lower(c),
{
    c.to_ascii_lowercase()
}

/// The integer key under which the ordered pair `(a, b)` is stored in a substitution table.
pub open spec fn pair_key_spec(a: char, b: char) -> u64 {
    ((a as u32) as int * 0x1_0000_0000 + (b as u32) as int) as u64
}

/// Encodes the ordered pair `(a, b)` as a single integer key; distinct pairs get distinct keys.
pub fn pair_key(a: char, b: char) -> (r: u64)
    ensures
        r == pair_key_spec(a, b),
{
    (a as u32 as u64) * 0x1_0000_0000 + (b as u32 as u64)
}

/// Two pairs share a key only if they are the same pair.
pub proof fn lemma_pair_key_injective(a: char, b: char, c: char, d: char)
    requires
        pair_key_spec(a, b) == pair_key_spec(c, d),
    ensures
        a == c && b == d,
{
    assert((a as u32) == (c as u32) && (b as u32) == (d as u32));
}

/// Scores one aligned pair of characters.
pub trait Scorer {
    /// The score of aligning `a` against `b`.
    spec fn pair_score(&self, a: char, b: char) -> i32;

    /// Computes the score of aligning `a` against `b`.
    fn score(&self, a: char, b: char) -> (r: i32)
        ensures
            r == self.pair_score(a, b),
    ;
}

/// Constant match / mismatch scoring, compared without regard to ASCII case.
pub struct SimpleScorer {
    pub match_score: i32,
    pub mismatch_penalty: i32,
}

impl Scorer for SimpleScorer {
    open spec fn pair_score(&self, a: char, b: char) -> i32 {
        if ascii_upper(a) == ascii_upper(b) {
            self.match_score
        } else {
            self.mismatch_penalty
        }
    }

    fn score(&self, a: char, b: char) -> (r: i32) {
        if to_ascii_upper(a) == to_ascii_upper(b) {
            self.match_score
        } else {
            self.mismatch_penalty
        }
    }
}

/// Substitution-table scoring: the table is looked up on the upper-cased pair, and
/// pairs that it does not hold score `default_score`.
pub struct MatrixScorer {
    pub matrix: HashMap<u64, i32>,
    pub default_score: i32,
}

impl Scorer for MatrixScorer {
    open spec fn pair_score(&self, a: char, b: char) -> i32 {
        let k = pair_key_spec(ascii_upper(a), ascii_upper(b));
        if self.matrix@.contains_key(k) {
            self.matrix@[k]
        } else {
            self.default_score
        }
    }

    fn score(&self, a: char, b: char) -> (r: i32) {
        let k = pair_key(to_ascii_upper(a), to_ascii_upper(b));
        match self.matrix.get(&k) {
            Some(v) => *v,
            None => self.default_score,
        }
    }
}

} // verus!
