//! The built-in nucleotide substitution table and the registry of table names.
use crate::scoring::{MatrixScorer, Scorer, ascii_lower, ascii_upper, lemma_pair_key_injective, pair_key, pair_key_spec, to_ascii_lower};
use crate::text::chars_of;
use std::collections::HashMap;
use vstd::prelude::*;

verus! {

broadcast use vstd::std_specs::hash::group_hash_axioms;

/// Number of symbols of the nucleotide alphabet.
pub const ALPHABET_LEN: usize = 15;

/// The `i`-th symbol of the nucleotide alphabet (bases and ambiguity codes).
pub open spec fn alphabet_char(i: int) -> char {
    if i == 0 {
        'A'
    } else if i == 1 {
        'T'
    } else if i == 2 {
        'G'
    } else if i == 3 {
        'C'
    } else if i == 4 {
        'S'
    } else if i == 5 {
        'W'
    } else if i == 6 {
        'R'
    } else if i == 7 {
        'Y'
    } else if i == 8 {
        'K'
    } else if i == 9 {
        'M'
    } else if i == 10 {
        'B'
    } else if i == 11 {
        'V'
    } else if i == 12 {
        'H'
    } else if i == 13 {
        'D'
    } else {
        'N'
    }
}

/// Position of an upper-case symbol in the nucleotide alphabet, or -1.
pub open spec fn alphabet_index(c: char) -> int {
    if c == 'A' {
        0
    } else if c == 'T' {
        1
    } else if c == 'G' {
        2
    } else if c == 'C' {
        3
    } else if c == 'S' {
        4
    } else if c == 'W' {
        5
    } else if c == 'R' {
        6
    } else if c == 'Y' {
        7
    } else if c == 'K' {
        8
    } else if c == 'M' {
        9
    } else if c == 'B' {
        10
    } else if c == 'V' {
        11
    } else if c == 'H' {
        12
    } else if c == 'D' {
        13
    } else if c == 'N' {
        14
    } else {
        -1
    }
}

/// The EDNAFULL scores, row by row in alphabet order.
pub open spec fn ednafull_values() -> Seq<int> {
    seq![
        5, -4, -4, -4, -4, 1, 1, -4, -4, 1, -4, -1, -1, -1, -2,
        -4, 5, -4, -4, -4, 1, -4, 1, 1, -4, -1, -4, -1, -1, -2,
        -4, -4, 5, -4, 1, -4, 1, -4, 1, -4, -1, -1, -4, -1, -2,
        -4, -4, -4, 5, 1, -4, -4, 1, -4, 1, -1, -1, -1, -4, -2,
        -4, -4, 1, 1, -1, -4, -2, -2, -2, -2, -1, -1, -3, -3, -1,
        1, 1, -4, -4, -4, -1, -2, -2, -2, -2, -3, -3, -1, -1, -1,
        1, -4, 1, -4, -2, -2, -1, -4, -2, -2, -3, -1, -3, -1, -1,
        -4, 1, -4, 1, -2, -2, -4, -1, -2, -2, -1, -3, -1, -3, -1,
        -4, 1, 1, -4, -2, -2, -2, -2, -1, -4, -1, -3, -3, -1, -1,
        1, -4, -4, 1, -2, -2, -2, -2, -4, -1, -3, -1, -1, -3, -1,
        -4, -1, -1, -1, -1, -3, -3, -1, -1, -3, -1, -2, -2, -2, -1,
        -1, -4, -1, -1, -1, -3, -1, -3, -3, -1, -2, -1, -2, -2, -1,
        -1, -1, -4, -1, -3, -1, -3, -1, -3, -1, -2, -2, -1, -2, -1,
        -1, -1, -1, -4, -3, -1, -1, -3, -1, -3, -2, -2, -2, -1, -1,
        -2, -2, -2, -2, -1, -1, -1, -1, -1, -1, -1, -1, -1, -1, -1,
    ]
}

/// The score of alphabet positions `i` and `j`, read from the upper triangle of the table
/// so that it is symmetric by construction.
pub open spec fn ednafull_score(i: int, j: int) -> int {
    if i <= j {
        ednafull_values()[15 * i + j]
    } else {
        ednafull_values()[15 * j + i]
    }
}

/// Whether the table covers the pair `(x, y)`: both are alphabet symbols, in either case.
pub open spec fn in_ednafull(x: char, y: char) -> bool {
    alphabet_index(ascii_upper(x)) >= 0 && alphabet_index(ascii_upper(y)) >= 0
}

/// The table's score for a covered pair.
pub open spec fn ednafull_entry(x: char, y: char) -> int {
    ednafull_score(alphabet_index(ascii_upper(x)), alphabet_index(ascii_upper(y)))
}

/// `m` is the EDNAFULL table keyed by `pair_key`: exactly the covered pairs, in all four
/// case combinations, with their scores.
pub open spec fn is_ednafull(m: Map<u64, i32>) -> bool {
    &&& forall|x: char, y: char| m.contains_key(#[trigger] pair_key_spec(x, y)) <==> in_ednafull(x, y)
    &&& forall|x: char, y: char| in_ednafull(x, y) ==> m[#[trigger] pair_key_spec(x, y)] as int == ednafull_entry(x, y)
    &&& forall|k: u64| m.contains_key(k) ==> exists|x: char, y: char| k == #[trigger] pair_key_spec(x, y)
}

proof fn lemma_fold(x: char, i: int)
    requires
        0 <= i < 15,
    ensures
        alphabet_index(alphabet_char(i)) == i,
        'A' <= alphabet_char(i) <= 'Z',
        (alphabet_index(ascii_upper(x)) == i) <==> (x == alphabet_char(i) || x == ascii_lower(alphabet_char(i))),
{
}

/// Whether table cell `(a, b)` is already filled when the fill is at cell `(i, j)`.
pub open spec fn filled(a: int, b: int, i: int, j: int) -> bool {
    a < i || (a == i && b < j)
}

/// Builds the EDNAFULL nucleotide substitution table (alphabet A T G C S W R Y K M B V H D N),
/// with every pair stored in all four upper / lower case combinations.
pub fn get_ednafull_matrix() -> (r: HashMap<u64, i32>)
    ensures
        is_ednafull(r@),
{
    let chars: [char; 15] = ['A', 'T', 'G', 'C', 'S', 'W', 'R', 'Y', 'K', 'M', 'B', 'V', 'H', 'D', 'N'];
    let values: [i32; 225] = [
        5, -4, -4, -4, -4, 1, 1, -4, -4, 1, -4, -1, -1, -1, -2,
        -4, 5, -4, -4, -4, 1, -4, 1, 1, -4, -1, -4, -1, -1, -2,
        -4, -4, 5, -4, 1, -4, 1, -4, 1, -4, -1, -1, -4, -1, -2,
        -4, -4, -4, 5, 1, -4, -4, 1, -4, 1, -1, -1, -1, -4, -2,
        -4, -4, 1, 1, -1, -4, -2, -2, -2, -2, -1, -1, -3, -3, -1,
        1, 1, -4, -4, -4, -1, -2, -2, -2, -2, -3, -3, -1, -1, -1,
        1, -4, 1, -4, -2, -2, -1, -4, -2, -2, -3, -1, -3, -1, -1,
        -4, 1, -4, 1, -2, -2, -4, -1, -2, -2, -1, -3, -1, -3, -1,
        -4, 1, 1, -4, -2, -2, -2, -2, -1, -4, -1, -3, -3, -1, -1,
        1, -4, -4, 1, -2, -2, -2, -2, -4, -1, -3, -1, -1, -3, -1,
        -4, -1, -1, -1, -1, -3, -3, -1, -1, -3, -1, -2, -2, -2, -1,
        -1, -4, -1, -1, -1, -3, -1, -3, -3, -1, -2, -1, -2, -2, -1,
        -1, -1, -4, -1, -3, -1, -3, -1, -3, -1, -2, -2, -1, -2, -1,
        -1, -1, -1, -4, -3, -1, -1, -3, -1, -3, -2, -2, -2, -1, -1,
        -2, -2, -2, -2, -1, -1, -1, -1, -1, -1, -1, -1, -1, -1, -1,
    ];
    assert(chars@ =~= Seq::new(15, |i: int| alphabet_char(i)));
    assert(values@.map_values(|v: i32| v as int) =~= ednafull_values());

    let mut matrix: HashMap<u64, i32> = HashMap::new();
    let mut i: usize = 0;
    while i < ALPHABET_LEN
        invariant
            0 <= i <= 15,
            chars@ == Seq::new(15, |i: int| alphabet_char(i)),
            values@.map_values(|v: i32| v as int) == ednafull_values(),
            forall|x: char, y: char|
                matrix@.contains_key(#[trigger] pair_key_spec(x, y)) <==> (in_ednafull(x, y) && filled(
                    alphabet_index(ascii_upper(x)),
                    alphabet_index(ascii_upper(y)),
                    i as int,
                    0,
                )),
            forall|x: char, y: char|
                matrix@.contains_key(#[trigger] pair_key_spec(x, y)) ==> matrix@[pair_key_spec(x, y)] as int
                    == ednafull_entry(x, y),
            forall|k: u64| matrix@.contains_key(k) ==> exists|x: char, y: char| k == #[trigger] pair_key_spec(x, y),
        decreases 15 - i,
    {
        let mut j: usize = 0;
        while j < ALPHABET_LEN
            invariant
                0 <= i < 15,
                0 <= j <= 15,
                chars@ == Seq::new(15, |i: int| alphabet_char(i)),
                values@.map_values(|v: i32| v as int) == ednafull_values(),
                forall|x: char, y: char|
                    matrix@.contains_key(#[trigger] pair_key_spec(x, y)) <==> (in_ednafull(x, y) && filled(
                        alphabet_index(ascii_upper(x)),
                        alphabet_index(ascii_upper(y)),
                        i as int,
                        j as int,
                    )),
                forall|x: char, y: char|
                    matrix@.contains_key(#[trigger] pair_key_spec(x, y)) ==> matrix@[pair_key_spec(x, y)] as int
                        == ednafull_entry(x, y),
                forall|k: u64| matrix@.contains_key(k) ==> exists|x: char, y: char| k == #[trigger] pair_key_spec(x, y),
            decreases 15 - j,
        {
            let c1 = chars[i];
            let c2 = chars[j];
            let v = if i <= j {
                values[15 * i + j]
            } else {
                values[15 * j + i]
            };
            let l1 = to_ascii_lower(c1);
            let l2 = to_ascii_lower(c2);
            proof {
                lemma_fold(c1, i as int);
                lemma_fold(c2, j as int);
                assert(v as int == ednafull_values()[15 * (if i <= j { i as int } else { j as int }) + (if i <= j { j as int } else { i as int })]);
            }
            let ghost before = matrix@;
            matrix.insert(pair_key(c1, c2), v);
            matrix.insert(pair_key(l1, c2), v);
            matrix.insert(pair_key(c1, l2), v);
            matrix.insert(pair_key(l1, l2), v);
            proof {
                let k1 = pair_key_spec(c1, c2);
                let k2 = pair_key_spec(l1, c2);
                let k3 = pair_key_spec(c1, l2);
                let k4 = pair_key_spec(l1, l2);
                assert(matrix@ == before.insert(k1, v).insert(k2, v).insert(k3, v).insert(k4, v));
                assert forall|x: char, y: char|
                    matrix@.contains_key(#[trigger] pair_key_spec(x, y)) <==> (in_ednafull(x, y) && filled(
                        alphabet_index(ascii_upper(x)),
                        alphabet_index(ascii_upper(y)),
                        i as int,
                        j + 1,
                    )) && (matrix@.contains_key(pair_key_spec(x, y)) ==> matrix@[pair_key_spec(x, y)] as int
                        == ednafull_entry(x, y)) by {
                    lemma_fold(x, i as int);
                    lemma_fold(y, j as int);
                    if pair_key_spec(x, y) == k1 {
                        lemma_pair_key_injective(x, y, c1, c2);
                    }
                    if pair_key_spec(x, y) == k2 {
                        lemma_pair_key_injective(x, y, l1, c2);
                    }
                    if pair_key_spec(x, y) == k3 {
                        lemma_pair_key_injective(x, y, c1, l2);
                    }
                    if pair_key_spec(x, y) == k4 {
                        lemma_pair_key_injective(x, y, l1, l2);
                    }
                }
                assert forall|k: u64| matrix@.contains_key(k) implies exists|x: char, y: char|
                    k == #[trigger] pair_key_spec(x, y) by {
                    if k == k1 {
                        assert(k == pair_key_spec(c1, c2));
                    } else if k == k2 {
                        assert(k == pair_key_spec(l1, c2));
                    } else if k == k3 {
                        assert(k == pair_key_spec(c1, l2));
                    } else if k == k4 {
                        assert(k == pair_key_spec(l1, l2));
                    } else {
                        assert(before.contains_key(k));
                    }
                }
            }
            j = j + 1;
        }
        i = i + 1;
    }
    matrix
}

/// Matrix scoring over the EDNAFULL table is symmetric and ignores the case of either
/// character, for all symbols of the alphabet.
pub proof fn law_matrix_scoring_symmetric(sc: MatrixScorer, a: char, b: char)
    requires
        is_ednafull(sc.matrix@),
        in_ednafull(a, b),
    ensures
        sc.pair_score(a, b) == sc.pair_score(b, a),
        sc.pair_score(ascii_lower(a), ascii_upper(b)) == sc.pair_score(ascii_upper(a), ascii_upper(b)),
{
    assert(in_ednafull(ascii_upper(a), ascii_upper(b)));
    assert(in_ednafull(ascii_upper(b), ascii_upper(a)));
    assert(ascii_upper(ascii_lower(a)) == ascii_upper(a));
    assert(ascii_upper(ascii_upper(b)) == ascii_upper(b));
    assert(ascii_upper(ascii_upper(a)) == ascii_upper(a));
}

/// The names of the built-in substitution tables.
pub fn available_matrices() -> (r: Vec<&'static str>)
    ensures
        r@.len() == 1,
        r@[0]@ == "EDNAFULL"@,
{
    let mut r: Vec<&'static str> = Vec::new();
    r.push("EDNAFULL");
    r
}

/// The result of `str::to_uppercase` on a string with the characters `s`.
pub uninterp spec fn upper_of(s: Seq<char>) -> Seq<char>;

/// Relies on `str::to_uppercase`: the Unicode upper-case form, a function of the
/// characters alone.
#[verifier::external_body]
fn to_uppercase(s: &str) -> (r: String)
    ensures
        r@ == upper_of(s@),
{
    s.to_uppercase()
}

/// Whether two strings hold the same characters.
pub fn same_chars(a: &str, b: &str) -> (r: bool)
    ensures
        r == (a@ == b@),
{
    let x = chars_of(a);
    let y = chars_of(b);
    if x.len() != y.len() {
        return false;
    }
    let mut k: usize = 0;
    while k < x.len()
        invariant
            x@ == a@,
            y@ == b@,
            x@.len() == y@.len(),
            0 <= k <= x@.len(),
            forall|q: int| 0 <= q < k ==> x@[q] == y@[q],
        decreases x@.len() - k,
    {
        if x[k] != y[k] {
            return false;
        }
        k = k + 1;
    }
    assert(x@ =~= y@);
    true
}

/// Resolves an already upper-cased table name: only `EDNAFULL` is known.
pub fn matrix_for_upper_name(name: &str) -> (r: Option<HashMap<u64, i32>>)
    ensures
        r is Some <==> name@ == "EDNAFULL"@,
        r is Some ==> is_ednafull(r->0@),
{
    if same_chars(name, "EDNAFULL") {
        Some(get_ednafull_matrix())
    } else {
        None
    }
}

/// Resolves a table name without regard to case; unknown names give `None`.
pub fn get_matrix_by_name(name: &str) -> (r: Option<HashMap<u64, i32>>)
    ensures
        r is Some <==> upper_of(name@) == "EDNAFULL"@,
        r is Some ==> is_ednafull(r->0@),
{
    let upper = to_uppercase(name);
    matrix_for_upper_name(upper.as_str())
}

} // verus!
