use nw_align::matrices::{available_matrices, get_ednafull_matrix, get_matrix_by_name};
use nw_align::scoring::{pair_key, MatrixScorer, Scorer};

#[test]
fn test_ednafull_basic_scores() {
    let matrix = get_ednafull_matrix();

    // Check match scores (diagonal)
    assert_eq!(matrix.get(&pair_key('A', 'A')), Some(&5));
    assert_eq!(matrix.get(&pair_key('T', 'T')), Some(&5));
    assert_eq!(matrix.get(&pair_key('G', 'G')), Some(&5));
    assert_eq!(matrix.get(&pair_key('C', 'C')), Some(&5));

    // Check mismatch scores
    assert_eq!(matrix.get(&pair_key('A', 'T')), Some(&-4));
    assert_eq!(matrix.get(&pair_key('A', 'G')), Some(&-4));
    assert_eq!(matrix.get(&pair_key('A', 'C')), Some(&-4));

    // Check ambiguous codes
    assert_eq!(matrix.get(&pair_key('A', 'W')), Some(&1)); // W = A or T
    assert_eq!(matrix.get(&pair_key('A', 'R')), Some(&1)); // R = A or G
    assert_eq!(matrix.get(&pair_key('N', 'N')), Some(&-1)); // N = any
}

#[test]
fn test_ednafull_case_insensitive() {
    let matrix = get_ednafull_matrix();

    assert_eq!(matrix.get(&pair_key('a', 'a')), Some(&5));
    assert_eq!(matrix.get(&pair_key('A', 'a')), Some(&5));
    assert_eq!(matrix.get(&pair_key('a', 'A')), Some(&5));
    assert_eq!(matrix.get(&pair_key('a', 't')), Some(&-4));
}

#[test]
fn test_ednafull_symmetry() {
    let matrix = get_ednafull_matrix();

    // Matrix should be symmetric
    for c1 in ['A', 'T', 'G', 'C', 'N'] {
        for c2 in ['A', 'T', 'G', 'C', 'N'] {
            assert_eq!(
                matrix.get(&pair_key(c1, c2)),
                matrix.get(&pair_key(c2, c1)),
                "Matrix should be symmetric for ({}, {})",
                c1,
                c2
            );
        }
    }
}

#[test]
fn test_get_matrix_by_name() {
    assert!(get_matrix_by_name("EDNAFULL").is_some());
    assert!(get_matrix_by_name("ednafull").is_some());
    assert!(get_matrix_by_name("NUC4.4").is_none());
    assert!(get_matrix_by_name("NUC44").is_none());
    assert!(get_matrix_by_name("UNKNOWN").is_none());
}

#[test]
fn test_available_matrices() {
    let matrices = available_matrices();
    assert_eq!(matrices, vec!["EDNAFULL"]);
}

#[test]
fn ednafull_table_has_every_case_combination() {
    let matrix = get_ednafull_matrix();
    assert_eq!(matrix.len(), 15 * 15 * 4);
    assert_eq!(matrix.get(&pair_key('s', 'g')), Some(&1));
    assert_eq!(matrix.get(&pair_key('S', 'g')), Some(&1));
    assert_eq!(matrix.get(&pair_key('X', 'A')), None);
}

#[test]
fn ednafull_full_alphabet_is_symmetric_and_case_blind() {
    let scorer = MatrixScorer { matrix: get_ednafull_matrix(), default_score: -4 };
    let alphabet = "ATGCSWRYKMBVHDN";
    for a in alphabet.chars() {
        for b in alphabet.chars() {
            assert_eq!(scorer.score(a, b), scorer.score(b, a));
            let la = a.to_ascii_lowercase();
            assert_eq!(scorer.score(la, b), scorer.score(a, b));
            assert_eq!(scorer.score(la, b.to_ascii_lowercase()), scorer.score(a, b));
        }
    }
}

#[test]
fn matrix_scoring_uses_default_for_uncovered_pairs() {
    let scorer = MatrixScorer { matrix: get_ednafull_matrix(), default_score: -7 };
    assert_eq!(scorer.score('X', 'A'), -7);
    assert_eq!(scorer.score('a', 'w'), 1);
    assert_eq!(scorer.score('b', 'v'), -2);
}
