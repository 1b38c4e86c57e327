use nw_align::algorithm::needleman_wunsch_linear;
use nw_align::matrices::get_ednafull_matrix;
use nw_align::scoring::{MatrixScorer, Scorer, SimpleScorer};
use nw_align::{AlignmentOutput, PathStep};

fn simple_scorer(match_score: i32, mismatch: i32) -> SimpleScorer {
    SimpleScorer { match_score, mismatch_penalty: mismatch }
}

fn pairs(out: &AlignmentOutput) -> Vec<(String, String)> {
    out.alignments.iter().map(|a| (a.aligned_seq1.clone(), a.aligned_seq2.clone())).collect()
}

fn rescore(scorer: &SimpleScorer, gap: i64, a1: &str, a2: &str, path: &[PathStep]) -> i64 {
    let c1: Vec<char> = a1.chars().collect();
    let c2: Vec<char> = a2.chars().collect();
    let mut total = 0i64;
    for k in 1..path.len() {
        let (p, q) = (path[k - 1], path[k]);
        if q.i == p.i + 1 && q.j == p.j + 1 {
            total += scorer.score(c1[k - 1], c2[k - 1]) as i64;
        } else {
            total += gap;
        }
    }
    total
}

#[test]
fn test_linear_identical() {
    let scorer = simple_scorer(5, -4);
    let result = needleman_wunsch_linear("ACGT", "ACGT", &scorer, -2, 10);
    assert_eq!(result.score, 20);
    assert_eq!(result.alignments[0].aligned_seq1, "ACGT");
    assert_eq!(result.alignments[0].aligned_seq2, "ACGT");
}

#[test]
fn test_linear_with_gap() {
    let scorer = simple_scorer(5, -4);
    let result = needleman_wunsch_linear("ACGT", "ACT", &scorer, -2, 10);
    assert_eq!(result.score, 13);
}

#[test]
fn test_linear_with_ednafull() {
    let matrix = get_ednafull_matrix();
    let scorer = MatrixScorer { matrix, default_score: -4 };
    let result = needleman_wunsch_linear("ACGT", "ACGT", &scorer, -2, 10);
    assert_eq!(result.score, 20);
}

#[test]
fn gap_example_alignment_is_one_gap_in_second() {
    let scorer = simple_scorer(5, -4);
    let result = needleman_wunsch_linear("ACGT", "ACT", &scorer, -2, 10);
    assert_eq!(pairs(&result), vec![("ACGT".to_string(), "AC-T".to_string())]);
    let path: Vec<(usize, usize)> = result.alignments[0].path.iter().map(|p| (p.i, p.j)).collect();
    assert_eq!(path, vec![(0, 0), (1, 1), (2, 2), (3, 2), (4, 3)]);
}

#[test]
fn score_is_last_cell_and_paths_span_grid() {
    let scorer = simple_scorer(1, -1);
    let result = needleman_wunsch_linear("GATTACA", "GCATGCU", &scorer, -1, 100);
    assert_eq!(result.matrices.m.len(), 8);
    assert!(result.matrices.m.iter().all(|row| row.len() == 8));
    assert_eq!(result.score, result.matrices.m[7][7]);
    assert!(!result.alignments.is_empty());
    for a in &result.alignments {
        assert_eq!(a.path[0], PathStep { i: 0, j: 0 });
        assert_eq!(*a.path.last().unwrap(), PathStep { i: 7, j: 7 });
    }
}

#[test]
fn rescored_alignments_match_score() {
    let scorer = simple_scorer(1, -1);
    let result = needleman_wunsch_linear("GATTACA", "GCATGCU", &scorer, -1, 100);
    for a in &result.alignments {
        assert_eq!(rescore(&scorer, -1, &a.aligned_seq1, &a.aligned_seq2, &a.path), result.score);
    }
}

#[test]
fn raising_the_limit_extends_the_list() {
    let scorer = simple_scorer(1, -1);
    let small = needleman_wunsch_linear("GATTACA", "GCATGCU", &scorer, -1, 1);
    let large = needleman_wunsch_linear("GATTACA", "GCATGCU", &scorer, -1, 100);
    assert_eq!(small.alignments.len(), 1);
    assert!(large.alignments.len() >= small.alignments.len());
    let small_pairs = pairs(&small);
    let large_pairs = pairs(&large);
    assert_eq!(small_pairs[..], large_pairs[..small_pairs.len()]);
}

#[test]
fn identical_sequences_score_five_per_character() {
    let scorer = simple_scorer(5, -4);
    for s in ["", "A", "GATTACA", "acgtacgtacgt"] {
        let result = needleman_wunsch_linear(s, s, &scorer, -2, 3);
        let k = s.chars().count() as i64;
        assert_eq!(result.score, 5 * k);
        assert!(result.alignments.iter().any(|a| a.aligned_seq1 == s && a.aligned_seq2 == s));
    }
}

#[test]
fn zero_limit_gives_no_alignments_but_full_matrix() {
    let scorer = simple_scorer(5, -4);
    let result = needleman_wunsch_linear("ACGT", "ACT", &scorer, -2, 0);
    assert!(result.alignments.is_empty());
    assert_eq!(result.score, 13);
    assert_eq!(result.matrices.m.len(), 5);
    assert_eq!(result.matrices.m[0], vec![0, -2, -4, -6]);
    assert_eq!(result.matrices.m[4][3], 13);
}

#[test]
fn empty_sequences_give_all_gap_alignments() {
    let scorer = simple_scorer(5, -4);
    let result = needleman_wunsch_linear("", "", &scorer, -2, 5);
    assert_eq!(result.score, 0);
    assert_eq!(pairs(&result), vec![(String::new(), String::new())]);
    let result = needleman_wunsch_linear("AC", "", &scorer, -2, 5);
    assert_eq!(result.score, -4);
    assert_eq!(pairs(&result), vec![("AC".to_string(), "--".to_string())]);
    let result = needleman_wunsch_linear("", "AC", &scorer, -2, 5);
    assert_eq!(pairs(&result), vec![("--".to_string(), "AC".to_string())]);
}

#[test]
fn predecessor_filter_keeps_only_the_best_source() {
    // At cell (2, 1) the diagonal and up moves tie on value, but only the up move comes
    // from the higher-scoring cell, so the "-A" placement is not reported.
    let scorer = simple_scorer(5, -4);
    let result = needleman_wunsch_linear("AA", "A", &scorer, -2, 10);
    assert_eq!(result.score, 3);
    assert_eq!(pairs(&result), vec![("AA".to_string(), "A-".to_string())]);
}

#[test]
fn ties_are_explored_diagonal_then_up_then_left() {
    let scorer = simple_scorer(1, -1);
    let result = needleman_wunsch_linear("AB", "BA", &scorer, -1, 10);
    assert_eq!(result.score, -1);
    assert_eq!(
        pairs(&result),
        vec![("-AB".to_string(), "BA-".to_string()), ("AB-".to_string(), "-BA".to_string())]
    );
}

#[test]
fn simple_scoring_ignores_case() {
    let scorer = simple_scorer(5, -4);
    assert_eq!(scorer.score('a', 'A'), 5);
    assert_eq!(scorer.score('a', 'C'), -4);
    let result = needleman_wunsch_linear("acgt", "ACGT", &scorer, -2, 1);
    assert_eq!(result.score, 20);
}

#[test]
fn positive_gap_is_a_bonus() {
    let scorer = simple_scorer(1, -1);
    let result = needleman_wunsch_linear("A", "A", &scorer, 3, 10);
    assert_eq!(result.score, 6);
}
