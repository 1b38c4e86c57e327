use nw_align::{run_alignment, AlignError, AlignmentInput, MatchScores, ScoringConfig};

#[test]
fn test_scoring_config_simple() {
    let input = AlignmentInput {
        seq1: "ACGT".to_string(),
        seq2: "ACGT".to_string(),
        scores: ScoringConfig::Simple(MatchScores { match_score: 5, mismatch: -4 }),
        gap_penalty: -2,
        max_paths: Some(1),
    };

    let result = run_alignment(input).unwrap();
    assert_eq!(result.score, 20);
}

#[test]
fn test_scoring_config_matrix() {
    let input = AlignmentInput {
        seq1: "ACGT".to_string(),
        seq2: "ACGT".to_string(),
        scores: ScoringConfig::Matrix { matrix: "EDNAFULL".to_string() },
        gap_penalty: -2,
        max_paths: Some(1),
    };

    let result = run_alignment(input).unwrap();
    assert_eq!(result.score, 20); // 4 matches x 5 (EDNAFULL)
}

#[test]
fn unknown_matrix_is_a_recoverable_error() {
    let input = AlignmentInput {
        seq1: "ACGT".to_string(),
        seq2: "ACGT".to_string(),
        scores: ScoringConfig::Matrix { matrix: "NUC44".to_string() },
        gap_penalty: -2,
        max_paths: None,
    };
    let err = run_alignment(input).unwrap_err();
    assert_eq!(
        err,
        AlignError::UnknownScoringMatrix { name: "NUC44".to_string(), available: vec!["EDNAFULL".to_string()] }
    );
}

#[test]
fn lower_case_matrix_name_is_accepted() {
    let input = AlignmentInput {
        seq1: "ACGT".to_string(),
        seq2: "ACT".to_string(),
        scores: ScoringConfig::Matrix { matrix: "ednaFull".to_string() },
        gap_penalty: -2,
        max_paths: None,
    };
    let out = run_alignment(input).unwrap();
    assert_eq!(out.score, 13);
}

#[test]
fn absent_limit_defaults_to_one_hundred() {
    let input = AlignmentInput {
        seq1: "ACACACACACAC".to_string(),
        seq2: "CACACACACACA".to_string(),
        scores: ScoringConfig::Simple(MatchScores { match_score: 1, mismatch: -1 }),
        gap_penalty: -1,
        max_paths: None,
    };
    let out = run_alignment(input.clone()).unwrap();
    let explicit = run_alignment(AlignmentInput { max_paths: Some(100), ..input }).unwrap();
    assert!(out.alignments.len() <= 100);
    assert_eq!(out.alignments.len(), explicit.alignments.len());
}

#[test]
fn zero_limit_request_keeps_score_and_matrix() {
    let input = AlignmentInput {
        seq1: "ACGT".to_string(),
        seq2: "ACT".to_string(),
        scores: ScoringConfig::Simple(MatchScores { match_score: 5, mismatch: -4 }),
        gap_penalty: -2,
        max_paths: Some(0),
    };
    let out = run_alignment(input).unwrap();
    assert!(out.alignments.is_empty());
    assert_eq!(out.score, 13);
    assert_eq!(out.matrices.m.len(), 5);
    assert!(out.matrices.m.iter().all(|r| r.len() == 4));
}
