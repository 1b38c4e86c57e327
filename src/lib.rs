//! Optimal global alignment of two character sequences (Needleman-Wunsch, linear gap
//! penalty), with enumeration of every optimal alignment up to a limit.
use crate::algorithm::{is_alignment_of, needleman_wunsch_linear};
use crate::matrices::{get_matrix_by_name, is_ednafull, upper_of};
use crate::scoring::{MatrixScorer, SimpleScorer};
use std::collections::HashMap;
use vstd::prelude::*;

pub mod algorithm;
pub mod matrices;
pub mod scoring;
pub mod text;

verus! {

/// One cell of the dynamic-programming grid visited by an alignment.
#[derive(Clone, Copy, Debug, PartialEq, Eq)]
pub struct PathStep {
    /// Row index (characters of the first sequence consumed).
    pub i: usize,
    /// Column index (characters of the second sequence consumed).
    pub j: usize,
}

/// One optimal alignment: the two gapped strings and the grid cells from `(0, 0)` to `(n, m)`.
#[derive(Clone, Debug)]
pub struct Alignment {
    pub aligned_seq1: String,
    pub aligned_seq2: String,
    pub path: Vec<PathStep>,
}

/// The score grid of one alignment run.
#[derive(Clone, Debug)]
pub struct Matrices {
    /// `m[i][j]` is the optimal score of the first `i` characters against the first `j`.
    pub m: Vec<Vec<i64>>,
}

/// Result of one alignment run.
#[derive(Clone, Debug)]
pub struct AlignmentOutput {
    /// The optimal global score.
    pub score: i64,
    /// Optimal alignments, in exploration order (diagonal, up, left), at most the limit.
    pub alignments: Vec<Alignment>,
    pub matrices: Matrices,
}

/// Match / mismatch scores of the simple scoring mode.
#[derive(Clone, Copy, Debug, PartialEq, Eq)]
pub struct MatchScores {
    pub match_score: i32,
    pub mismatch: i32,
}

/// How character pairs are scored: constant match / mismatch, or a named table.
#[derive(Clone, Debug, PartialEq, Eq)]
pub enum ScoringConfig {
    Simple(MatchScores),
    Matrix { matrix: String },
}

/// One alignment request.
#[derive(Clone, Debug, PartialEq, Eq)]
pub struct AlignmentInput {
    pub seq1: String,
    pub seq2: String,
    pub scores: ScoringConfig,
    /// Added per gap column; the sign is used as given.
    pub gap_penalty: i32,
    /// Limit on the number of alignments returned; 100 when absent.
    pub max_paths: Option<usize>,
}

/// Why a request could not be served.
#[derive(Clone, Debug, PartialEq, Eq)]
pub enum AlignError {
    /// The named substitution table does not exist; `available` lists the known names.
    UnknownScoringMatrix { name: String, available: Vec<String> },
}

/// The path limit used when a request gives none.
pub const DEFAULT_MAX_PATHS: usize = 100;

/// The score of a pair that a substitution table does not cover.
pub const MATRIX_DEFAULT_SCORE: i32 = -4;

/// The path limit that a request asks for.
pub open spec fn requested_max_paths(input: AlignmentInput) -> int {
    match input.max_paths {
        Some(k) => k as int,
        None => DEFAULT_MAX_PATHS as int,
    }
}

/// Serves one request: picks the scoring model, then aligns with it.
pub fn run_alignment(input: AlignmentInput) -> (r: Result<AlignmentOutput, AlignError>)
    requires
        input.seq1@.len() + input.seq2@.len() < u32::MAX,
    ensures
        match input.scores {
            ScoringConfig::Simple(ms) => r is Ok && is_alignment_of(
                r->Ok_0,
                input.seq1@,
                input.seq2@,
                (SimpleScorer { match_score: ms.match_score, mismatch_penalty: ms.mismatch }),
                input.gap_penalty as int,
                requested_max_paths(input),
            ),
            ScoringConfig::Matrix { matrix } => if upper_of(matrix@) == "EDNAFULL"@ {
                r is Ok && exists|m: HashMap<u64, i32>|
                    is_ednafull(m@) && is_alignment_of(
                        r->Ok_0,
                        input.seq1@,
                        input.seq2@,
                        (MatrixScorer { matrix: m, default_score: MATRIX_DEFAULT_SCORE }),
                        input.gap_penalty as int,
                        requested_max_paths(input),
                    )
            } else {
                r is Err && match r->Err_0 {
                    AlignError::UnknownScoringMatrix { name, available } => name@ == matrix@
                        && available@.len() == 1 && available@[0]@ == "EDNAFULL"@,
                }
            },
        },
{
    proof {
        reveal_strlit("EDNAFULL");
    }
    let max_paths = match input.max_paths {
        Some(k) => k,
        None => DEFAULT_MAX_PATHS,
    };
    match &input.scores {
        ScoringConfig::Simple(ms) => {
            let scorer = SimpleScorer { match_score: ms.match_score, mismatch_penalty: ms.mismatch };
            Ok(needleman_wunsch_linear(input.seq1.as_str(), input.seq2.as_str(), &scorer, input.gap_penalty, max_paths))
        },
        ScoringConfig::Matrix { matrix } => {
            match get_matrix_by_name(matrix.as_str()) {
                Some(m) => {
                    let scorer = MatrixScorer { matrix: m, default_score: MATRIX_DEFAULT_SCORE };
                    let out = needleman_wunsch_linear(
                        input.seq1.as_str(),
                        input.seq2.as_str(),
                        &scorer,
                        input.gap_penalty,
                        max_paths,
                    );
                    proof {
                        assert(is_ednafull(scorer.matrix@));
                    }
                    Ok(out)
                },
                None => {
                    let names = crate::matrices::available_matrices();
                    let mut available: Vec<String> = Vec::new();
                    let mut k: usize = 0;
                    while k < names.len()
                        invariant
                            0 <= k <= names@.len(),
                            available@.len() == k,
                            forall|q: int| 0 <= q < k ==> #[trigger] available@[q]@ == names@[q]@,
                        decreases names@.len() - k,
                    {
                        available.push(names[k].to_owned());
                        k = k + 1;
                    }
                    Err(AlignError::UnknownScoringMatrix { name: matrix.clone(), available })
                },
            }
        },
    }
}

} // verus!
