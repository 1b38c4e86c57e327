//! The alignment engine: score-grid fill, tie-aware traceback directions, and bounded
//! depth-first enumeration of optimal alignments.
use crate::scoring::{Scorer, SimpleScorer};
use crate::text::{chars_of, push_char};
use crate::{Alignment, AlignmentOutput, Matrices, PathStep};
use vstd::prelude::*;

verus! {

/// Move bit: consume one character of each sequence.
pub const DIAG: u8 = 1;

/// Move bit: consume one character of the first sequence against a gap.
pub const UP: u8 = 2;

/// Move bit: consume one character of the second sequence against a gap.
pub const LEFT: u8 = 4;

/// The gap symbol of aligned strings.
pub const GAP: char = '-';

pub open spec fn max3(a: int, b: int, c: int) -> int {
    let ab = if a >= b { a } else { b };
    if ab >= c { ab } else { c }
}

/// Optimal score of the first `i` characters of `s1` against the first `j` of `s2`.
pub open spec fn dp<S: Scorer>(s1: Seq<char>, s2: Seq<char>, sc: S, gap: int, i: nat, j: nat) -> int
    decreases i + j,
{
    if i == 0 && j == 0 {
        0
    } else if i == 0 {
        dp(s1, s2, sc, gap, 0, (j - 1) as nat) + gap
    } else if j == 0 {
        dp(s1, s2, sc, gap, (i - 1) as nat, 0) + gap
    } else {
        max3(
            dp(s1, s2, sc, gap, (i - 1) as nat, (j - 1) as nat) + sc.pair_score(s1[i - 1], s2[j - 1]) as int,
            dp(s1, s2, sc, gap, (i - 1) as nat, j) + gap,
            dp(s1, s2, sc, gap, i, (j - 1) as nat) + gap,
        )
    }
}

/// The direction mask of one cell, from its three candidate moves given as
/// (transition value, predecessor score): a move's bit is set when its transition value
/// is the best one and its predecessor score is the best among the moves that tie on it.
pub open spec fn optimal_mask(d: int, pd: int, u: int, pu: int, l: int, pl: int) -> u8 {
    let best = max3(d, u, l);
    let kd = d == best;
    let ku = u == best;
    let kl = l == best;
    let bd = kd && (ku ==> pd >= pu) && (kl ==> pd >= pl);
    let bu = ku && (kd ==> pu >= pd) && (kl ==> pu >= pl);
    let bl = kl && (kd ==> pl >= pd) && (ku ==> pl >= pu);
    ((if bd { 1int } else { 0 }) + (if bu { 2int } else { 0 }) + (if bl { 4int } else { 0 })) as u8
}

/// The direction mask of cell `(i, j)`.
pub open spec fn direction<S: Scorer>(s1: Seq<char>, s2: Seq<char>, sc: S, gap: int, i: nat, j: nat) -> u8 {
    if i == 0 && j == 0 {
        0
    } else if i == 0 {
        LEFT
    } else if j == 0 {
        UP
    } else {
        let pd = dp(s1, s2, sc, gap, (i - 1) as nat, (j - 1) as nat);
        let pu = dp(s1, s2, sc, gap, (i - 1) as nat, j);
        let pl = dp(s1, s2, sc, gap, i, (j - 1) as nat);
        optimal_mask(pd + sc.pair_score(s1[i - 1], s2[j - 1]) as int, pd, pu + gap, pu, pl + gap, pl)
    }
}

/// The full direction grid, `(|s1| + 1) x (|s2| + 1)`.
pub open spec fn direction_grid<S: Scorer>(s1: Seq<char>, s2: Seq<char>, sc: S, gap: int) -> Seq<Seq<u8>> {
    Seq::new(
        s1.len() + 1,
        |i: int| Seq::new(s2.len() + 1, |j: int| direction(s1, s2, sc, gap, i as nat, j as nat)),
    )
}

/// An alignment as values: the two gapped strings and the visited cells.
pub type Aligned = (Seq<char>, Seq<char>, Seq<(int, int)>);

/// Whether `mask` has `bit` set.
pub open spec fn has(mask: u8, bit: u8) -> bool {
    mask & bit != 0
}

/// Every alignment of `s1[..i]` against `s2[..j]` that follows the grid's direction bits
/// back to `(0, 0)`, in depth-first order: diagonal moves first, then up, then left.
pub open spec fn paths_from(g: Seq<Seq<u8>>, s1: Seq<char>, s2: Seq<char>, i: nat, j: nat) -> Seq<Aligned>
    decreases i + j,
{
    if i == 0 && j == 0 {
        seq![(Seq::empty(), Seq::empty(), seq![(0int, 0int)])]
    } else {
        let mask = g[i as int][j as int];
        let d = if i > 0 && j > 0 && has(mask, DIAG) {
            paths_from(g, s1, s2, (i - 1) as nat, (j - 1) as nat).map_values(
                |t: Aligned| (t.0.push(s1[i - 1]), t.1.push(s2[j - 1]), t.2.push((i as int, j as int))),
            )
        } else {
            Seq::empty()
        };
        let u = if i > 0 && has(mask, UP) {
            paths_from(g, s1, s2, (i - 1) as nat, j).map_values(
                |t: Aligned| (t.0.push(s1[i - 1]), t.1.push(GAP), t.2.push((i as int, j as int))),
            )
        } else {
            Seq::empty()
        };
        let l = if j > 0 && has(mask, LEFT) {
            paths_from(g, s1, s2, i, (j - 1) as nat).map_values(
                |t: Aligned| (t.0.push(GAP), t.1.push(s2[j - 1]), t.2.push((i as int, j as int))),
            )
        } else {
            Seq::empty()
        };
        d + u + l
    }
}

/// The first `room` items of `s` (none when `room <= 0`, all when `room >= |s|`).
pub open spec fn prefix_upto<T>(s: Seq<T>, room: int) -> Seq<T> {
    if room <= 0 {
        Seq::empty()
    } else if room >= s.len() {
        s
    } else {
        s.take(room)
    }
}

/// What `needleman_wunsch_linear` returns as alignments: the first `max_paths` optimal
/// paths in exploration order.
pub open spec fn optimal_alignments<S: Scorer>(s1: Seq<char>, s2: Seq<char>, sc: S, gap: int, max_paths: int) -> Seq<Aligned> {
    prefix_upto(
        paths_from(direction_grid(s1, s2, sc, gap), s1, s2, s1.len(), s2.len()),
        max_paths,
    )
}

pub open spec fn alignment_view(a: Alignment) -> Aligned {
    (a.aligned_seq1@, a.aligned_seq2@, a.path@.map_values(|p: PathStep| (p.i as int, p.j as int)))
}

pub open spec fn alignments_view(v: Seq<Alignment>) -> Seq<Aligned> {
    v.map_values(|a: Alignment| alignment_view(a))
}

pub open spec fn rows_view(v: Seq<Vec<u8>>) -> Seq<Seq<u8>> {
    v.map_values(|r: Vec<u8>| r@)
}

/// A pending traceback step: the cell left and the two symbols of its column.
pub type Step = (usize, usize, char, char);

/// The first-sequence symbols of a pending step stack, read from the bottom of the stack.
pub open spec fn trail1(cur: Seq<Step>) -> Seq<char> {
    Seq::new(cur.len(), |k: int| cur[cur.len() - 1 - k].2)
}

pub open spec fn trail2(cur: Seq<Step>) -> Seq<char> {
    Seq::new(cur.len(), |k: int| cur[cur.len() - 1 - k].3)
}

pub open spec fn trail_cells(cur: Seq<Step>) -> Seq<(int, int)> {
    Seq::new(cur.len(), |k: int| (cur[cur.len() - 1 - k].0 as int, cur[cur.len() - 1 - k].1 as int))
}

/// A partial alignment completed by the steps already pending on the stack.
pub open spec fn extend(t: Aligned, cur: Seq<Step>) -> Aligned {
    (t.0 + trail1(cur), t.1 + trail2(cur), t.2 + trail_cells(cur))
}

proof fn lemma_prefix_upto_concat<T>(a: Seq<T>, b: Seq<T>, room: int)
    ensures
        prefix_upto(a + b, room) == prefix_upto(a, room) + prefix_upto(b, room - a.len()),
{
    if room <= 0 {
        assert(prefix_upto(a + b, room) =~= prefix_upto(a, room) + prefix_upto(b, room - a.len()));
    } else if room >= a.len() {
        if room - a.len() >= b.len() {
            assert(prefix_upto(a + b, room) =~= prefix_upto(a, room) + prefix_upto(b, room - a.len()));
        } else {
            assert(prefix_upto(a + b, room) =~= prefix_upto(a, room) + prefix_upto(b, room - a.len()));
        }
    } else {
        assert(prefix_upto(a + b, room) =~= prefix_upto(a, room) + prefix_upto(b, room - a.len()));
    }
}

proof fn lemma_extend_push(t: Aligned, cur: Seq<Step>, st: Step)
    ensures
        extend((t.0.push(st.2), t.1.push(st.3), t.2.push((st.0 as int, st.1 as int))), cur)
            == extend(t, cur.push(st)),
{
    let a = extend((t.0.push(st.2), t.1.push(st.3), t.2.push((st.0 as int, st.1 as int))), cur);
    let b = extend(t, cur.push(st));
    assert(a.0 =~= b.0);
    assert(a.1 =~= b.1);
    assert(a.2 =~= b.2);
}

proof fn lemma_mask_bits(m: u8)
    requires
        m < 8,
    ensures
        has(m, DIAG) == (m % 2 == 1),
        has(m, UP) == ((m / 2) % 2 == 1),
        has(m, LEFT) == (m >= 4),
{
    assert((m & 1u8 != 0) == (m % 2 == 1)) by (bit_vector)
        requires
            m < 8,
    ;
    assert((m & 2u8 != 0) == ((m / 2) % 2 == 1)) by (bit_vector)
        requires
            m < 8,
    ;
    assert((m & 4u8 != 0) == (m >= 4)) by (bit_vector)
        requires
            m < 8,
    ;
}

/// Computes the direction mask of one cell from its diagonal, up and left candidates,
/// each given as (transition value, predecessor score).
fn record_optimal_directions(diag: (i64, i64), up: (i64, i64), left: (i64, i64)) -> (r: u8)
    ensures
        r == optimal_mask(diag.0 as int, diag.1 as int, up.0 as int, up.1 as int, left.0 as int, left.1 as int),
        r < 8,
{
    let mut best = diag.0;
    if up.0 > best {
        best = up.0;
    }
    if left.0 > best {
        best = left.0;
    }
    let mut max_pred: i64 = i64::MIN;
    let mut any = false;
    if diag.0 == best && (!any || diag.1 > max_pred) {
        max_pred = diag.1;
        any = true;
    }
    if up.0 == best && (!any || up.1 > max_pred) {
        max_pred = up.1;
        any = true;
    }
    if left.0 == best && (!any || left.1 > max_pred) {
        max_pred = left.1;
    }
    let mut mask: u8 = 0;
    if diag.0 == best && diag.1 == max_pred {
        mask = mask + DIAG;
    }
    if up.0 == best && up.1 == max_pred {
        mask = mask + UP;
    }
    if left.0 == best && left.1 == max_pred {
        mask = mask + LEFT;
    }
    mask
}

/// Builds the alignment that the pending steps describe once the traceback reaches `(0, 0)`.
fn complete_alignment(current_path: &Vec<Step>) -> (r: Alignment)
    ensures
        alignment_view(r) == extend((Seq::empty(), Seq::empty(), seq![(0int, 0int)]), current_path@),
{
    let ghost cur = current_path@;
    let mut aligned1 = String::new();
    let mut aligned2 = String::new();
    let mut path: Vec<PathStep> = Vec::new();
    path.push(PathStep { i: 0, j: 0 });
    let mut k: usize = current_path.len();
    while k > 0
        invariant
            k <= current_path@.len(),
            current_path@ == cur,
            aligned1@ == trail1(cur).take(cur.len() - k),
            aligned2@ == trail2(cur).take(cur.len() - k),
            path@.map_values(|p: PathStep| (p.i as int, p.j as int))
                == seq![(0int, 0int)] + trail_cells(cur).take(cur.len() - k),
        decreases k,
    {
        k = k - 1;
        let (r, c, c1, c2) = current_path[k];
        proof {
            assert(trail1(cur).take(cur.len() - k) =~= trail1(cur).take(cur.len() - k - 1).push(c1));
            assert(trail2(cur).take(cur.len() - k) =~= trail2(cur).take(cur.len() - k - 1).push(c2));
        }
        let ghost before = path@;
        push_char(&mut aligned1, c1);
        push_char(&mut aligned2, c2);
        path.push(PathStep { i: r, j: c });
        assert(path@.map_values(|p: PathStep| (p.i as int, p.j as int)) =~= seq![(0int, 0int)]
            + trail_cells(cur).take(cur.len() - k)) by {
            assert(path@ == before.push(PathStep { i: r, j: c }));
            assert(path@.map_values(|p: PathStep| (p.i as int, p.j as int)) =~= before.map_values(
                |p: PathStep| (p.i as int, p.j as int),
            ).push((r as int, c as int)));
            assert(trail_cells(cur).take(cur.len() - k) =~= trail_cells(cur).take(cur.len() - k - 1).push(
                (r as int, c as int),
            ));
        }
    }
    let ghost base: Aligned = (Seq::empty(), Seq::empty(), seq![(0int, 0int)]);
    proof {
        assert(extend(base, cur).0 =~= aligned1@);
        assert(extend(base, cur).1 =~= aligned2@);
        assert(extend(base, cur).2 =~= path@.map_values(|p: PathStep| (p.i as int, p.j as int)));
    }
    Alignment { aligned_seq1: aligned1, aligned_seq2: aligned2, path }
}

/// Depth-first traceback from `(i, j)`: appends to `results` the optimal alignments that
/// continue the pending steps `current_path`, in diagonal / up / left order, stopping as
/// soon as `results` holds `max_paths` alignments.
#[verifier::rlimit(50)]
fn find_all_paths_linear(
    i: usize,
    j: usize,
    directions: &[Vec<u8>],
    seq1: &[char],
    seq2: &[char],
    current_path: &mut Vec<Step>,
    results: &mut Vec<Alignment>,
    max_paths: usize,
)
    requires
        i <= seq1@.len(),
        j <= seq2@.len(),
        directions@.len() == seq1@.len() + 1,
        forall|r: int| 0 <= r < directions@.len() ==> #[trigger] directions@[r]@.len() == seq2@.len() + 1,
    ensures
        final(current_path)@ == old(current_path)@,
        alignments_view(final(results)@) == alignments_view(old(results)@) + prefix_upto(
            paths_from(rows_view(directions@), seq1@, seq2@, i as nat, j as nat).map_values(
                |t: Aligned| extend(t, old(current_path)@),
            ),
            max_paths - old(results)@.len(),
        ),
    decreases i + j,
{
    let ghost g = rows_view(directions@);
    let ghost cur = current_path@;
    let ghost res0 = alignments_view(results@);
    let ghost room = max_paths - results@.len();
    let ghost all = paths_from(g, seq1@, seq2@, i as nat, j as nat).map_values(|t: Aligned| extend(t, cur));
    if results.len() >= max_paths {
        assert(alignments_view(results@) =~= res0 + prefix_upto(all, room));
        return;
    }
    if i == 0 && j == 0 {
        let a = complete_alignment(current_path);
        proof {
            let base: Aligned = (Seq::empty(), Seq::empty(), seq![(0int, 0int)]);
            assert(all =~= seq![extend(base, cur)]);
        }
        results.push(a);
        assert(alignments_view(results@) =~= res0 + prefix_upto(all, room));
        return;
    }
    let dir = directions[i][j];
    let ghost mask = g[i as int][j as int];
    assert(dir == mask);
    let ghost dd = if i > 0 && j > 0 && has(mask, DIAG) {
        paths_from(g, seq1@, seq2@, (i - 1) as nat, (j - 1) as nat).map_values(
            |t: Aligned| (t.0.push(seq1@[i - 1]), t.1.push(seq2@[j - 1]), t.2.push((i as int, j as int))),
        )
    } else {
        Seq::empty()
    };
    let ghost uu = if i > 0 && has(mask, UP) {
        paths_from(g, seq1@, seq2@, (i - 1) as nat, j as nat).map_values(
            |t: Aligned| (t.0.push(seq1@[i - 1]), t.1.push(GAP), t.2.push((i as int, j as int))),
        )
    } else {
        Seq::empty()
    };
    let ghost ll = if j > 0 && has(mask, LEFT) {
        paths_from(g, seq1@, seq2@, i as nat, (j - 1) as nat).map_values(
            |t: Aligned| (t.0.push(GAP), t.1.push(seq2@[j - 1]), t.2.push((i as int, j as int))),
        )
    } else {
        Seq::empty()
    };
    let ghost ext = |t: Aligned| extend(t, cur);
    let ghost dx = dd.map_values(ext);
    let ghost ux = uu.map_values(ext);
    let ghost lx = ll.map_values(ext);
    assert(all =~= dx + ux + lx);
    proof {
        lemma_prefix_upto_concat(dx + ux, lx, room);
        lemma_prefix_upto_concat(dx, ux, room);
    }

    // Diagonal (match / mismatch)
    if i > 0 && j > 0 && (dir & DIAG) != 0 {
        let st = (i, j, seq1[i - 1], seq2[j - 1]);
        current_path.push(st);
        find_all_paths_linear(i - 1, j - 1, directions, seq1, seq2, current_path, results, max_paths);
        current_path.pop();
        proof {
            let sub = paths_from(g, seq1@, seq2@, (i - 1) as nat, (j - 1) as nat);
            assert forall|k: int| 0 <= k < sub.len() implies #[trigger] dx[k] == sub.map_values(
                |t: Aligned| extend(t, cur.push(st)),
            )[k] by {
                lemma_extend_push(sub[k], cur, st);
            }
            assert(dx =~= sub.map_values(|t: Aligned| extend(t, cur.push(st))));
            assert(cur.push(st).drop_last() =~= cur);
        }
    }
    assert(alignments_view(results@) == res0 + prefix_upto(dx, room));

    // Up (gap in the second sequence)
    if i > 0 && (dir & UP) != 0 && results.len() < max_paths {
        let st = (i, j, seq1[i - 1], GAP);
        current_path.push(st);
        find_all_paths_linear(i - 1, j, directions, seq1, seq2, current_path, results, max_paths);
        current_path.pop();
        proof {
            let sub = paths_from(g, seq1@, seq2@, (i - 1) as nat, j as nat);
            assert forall|k: int| 0 <= k < sub.len() implies #[trigger] ux[k] == sub.map_values(
                |t: Aligned| extend(t, cur.push(st)),
            )[k] by {
                lemma_extend_push(sub[k], cur, st);
            }
            assert(ux =~= sub.map_values(|t: Aligned| extend(t, cur.push(st))));
            assert(cur.push(st).drop_last() =~= cur);
        }
    }
    assert(alignments_view(results@) =~= res0 + prefix_upto(dx, room) + prefix_upto(ux, room - dx.len()));

    // Left (gap in the first sequence)
    if j > 0 && (dir & LEFT) != 0 && results.len() < max_paths {
        let st = (i, j, GAP, seq2[j - 1]);
        current_path.push(st);
        find_all_paths_linear(i, j - 1, directions, seq1, seq2, current_path, results, max_paths);
        current_path.pop();
        proof {
            let sub = paths_from(g, seq1@, seq2@, i as nat, (j - 1) as nat);
            assert forall|k: int| 0 <= k < sub.len() implies #[trigger] lx[k] == sub.map_values(
                |t: Aligned| extend(t, cur.push(st)),
            )[k] by {
                lemma_extend_push(sub[k], cur, st);
            }
            assert(lx =~= sub.map_values(|t: Aligned| extend(t, cur.push(st))));
            assert(cur.push(st).drop_last() =~= cur);
        }
    }
    assert(alignments_view(results@) =~= res0 + prefix_upto(dx, room) + prefix_upto(ux, room - dx.len())
        + prefix_upto(lx, room - dx.len() - ux.len()));
}

/// `out` is the complete result of aligning `s1` against `s2`: the optimal score, the
/// whole score grid, and the first `max_paths` optimal alignments in exploration order.
pub open spec fn is_alignment_of<S: Scorer>(out: AlignmentOutput, s1: Seq<char>, s2: Seq<char>, sc: S, gap: int, max_paths: int) -> bool {
    &&& out.score == dp(s1, s2, sc, gap, s1.len(), s2.len())
    &&& out.matrices.m@.len() == s1.len() + 1
    &&& forall|i: int| 0 <= i <= s1.len() ==> #[trigger] out.matrices.m@[i]@.len() == s2.len() + 1
    &&& forall|i: int, j: int|
        0 <= i <= s1.len() && 0 <= j <= s2.len() ==> #[trigger] out.matrices.m@[i]@[j] == dp(s1, s2, sc, gap, i as nat, j as nat)
    &&& alignments_view(out.alignments@) == optimal_alignments(s1, s2, sc, gap, max_paths)
    &&& out.score == out.matrices.m@[s1.len() as int]@[s2.len() as int]
}

/// Every cell but the origin records at least one incoming optimal move, so a traceback
/// never stalls before reaching `(0, 0)`.
pub proof fn lemma_direction_nonempty<S: Scorer>(s1: Seq<char>, s2: Seq<char>, sc: S, gap: int, i: nat, j: nat)
    requires
        i > 0 || j > 0,
    ensures
        direction(s1, s2, sc, gap, i, j) != 0,
        direction(s1, s2, sc, gap, i, j) < 8,
{
}

/// Every grid score lies within `(i + j)` times the `i32` range.
pub proof fn lemma_dp_bounds<S: Scorer>(s1: Seq<char>, s2: Seq<char>, sc: S, gap: i32, i: nat, j: nat)
    ensures
        -((i + j) * 0x8000_0000) <= dp(s1, s2, sc, gap as int, i, j) <= (i + j) * 0x7fff_ffff,
    decreases i + j,
{
    if i == 0 && j == 0 {
    } else if i == 0 {
        lemma_dp_bounds(s1, s2, sc, gap, 0, (j - 1) as nat);
    } else if j == 0 {
        lemma_dp_bounds(s1, s2, sc, gap, (i - 1) as nat, 0);
    } else {
        lemma_dp_bounds(s1, s2, sc, gap, (i - 1) as nat, (j - 1) as nat);
        lemma_dp_bounds(s1, s2, sc, gap, (i - 1) as nat, j);
        lemma_dp_bounds(s1, s2, sc, gap, i, (j - 1) as nat);
    }
}

/// Global alignment of `seq1` against `seq2` with a linear gap penalty: fills the score
/// grid and returns the optimal score, the grid, and the first `max_paths` optimal
/// alignments in diagonal / up / left exploration order.
pub fn needleman_wunsch_linear<S: Scorer>(
    seq1: &str,
    seq2: &str,
    scorer: &S,
    gap_penalty: i32,
    max_paths: usize,
) -> (out: AlignmentOutput)
    requires
        seq1@.len() + seq2@.len() < u32::MAX,
    ensures
        is_alignment_of(out, seq1@, seq2@, *scorer, gap_penalty as int, max_paths as int),
{
    let s1 = chars_of(seq1);
    let s2 = chars_of(seq2);
    let n = s1.len();
    let m = s2.len();
    let ghost a = seq1@;
    let ghost b = seq2@;
    let ghost sc = *scorer;
    let ghost gap = gap_penalty as int;
    let gp = gap_penalty as i64;

    let mut matrix: Vec<Vec<i64>> = Vec::new();
    let mut directions: Vec<Vec<u8>> = Vec::new();

    // First row: gaps in the first sequence only.
    let mut row: Vec<i64> = Vec::new();
    let mut drow: Vec<u8> = Vec::new();
    row.push(0);
    drow.push(0);
    let mut j: usize = 1;
    while j <= m
        invariant
            1 <= j <= m + 1,
            m == b.len(),
            n + m < u32::MAX,
            gp == gap_penalty as i64,
            gap == gap_penalty as int,
            row@.len() == j,
            drow@.len() == j,
            forall|c: int| 0 <= c < j ==> #[trigger] row@[c] == dp(a, b, sc, gap, 0, c as nat),
            forall|c: int| 0 <= c < j ==> #[trigger] drow@[c] == direction(a, b, sc, gap, 0, c as nat),
        decreases m + 1 - j,
    {
        proof {
            lemma_dp_bounds(a, b, sc, gap_penalty, 0, (j - 1) as nat);
        }
        let v = row[j - 1] + gp;
        row.push(v);
        drow.push(LEFT);
        j = j + 1;
    }
    matrix.push(row);
    directions.push(drow);

    let mut i: usize = 1;
    while i <= n
        invariant
            1 <= i <= n + 1,
            n == a.len(),
            m == b.len(),
            n + m < u32::MAX,
            gp == gap_penalty as i64,
            gap == gap_penalty as int,
            s1@ == a,
            s2@ == b,
            sc == *scorer,
            matrix@.len() == i,
            directions@.len() == i,
            forall|r: int| 0 <= r < i ==> #[trigger] matrix@[r]@.len() == m + 1,
            forall|r: int| 0 <= r < i ==> #[trigger] directions@[r]@.len() == m + 1,
            forall|r: int, c: int|
                0 <= r < i && 0 <= c <= m ==> #[trigger] matrix@[r]@[c] == dp(a, b, sc, gap, r as nat, c as nat),
            forall|r: int, c: int|
                0 <= r < i && 0 <= c <= m ==> #[trigger] directions@[r]@[c] == direction(
                    a,
                    b,
                    sc,
                    gap,
                    r as nat,
                    c as nat,
                ),
        decreases n + 1 - i,
    {
        proof {
            lemma_dp_bounds(a, b, sc, gap_penalty, (i - 1) as nat, 0);
        }
        let mut row: Vec<i64> = Vec::new();
        let mut drow: Vec<u8> = Vec::new();
        let first = matrix[i - 1][0] + gp;
        row.push(first);
        drow.push(UP);
        let mut j: usize = 1;
        while j <= m
            invariant
                1 <= i <= n,
                1 <= j <= m + 1,
                n == a.len(),
                m == b.len(),
                n + m < u32::MAX,
            gp == gap_penalty as i64,
            gap == gap_penalty as int,
                s1@ == a,
                s2@ == b,
                sc == *scorer,
                matrix@.len() == i,
                forall|r: int| 0 <= r < i ==> #[trigger] matrix@[r]@.len() == m + 1,
                forall|r: int, c: int|
                    0 <= r < i && 0 <= c <= m ==> #[trigger] matrix@[r]@[c] == dp(a, b, sc, gap, r as nat, c as nat),
                row@.len() == j,
                drow@.len() == j,
                forall|c: int| 0 <= c < j ==> #[trigger] row@[c] == dp(a, b, sc, gap, i as nat, c as nat),
                forall|c: int| 0 <= c < j ==> #[trigger] drow@[c] == direction(a, b, sc, gap, i as nat, c as nat),
            decreases m + 1 - j,
        {
            proof {
                lemma_dp_bounds(a, b, sc, gap_penalty, (i - 1) as nat, (j - 1) as nat);
                lemma_dp_bounds(a, b, sc, gap_penalty, (i - 1) as nat, j as nat);
                lemma_dp_bounds(a, b, sc, gap_penalty, i as nat, (j - 1) as nat);
            }
            let char_score = scorer.score(s1[i - 1], s2[j - 1]) as i64;
            let pd = matrix[i - 1][j - 1];
            let pu = matrix[i - 1][j];
            let pl = row[j - 1];
            let diag = pd + char_score;
            let up = pu + gp;
            let left = pl + gp;
            let mut max_val = diag;
            if up > max_val {
                max_val = up;
            }
            if left > max_val {
                max_val = left;
            }
            row.push(max_val);
            let dir = record_optimal_directions((diag, pd), (up, pu), (left, pl));
            drow.push(dir);
            j = j + 1;
        }
        matrix.push(row);
        directions.push(drow);
        i = i + 1;
    }

    assert(rows_view(directions@) =~~= direction_grid(a, b, sc, gap));
    let mut alignments: Vec<Alignment> = Vec::new();
    let mut current_path: Vec<Step> = Vec::new();
    find_all_paths_linear(
        n,
        m,
        directions.as_slice(),
        s1.as_slice(),
        s2.as_slice(),
        &mut current_path,
        &mut alignments,
        max_paths,
    );
    proof {
        let all = paths_from(rows_view(directions@), a, b, n as nat, m as nat);
        assert(all.map_values(|t: Aligned| extend(t, Seq::empty())) =~= all) by {
            assert forall|k: int| 0 <= k < all.len() implies extend(all[k], Seq::<Step>::empty()) == all[k] by {
                let t = all[k];
                assert(t.0 + trail1(Seq::empty()) =~= t.0);
                assert(t.1 + trail2(Seq::empty()) =~= t.1);
                assert(t.2 + trail_cells(Seq::empty()) =~= t.2);
            }
        }
        assert(alignments_view(Seq::<Alignment>::empty()) =~= Seq::empty());
        assert(alignments_view(alignments@) =~= optimal_alignments(a, b, sc, gap, max_paths as int));
    }
    let score = matrix[n][m];
    AlignmentOutput { score, alignments, matrices: Matrices { m: matrix } }
}

/// The score of an alignment recomputed column by column: a column whose cell advances
/// both indices scores the character pair, any other column scores the gap penalty.
pub open spec fn rescore<S: Scorer>(sc: S, gap: int, t: Aligned) -> int
    decreases t.0.len(),
{
    if t.0.len() == 0 || t.1.len() == 0 || t.2.len() < 2 {
        0
    } else {
        let c = t.2.len() - 1;
        let col = if t.2[c].0 == t.2[c - 1].0 + 1 && t.2[c].1 == t.2[c - 1].1 + 1 {
            sc.pair_score(t.0[t.0.len() - 1], t.1[t.1.len() - 1]) as int
        } else {
            gap
        };
        rescore(sc, gap, (t.0.drop_last(), t.1.drop_last(), t.2.drop_last())) + col
    }
}

/// Each traced path from `(i, j)` has one column per move, starts at `(0, 0)`, ends at
/// `(i, j)`, and re-scores to the grid value at `(i, j)`.
pub proof fn lemma_paths_sound<S: Scorer>(s1: Seq<char>, s2: Seq<char>, sc: S, gap: i32, i: nat, j: nat)
    requires
        i <= s1.len(),
        j <= s2.len(),
    ensures
        forall|k: int|
            0 <= k < paths_from(direction_grid(s1, s2, sc, gap as int), s1, s2, i, j).len() ==> {
                let t = #[trigger] paths_from(direction_grid(s1, s2, sc, gap as int), s1, s2, i, j)[k];
                &&& t.0.len() == t.1.len()
                &&& t.2.len() == t.0.len() + 1
                &&& t.2[0] == (0int, 0int)
                &&& t.2[t.2.len() - 1] == (i as int, j as int)
                &&& rescore(sc, gap as int, t) == dp(s1, s2, sc, gap as int, i, j)
            },
    decreases i + j,
{
    let g = direction_grid(s1, s2, sc, gap as int);
    let all = paths_from(g, s1, s2, i, j);
    if i == 0 && j == 0 {
        return;
    }
    let mask = g[i as int][j as int];
    assert(mask == direction(s1, s2, sc, gap as int, i, j));
    lemma_mask_bits(mask);
    if i > 0 && j > 0 {
        lemma_paths_sound(s1, s2, sc, gap, (i - 1) as nat, (j - 1) as nat);
        lemma_paths_sound(s1, s2, sc, gap, (i - 1) as nat, j);
        lemma_paths_sound(s1, s2, sc, gap, i, (j - 1) as nat);
    } else if i > 0 {
        lemma_paths_sound(s1, s2, sc, gap, (i - 1) as nat, j);
    } else {
        lemma_paths_sound(s1, s2, sc, gap, i, (j - 1) as nat);
    }
    let d = if i > 0 && j > 0 && has(mask, DIAG) {
        paths_from(g, s1, s2, (i - 1) as nat, (j - 1) as nat).map_values(
            |t: Aligned| (t.0.push(s1[i - 1]), t.1.push(s2[j - 1]), t.2.push((i as int, j as int))),
        )
    } else {
        Seq::empty()
    };
    let u = if i > 0 && has(mask, UP) {
        paths_from(g, s1, s2, (i - 1) as nat, j).map_values(
            |t: Aligned| (t.0.push(s1[i - 1]), t.1.push(GAP), t.2.push((i as int, j as int))),
        )
    } else {
        Seq::empty()
    };
    let l = if j > 0 && has(mask, LEFT) {
        paths_from(g, s1, s2, i, (j - 1) as nat).map_values(
            |t: Aligned| (t.0.push(GAP), t.1.push(s2[j - 1]), t.2.push((i as int, j as int))),
        )
    } else {
        Seq::empty()
    };
    assert(all == d + u + l);
    assert forall|k: int| 0 <= k < all.len() implies {
        let t = #[trigger] all[k];
        &&& t.0.len() == t.1.len()
        &&& t.2.len() == t.0.len() + 1
        &&& t.2[0] == (0int, 0int)
        &&& t.2[t.2.len() - 1] == (i as int, j as int)
        &&& rescore(sc, gap as int, t) == dp(s1, s2, sc, gap as int, i, j)
    } by {
        let t = all[k];
        if k < d.len() {
            let p = paths_from(g, s1, s2, (i - 1) as nat, (j - 1) as nat)[k];
            assert(t == (p.0.push(s1[i - 1]), p.1.push(s2[j - 1]), p.2.push((i as int, j as int))));
            assert(t.0.drop_last() =~= p.0);
            assert(t.1.drop_last() =~= p.1);
            assert(t.2.drop_last() =~= p.2);
        } else if k < d.len() + u.len() {
            let p = paths_from(g, s1, s2, (i - 1) as nat, j)[k - d.len()];
            assert(t == (p.0.push(s1[i - 1]), p.1.push(GAP), p.2.push((i as int, j as int))));
            assert(t.0.drop_last() =~= p.0);
            assert(t.1.drop_last() =~= p.1);
            assert(t.2.drop_last() =~= p.2);
        } else {
            let p = paths_from(g, s1, s2, i, (j - 1) as nat)[k - d.len() - u.len()];
            assert(t == (p.0.push(GAP), p.1.push(s2[j - 1]), p.2.push((i as int, j as int))));
            assert(t.0.drop_last() =~= p.0);
            assert(t.1.drop_last() =~= p.1);
            assert(t.2.drop_last() =~= p.2);
        }
    }
}

/// Every returned alignment's path starts at `(0, 0)` and ends at `(|s1|, |s2|)`.
pub proof fn law_paths_span_grid<S: Scorer>(s1: Seq<char>, s2: Seq<char>, sc: S, gap: i32, max_paths: int)
    ensures
        forall|k: int|
            0 <= k < optimal_alignments(s1, s2, sc, gap as int, max_paths).len() ==> {
                let t = #[trigger] optimal_alignments(s1, s2, sc, gap as int, max_paths)[k];
                &&& t.2[0] == (0int, 0int)
                &&& t.2[t.2.len() - 1] == (s1.len() as int, s2.len() as int)
            },
{
    lemma_paths_sound(s1, s2, sc, gap, s1.len(), s2.len());
    let all = paths_from(direction_grid(s1, s2, sc, gap as int), s1, s2, s1.len(), s2.len());
    assert forall|k: int| 0 <= k < optimal_alignments(s1, s2, sc, gap as int, max_paths).len() implies
        #[trigger] optimal_alignments(s1, s2, sc, gap as int, max_paths)[k] == all[k] by {}
}

/// Re-scoring any returned alignment column by column gives the optimal score.
pub proof fn law_rescore_equals_score<S: Scorer>(s1: Seq<char>, s2: Seq<char>, sc: S, gap: i32, max_paths: int)
    ensures
        forall|k: int|
            0 <= k < optimal_alignments(s1, s2, sc, gap as int, max_paths).len() ==> rescore(
                sc,
                gap as int,
                #[trigger] optimal_alignments(s1, s2, sc, gap as int, max_paths)[k],
            ) == dp(s1, s2, sc, gap as int, s1.len(), s2.len()),
{
    lemma_paths_sound(s1, s2, sc, gap, s1.len(), s2.len());
    let all = paths_from(direction_grid(s1, s2, sc, gap as int), s1, s2, s1.len(), s2.len());
    assert forall|k: int| 0 <= k < optimal_alignments(s1, s2, sc, gap as int, max_paths).len() implies
        #[trigger] optimal_alignments(s1, s2, sc, gap as int, max_paths)[k] == all[k] by {}
}

/// At most `max_paths` alignments are returned, and raising the limit only appends
/// alignments: the smaller result is a prefix of the larger one.
pub proof fn law_limit_prefix<S: Scorer>(s1: Seq<char>, s2: Seq<char>, sc: S, gap: i32, lo: int, hi: int)
    requires
        lo <= hi,
    ensures
        lo >= 0 ==> optimal_alignments(s1, s2, sc, gap as int, lo).len() <= lo,
        optimal_alignments(s1, s2, sc, gap as int, lo) == optimal_alignments(s1, s2, sc, gap as int, hi).take(
            optimal_alignments(s1, s2, sc, gap as int, lo).len() as int,
        ),
{
    let a = optimal_alignments(s1, s2, sc, gap as int, lo);
    let b = optimal_alignments(s1, s2, sc, gap as int, hi);
    assert(a =~= b.take(a.len() as int));
}

/// With match 5, mismatch -4 and gap -2, no cell beats five per aligned pair less two
/// per unpaired character.
proof fn lemma_dp_upper(s1: Seq<char>, s2: Seq<char>, sc: SimpleScorer, i: nat, j: nat)
    requires
        sc.match_score == 5,
        sc.mismatch_penalty == -4,
    ensures
        dp(s1, s2, sc, -2, i, j) <= (if i <= j { 5 * i - 2 * (j - i) } else { 5 * j - 2 * (i - j) }),
    decreases i + j,
{
    if i == 0 && j == 0 {
    } else if i == 0 {
        lemma_dp_upper(s1, s2, sc, 0, (j - 1) as nat);
    } else if j == 0 {
        lemma_dp_upper(s1, s2, sc, (i - 1) as nat, 0);
    } else {
        lemma_dp_upper(s1, s2, sc, (i - 1) as nat, (j - 1) as nat);
        lemma_dp_upper(s1, s2, sc, (i - 1) as nat, j);
        lemma_dp_upper(s1, s2, sc, i, (j - 1) as nat);
    }
}

/// Along the diagonal of a sequence against itself, each cell scores five per character
/// and only the diagonal move is recorded; the first traced path is the gap-free one.
proof fn lemma_identical_diagonal(s: Seq<char>, sc: SimpleScorer, i: nat)
    requires
        sc.match_score == 5,
        sc.mismatch_penalty == -4,
        i <= s.len(),
    ensures
        dp(s, s, sc, -2, i, i) == 5 * i,
        paths_from(direction_grid(s, s, sc, -2), s, s, i, i).len() >= 1,
        paths_from(direction_grid(s, s, sc, -2), s, s, i, i)[0].0 == s.take(i as int),
        paths_from(direction_grid(s, s, sc, -2), s, s, i, i)[0].1 == s.take(i as int),
    decreases i,
{
    if i == 0 {
        assert(s.take(0) =~= Seq::<char>::empty());
        return;
    }
    let k = (i - 1) as nat;
    lemma_identical_diagonal(s, sc, k);
    lemma_dp_upper(s, s, sc, k, i);
    lemma_dp_upper(s, s, sc, i, k);
    let g = direction_grid(s, s, sc, -2);
    let mask = g[i as int][i as int];
    assert(mask == direction(s, s, sc, -2, i, i));
    assert(mask == DIAG);
    lemma_mask_bits(mask);
    let sub = paths_from(g, s, s, k, k);
    let all = paths_from(g, s, s, i, i);
    assert(all == sub.map_values(
        |t: Aligned| (t.0.push(s[i - 1]), t.1.push(s[i - 1]), t.2.push((i as int, i as int))),
    ) + Seq::<Aligned>::empty() + Seq::<Aligned>::empty());
    assert(all[0].0 == sub[0].0.push(s[k as int]));
    assert(s.take(i as int) =~= s.take(k as int).push(s[k as int]));
}

/// A sequence aligned against itself with match 5, mismatch -4 and gap -2 scores five per
/// character, and (given room for one alignment) the first alignment returned is the
/// sequence against itself with no gap.
pub proof fn law_identical_sequences(s: Seq<char>, max_paths: int)
    requires
        max_paths >= 1,
    ensures
        dp(s, s, (SimpleScorer { match_score: 5i32, mismatch_penalty: -4i32 }), -2, s.len(), s.len()) == 5 * s.len(),
        optimal_alignments(s, s, (SimpleScorer { match_score: 5i32, mismatch_penalty: -4i32 }), -2, max_paths).len() >= 1,
        optimal_alignments(s, s, (SimpleScorer { match_score: 5i32, mismatch_penalty: -4i32 }), -2, max_paths)[0].0 == s,
        optimal_alignments(s, s, (SimpleScorer { match_score: 5i32, mismatch_penalty: -4i32 }), -2, max_paths)[0].1 == s,
{
    let sc = SimpleScorer { match_score: 5i32, mismatch_penalty: -4i32 };
    lemma_identical_diagonal(s, sc, s.len());
    assert(s.take(s.len() as int) =~= s);
}

} // verus!
