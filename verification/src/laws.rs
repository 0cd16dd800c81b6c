//! The properties the library states of itself, proved once and for all:
//! the engines agree with the oracle, the returned score is the matrix
//! maximum, every returned position is in bounds, and the filled matrices
//! satisfy the affine-gap recurrence.

use vstd::prelude::*;

use crate::engine::diagonal::DiagonalEngine;
use crate::engine::naive::NaiveEngine;
use crate::engine::optimized_diagonal::{diag_alignment, diag_scores};
use crate::engine::Engine;
use crate::layout::{
    dcell, dpos, is_cell_pos, lemma_dcell_of_dpos, lemma_doffset_total, lemma_dpos_in_range,
    lemma_dpos_surjective, valid_cell,
};
use crate::scoring::{
    best_index, lemma_best_index_exists, lemma_cell_of_lin, lemma_lin_in_range,
    lemma_lin_inverse, lemma_score_bounds, lemma_trace_bounds, lemma_trace_steps, lin, max_score,
    row_alignment, row_scores, score_e, score_f, score_h, trace_cells, weight, G_EXT, G_INIT,
};

verus! {

/// `max` over mathematical integers.
pub open spec fn max_int(a: int, b: int) -> int {
    if a >= b {
        a
    } else {
        b
    }
}

/// Recurrence invariants: at every interior cell the three matrices
/// satisfy the affine-gap identities.  Together with the engines' `fill`
/// contracts, this says every engine-filled matrix obeys the recurrence.
pub proof fn lemma_recurrence_invariants(d: Seq<u8>, q: Seq<u8>, i: int, j: int)
    requires
        1 <= i,
        1 <= j,
    ensures
        score_e(d, q, i, j) == max_int(
            score_e(d, q, i, j - 1) - G_EXT,
            score_h(d, q, i, j - 1) - G_INIT,
        ),
        score_f(d, q, i, j) == max_int(
            score_f(d, q, i - 1, j) - G_EXT,
            score_h(d, q, i - 1, j) - G_INIT,
        ),
        score_h(d, q, i, j) == max_int(
            max_int(0, score_h(d, q, i - 1, j - 1) + weight(d[i - 1], q[j - 1])),
            max_int(score_e(d, q, i, j), score_f(d, q, i, j)),
        ),
{
}

/// Oracle equivalence for the row-major engines: the wavefront engine
/// returns exactly the alignment of the serial reference engine, for every
/// pair of inputs.
pub proof fn lemma_oracle_equivalence(
    ne: NaiveEngine,
    de: DiagonalEngine,
    d: Seq<u8>,
    q: Seq<u8>,
)
    ensures
        ne.alignment_spec(d, q) == de.alignment_spec(d, q),
        ne.alignment_spec(d, q) == row_alignment(d, q),
{
}

/// The best score over the matrix bounds every cell, and is itself a
/// cell's score.
pub proof fn lemma_max_score_is_max(d: Seq<u8>, q: Seq<u8>)
    ensures
        forall|ci: int, cj: int| 0 <= ci <= d.len() && 0 <= cj <= q.len()
            ==> score_h(d, q, ci, cj) <= #[trigger] max_score(d, q),
        0 <= max_score(d, q),
{
    let n = d.len() as int;
    let m = q.len() as int;
    let gw = m + 1;
    let scores = row_scores(d, q);
    assert(scores.len() == (n + 1) * (m + 1));
    assert(scores.len() >= 1) by (nonlinear_arith)
        requires scores.len() == (n + 1) * (m + 1), n >= 0, m >= 0;
    lemma_best_index_exists(scores);
    let b = best_index(scores);
    assert forall|ci: int, cj: int| 0 <= ci <= n && 0 <= cj <= m
        implies score_h(d, q, ci, cj) <= #[trigger] max_score(d, q) by {
        lemma_lin_in_range(ci, cj, gw, n);
        lemma_lin_inverse(ci, cj, gw);
        assert(scores[lin(ci, cj, gw)] == score_h(d, q, ci, cj));
        assert(scores[lin(ci, cj, gw)] <= scores[b]);
    }
    lemma_cell_of_lin(b, gw, n);
    lemma_score_bounds(d, q, b / gw, b % gw);
}

/// Score correctness for the row-major engines: the `H` value at the cell
/// the returned alignment ends on is the maximum over the whole matrix;
/// and the alignment is empty exactly when no cell scores positive.
pub proof fn lemma_score_correctness(d: Seq<u8>, q: Seq<u8>)
    ensures
        row_alignment(d, q).len() > 0 ==> {
            let c = row_alignment(d, q).last();
            score_h(d, q, c.0 + 1, c.1 + 1) == max_score(d, q)
        },
        row_alignment(d, q).len() == 0 ==> max_score(d, q) == 0,
{
    let n = d.len() as int;
    let m = q.len() as int;
    let gw = m + 1;
    let scores = row_scores(d, q);
    assert(scores.len() >= 1) by (nonlinear_arith)
        requires scores.len() == (n + 1) * (m + 1), n >= 0, m >= 0;
    lemma_best_index_exists(scores);
    let b = best_index(scores);
    lemma_cell_of_lin(b, gw, n);
    let bi = b / gw;
    let bj = b % gw;
    assert(scores[b] == score_h(d, q, bi, bj));
    assert(max_score(d, q) == score_h(d, q, bi, bj));
    lemma_max_score_is_max(d, q);
    let al = row_alignment(d, q);
    if al.len() > 0 {
        assert(score_h(d, q, bi, bj) > 0);
        assert(al == trace_cells(d, q, bi, bj));
        assert(al.last() == (bi - 1, bj - 1));
    } else {
        assert(trace_cells(d, q, bi, bj).len() == 0);
        assert(score_h(d, q, bi, bj) <= 0);
        lemma_score_bounds(d, q, bi, bj);
    }
}

/// The diagonal-major engine's traceback starts at a cell attaining the
/// same maximum: even where its tie-break differs, the final score agrees
/// with the oracle's.
pub proof fn lemma_optimized_score_agrees(d: Seq<u8>, q: Seq<u8>)
    ensures
        diag_alignment(d, q).len() > 0 ==> {
            let c = diag_alignment(d, q).last();
            score_h(d, q, c.0 + 1, c.1 + 1) == max_score(d, q)
        },
        diag_alignment(d, q).len() == 0 ==> max_score(d, q) == 0,
{
    let n = d.len() as int;
    let m = q.len() as int;
    let scores = diag_scores(d, q);
    lemma_doffset_total(n, m);
    assert(scores.len() >= 1) by (nonlinear_arith)
        requires scores.len() == (n + 1) * (m + 1), n >= 0, m >= 0;
    lemma_best_index_exists(scores);
    let b = best_index(scores);
    lemma_max_score_is_max(d, q);
    // Every entry of the diagonal-major flat buffer is a cell's score or
    // zero, so its maximum is the cells' maximum.
    assert forall|t: int| 0 <= t < scores.len() implies scores[t] <= max_score(d, q) by {
        if is_cell_pos(t, n, m) {
            let c = dcell(t, n, m);
            assert(valid_cell(c.0, c.1, n, m));
            assert(scores[t] == score_h(d, q, c.0, c.1));
        }
    }
    // And the row-major maximum's cell also appears in the flat buffer.
    let gw = m + 1;
    let rscores = row_scores(d, q);
    assert(rscores.len() >= 1) by (nonlinear_arith)
        requires rscores.len() == (n + 1) * (m + 1), n >= 0, m >= 0;
    lemma_best_index_exists(rscores);
    let rb = best_index(rscores);
    lemma_cell_of_lin(rb, gw, n);
    let ri = rb / gw;
    let rj = rb % gw;
    lemma_dpos_in_range(ri, rj, n, m);
    lemma_dcell_of_dpos(ri, rj, n, m);
    assert(scores[dpos(ri, rj, n, m)] == score_h(d, q, ri, rj));
    assert(score_h(d, q, ri, rj) == max_score(d, q));
    assert(scores[b] >= scores[dpos(ri, rj, n, m)]);
    assert(scores[b] == max_score(d, q));
    // The best flat position is some cell's: the layout is onto.
    lemma_dpos_surjective(b, n, m);
    let bc = dcell(b, n, m);
    assert(scores[b] == score_h(d, q, bc.0, bc.1));
    assert(valid_cell(bc.0, bc.1, n, m));
    let al = diag_alignment(d, q);
    assert(al == trace_cells(d, q, bc.0, bc.1));
    assert(score_h(d, q, bc.0, bc.1) == max_score(d, q));
    if al.len() > 0 {
        assert(score_h(d, q, bc.0, bc.1) > 0);
        assert(al.last() == (bc.0 - 1, bc.1 - 1));
    } else {
        assert(score_h(d, q, bc.0, bc.1) <= 0);
        lemma_score_bounds(d, q, bc.0, bc.1);
    }
}

/// Index bounds: every position either engine family returns is strictly
/// inside its sequence.
pub proof fn lemma_alignment_index_bounds(d: Seq<u8>, q: Seq<u8>)
    ensures
        forall|t: int| 0 <= t < row_alignment(d, q).len() ==> {
            let c = #[trigger] row_alignment(d, q)[t];
            0 <= c.0 < d.len() && 0 <= c.1 < q.len()
        },
        forall|t: int| 0 <= t < diag_alignment(d, q).len() ==> {
            let c = #[trigger] diag_alignment(d, q)[t];
            0 <= c.0 < d.len() && 0 <= c.1 < q.len()
        },
{
    let n = d.len() as int;
    let m = q.len() as int;
    let gw = m + 1;
    let scores = row_scores(d, q);
    assert(scores.len() >= 1) by (nonlinear_arith)
        requires scores.len() == (n + 1) * (m + 1), n >= 0, m >= 0;
    lemma_best_index_exists(scores);
    let b = best_index(scores);
    lemma_cell_of_lin(b, gw, n);
    lemma_trace_bounds(d, q, b / gw, b % gw, n, m);

    let dscores = diag_scores(d, q);
    lemma_doffset_total(n, m);
    assert(dscores.len() >= 1) by (nonlinear_arith)
        requires dscores.len() == (n + 1) * (m + 1), n >= 0, m >= 0;
    lemma_best_index_exists(dscores);
    let db = best_index(dscores);
    lemma_dpos_surjective(db, n, m);
    let bc = dcell(db, n, m);
    assert(valid_cell(bc.0, bc.1, n, m));
    lemma_trace_bounds(d, q, bc.0, bc.1, n, m);
}

/// Gap encoding: between adjacent columns of a returned alignment each
/// side advances by 0 or 1 positions and at least one side advances, so a
/// position can repeat only in consecutive columns.
pub proof fn lemma_alignment_gap_encoding(d: Seq<u8>, q: Seq<u8>)
    ensures
        forall|t: int| 0 <= t < row_alignment(d, q).len() - 1 ==> {
            let a = #[trigger] row_alignment(d, q)[t];
            let b = row_alignment(d, q)[t + 1];
            &&& b.0 == a.0 || b.0 == a.0 + 1
            &&& b.1 == a.1 || b.1 == a.1 + 1
            &&& b.0 + b.1 > a.0 + a.1
        },
        forall|t: int| 0 <= t < diag_alignment(d, q).len() - 1 ==> {
            let a = #[trigger] diag_alignment(d, q)[t];
            let b = diag_alignment(d, q)[t + 1];
            &&& b.0 == a.0 || b.0 == a.0 + 1
            &&& b.1 == a.1 || b.1 == a.1 + 1
            &&& b.0 + b.1 > a.0 + a.1
        },
{
    let n = d.len() as int;
    let m = q.len() as int;
    let gw = m + 1;
    let scores = row_scores(d, q);
    assert(scores.len() >= 1) by (nonlinear_arith)
        requires scores.len() == (n + 1) * (m + 1), n >= 0, m >= 0;
    lemma_best_index_exists(scores);
    let b = best_index(scores);
    lemma_cell_of_lin(b, gw, n);
    lemma_trace_steps(d, q, b / gw, b % gw);

    let dscores = diag_scores(d, q);
    lemma_doffset_total(n, m);
    assert(dscores.len() >= 1) by (nonlinear_arith)
        requires dscores.len() == (n + 1) * (m + 1), n >= 0, m >= 0;
    lemma_best_index_exists(dscores);
    let db = best_index(dscores);
    lemma_dpos_surjective(db, n, m);
    let bc = dcell(db, n, m);
    assert(valid_cell(bc.0, bc.1, n, m));
    lemma_trace_steps(d, q, bc.0, bc.1);
}

} // verus!
