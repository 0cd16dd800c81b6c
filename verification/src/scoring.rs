//! The Smith-Waterman recurrence with affine gap penalties, as a
//! mathematical model: the three interlocking score matrices `H`, `E`, `F`,
//! the back-pointer choice with its fixed tie-break order, and the traceback
//! walk.  Every engine is proved against these definitions.

use vstd::prelude::*;

verus! {

/// Reward for a matching pair of bytes; a mismatch costs the same amount.
pub const WEIGHT_IF_EQ: i16 = 3;

/// Penalty for opening a gap.
pub const G_INIT: i16 = 2;

/// Penalty for extending an already open gap.
pub const G_EXT: i16 = 2;

/// Substitution score of two bytes: `+WEIGHT_IF_EQ` on a match,
/// `-WEIGHT_IF_EQ` otherwise.
pub open spec fn weight(a: u8, b: u8) -> int {
    if a == b {
        WEIGHT_IF_EQ as int
    } else {
        -(WEIGHT_IF_EQ as int)
    }
}

/// `E[i][j]`: best score of an alignment ending at `(i, j)` with a gap in
/// the query.  Row 0 and column 0 are the zero border.
pub open spec fn score_e(d: Seq<u8>, q: Seq<u8>, i: int, j: int) -> int
    decreases i + j, 0int,
{
    if i <= 0 || j <= 0 {
        0
    } else {
        let ext = score_e(d, q, i, j - 1) - G_EXT;
        let open = score_h(d, q, i, j - 1) - G_INIT;
        if ext > open {
            ext
        } else {
            open
        }
    }
}

/// `F[i][j]`: best score of an alignment ending at `(i, j)` with a gap in
/// the database.  Row 0 and column 0 are the zero border.
pub open spec fn score_f(d: Seq<u8>, q: Seq<u8>, i: int, j: int) -> int
    decreases i + j, 0int,
{
    if i <= 0 || j <= 0 {
        0
    } else {
        let ext = score_f(d, q, i - 1, j) - G_EXT;
        let open = score_h(d, q, i - 1, j) - G_INIT;
        if ext > open {
            ext
        } else {
            open
        }
    }
}

/// `H[i][j]`: best score of a local alignment ending at `(i, j)`:
/// the maximum of restarting at zero, extending the diagonal, and the two
/// gap alternatives.
pub open spec fn score_h(d: Seq<u8>, q: Seq<u8>, i: int, j: int) -> int
    decreases i + j, 1int,
{
    if i <= 0 || j <= 0 {
        0
    } else {
        let diag = score_h(d, q, i - 1, j - 1) + weight(d[i - 1], q[j - 1]);
        let e = score_e(d, q, i, j);
        let f = score_f(d, q, i, j);
        let m1 = if diag > 0 {
            diag
        } else {
            0
        };
        let m2 = if e > m1 {
            e
        } else {
            m1
        };
        if f > m2 {
            f
        } else {
            m2
        }
    }
}

/// The neighbor that produced `H[i][j]`.  On ties the first alternative in
/// the fixed order restart, diagonal, left (`E`), above (`F`) wins.
#[derive(PartialEq, Eq, Structural, Clone, Copy)]
pub enum CellOrigin {
    Restart,
    Diagonal,
    Left,
    Above,
}

/// Which alternative won at `(i, j)` under the fixed tie-break order.
pub open spec fn origin(d: Seq<u8>, q: Seq<u8>, i: int, j: int) -> CellOrigin {
    let h = score_h(d, q, i, j);
    if h == 0 {
        CellOrigin::Restart
    } else if score_h(d, q, i - 1, j - 1) + weight(d[i - 1], q[j - 1]) == h {
        CellOrigin::Diagonal
    } else if score_e(d, q, i, j) == h {
        CellOrigin::Left
    } else {
        CellOrigin::Above
    }
}

/// The coordinates of the cell the back-pointer at `(i, j)` names.
/// A restart points at the border corner `(0, 0)`.
pub open spec fn prev_cell(d: Seq<u8>, q: Seq<u8>, i: int, j: int) -> (int, int) {
    match origin(d, q, i, j) {
        CellOrigin::Restart => (0, 0),
        CellOrigin::Diagonal => (i - 1, j - 1),
        CellOrigin::Left => (i, j - 1),
        CellOrigin::Above => (i - 1, j),
    }
}

/// The traceback from `(i, j)`: the chain of back-pointers walked until a
/// non-positive cell, emitting the 0-based sequence positions `(i-1, j-1)`
/// of each visited cell, earliest alignment column first.
pub open spec fn trace_cells(d: Seq<u8>, q: Seq<u8>, i: int, j: int) -> Seq<(int, int)>
    decreases i + j,
    when i + j >= 0
    via trace_cells_decreases
{
    if i <= 0 || j <= 0 || score_h(d, q, i, j) <= 0 {
        Seq::empty()
    } else {
        let prev = prev_cell(d, q, i, j);
        trace_cells(d, q, prev.0, prev.1).push((i - 1, j - 1))
    }
}

#[via_fn]
proof fn trace_cells_decreases(d: Seq<u8>, q: Seq<u8>, i: int, j: int) {
    if !(i <= 0 || j <= 0 || score_h(d, q, i, j) <= 0) {
        assert(origin(d, q, i, j) != CellOrigin::Restart);
    }
}

/// Between adjacent traceback columns each side advances by 0 or 1
/// positions, and at least one side advances: a position can repeat only
/// in consecutive columns, which is how the output encodes gaps.
pub proof fn lemma_trace_steps(d: Seq<u8>, q: Seq<u8>, i: int, j: int)
    requires
        0 <= i,
        0 <= j,
    ensures
        forall|t: int| 0 <= t < trace_cells(d, q, i, j).len() - 1 ==> {
            let a = #[trigger] trace_cells(d, q, i, j)[t];
            let b = trace_cells(d, q, i, j)[t + 1];
            &&& b.0 == a.0 || b.0 == a.0 + 1
            &&& b.1 == a.1 || b.1 == a.1 + 1
            &&& b.0 + b.1 > a.0 + a.1
        },
    decreases i + j,
{
    if i <= 0 || j <= 0 || score_h(d, q, i, j) <= 0 {
    } else {
        assert(origin(d, q, i, j) != CellOrigin::Restart);
        let prev = prev_cell(d, q, i, j);
        lemma_trace_steps(d, q, prev.0, prev.1);
        let tr = trace_cells(d, q, i, j);
        let trp = trace_cells(d, q, prev.0, prev.1);
        assert(tr == trp.push((i - 1, j - 1)));
        assert forall|t: int| 0 <= t < tr.len() - 1 implies {
            let a = #[trigger] tr[t];
            let b = tr[t + 1];
            &&& b.0 == a.0 || b.0 == a.0 + 1
            &&& b.1 == a.1 || b.1 == a.1 + 1
            &&& b.0 + b.1 > a.0 + a.1
        } by {
            if t + 1 < trp.len() {
                assert(tr[t] == trp[t] && tr[t + 1] == trp[t + 1]);
            } else {
                // The boundary step: the previous cell's column against
                // this cell's.
                assert(t == trp.len() - 1);
                assert(tr[t + 1] == (i - 1, j - 1));
                assert(trp.len() > 0);
                assert(score_h(d, q, prev.0, prev.1) > 0);
                assert(tr[t] == trp.last());
                assert(trp.last() == (prev.0 - 1, prev.1 - 1));
            }
        }
    }
}

/// Bounds on the three scores: `H` is between 0 and `WEIGHT_IF_EQ` times the
/// shorter prefix length, and `E`, `F` never drop below `-G_INIT`.
pub proof fn lemma_score_bounds(d: Seq<u8>, q: Seq<u8>, i: int, j: int)
    requires
        0 <= i,
        0 <= j,
    ensures
        0 <= score_h(d, q, i, j),
        score_h(d, q, i, j) <= WEIGHT_IF_EQ * min_int(i, j),
        -(G_INIT as int) <= score_e(d, q, i, j),
        score_e(d, q, i, j) <= WEIGHT_IF_EQ * min_int(i, j),
        -(G_INIT as int) <= score_f(d, q, i, j),
        score_f(d, q, i, j) <= WEIGHT_IF_EQ * min_int(i, j),
    decreases i + j,
{
    if i <= 0 || j <= 0 {
    } else {
        lemma_score_bounds(d, q, i, j - 1);
        lemma_score_bounds(d, q, i - 1, j);
        lemma_score_bounds(d, q, i - 1, j - 1);
        let w = WEIGHT_IF_EQ as int;
        assert(w * min_int(i, j - 1) <= w * min_int(i, j)) by (nonlinear_arith)
            requires min_int(i, j - 1) <= min_int(i, j), w >= 0;
        assert(w * min_int(i - 1, j) <= w * min_int(i, j)) by (nonlinear_arith)
            requires min_int(i - 1, j) <= min_int(i, j), w >= 0;
        assert(w * min_int(i - 1, j - 1) + w == w * min_int(i, j)) by (nonlinear_arith)
            requires min_int(i - 1, j - 1) == min_int(i, j) - 1;
        assert(score_e(d, q, i, j) <= w * min_int(i, j));
        assert(score_f(d, q, i, j) <= w * min_int(i, j));
        assert(score_h(d, q, i - 1, j - 1) + weight(d[i - 1], q[j - 1]) <= w * min_int(i, j));
        assert(score_h(d, q, i, j) <= w * min_int(i, j));
    }
}

/// `min` over mathematical integers.
pub open spec fn min_int(a: int, b: int) -> int {
    if a <= b {
        a
    } else {
        b
    }
}

/// The row-major flat index of cell `(i, j)` in a matrix of row width
/// `width`.
pub open spec fn lin(i: int, j: int, width: int) -> int {
    i * width + j
}

/// The back-pointer stored at `(i, j)` in the row-major layout: the flat
/// index of the producing neighbor, 0 for the restart choice and for the
/// never-written border.
pub open spec fn row_p(d: Seq<u8>, q: Seq<u8>, i: int, j: int, width: int) -> int {
    if i >= 1 && j >= 1 {
        let pc = prev_cell(d, q, i, j);
        lin(pc.0, pc.1, width)
    } else {
        0
    }
}

/// `H` flattened row-major over the whole `(n+1) x (m+1)` matrix.
pub open spec fn row_scores(d: Seq<u8>, q: Seq<u8>) -> Seq<int> {
    let width: int = q.len() as int + 1;
    Seq::new(((d.len() + 1) * (q.len() + 1)) as nat, |t: int| score_h(d, q, t / width, t % width))
}

/// `t` is the position of the maximum of `scores`, ties broken towards the
/// smallest position.
pub open spec fn is_best_index(scores: Seq<int>, t: int) -> bool {
    &&& 0 <= t < scores.len()
    &&& forall|s: int| 0 <= s < scores.len() ==> scores[s] <= scores[t]
    &&& forall|s: int| 0 <= s < t ==> scores[s] < scores[t]
}

/// The position of the maximum of `scores`, ties broken towards the
/// smallest position.
pub open spec fn best_index(scores: Seq<int>) -> int {
    choose|t: int| is_best_index(scores, t)
}

pub proof fn lemma_best_index_exists(scores: Seq<int>)
    requires
        scores.len() > 0,
    ensures
        is_best_index(scores, best_index(scores)),
    decreases scores.len(),
{
    if scores.len() == 1 {
        assert(is_best_index(scores, 0));
    } else {
        let pre = scores.drop_last();
        lemma_best_index_exists(pre);
        let b = best_index(pre);
        assert(forall|s: int| 0 <= s < pre.len() ==> scores[s] == pre[s]);
        if scores.last() > pre[b] {
            assert(is_best_index(scores, scores.len() - 1));
        } else {
            assert(is_best_index(scores, b));
        }
    }
    let w = choose|t: int| is_best_index(scores, t);
    assert(is_best_index(scores, w));
}

pub proof fn lemma_best_index_unique(scores: Seq<int>, a: int, b: int)
    requires
        is_best_index(scores, a),
        is_best_index(scores, b),
    ensures
        a == b,
{
    if a < b {
        assert(scores[a] < scores[b]);
        assert(scores[b] <= scores[a]);
    }
    if b < a {
        assert(scores[b] < scores[a]);
        assert(scores[a] <= scores[b]);
    }
}

/// The alignment the row-major engines return: the traceback from the
/// highest-scoring cell, ties broken towards the smallest row-major index.
pub open spec fn row_alignment(d: Seq<u8>, q: Seq<u8>) -> Seq<(int, int)> {
    let width: int = q.len() as int + 1;
    let t = best_index(row_scores(d, q));
    trace_cells(d, q, t / width, t % width)
}

/// The best local-alignment score over the whole matrix.
pub open spec fn max_score(d: Seq<u8>, q: Seq<u8>) -> int {
    row_scores(d, q)[best_index(row_scores(d, q))]
}

/// Recovering a cell from its row-major flat index.
pub proof fn lemma_cell_of_lin(t: int, width: int, n: int)
    requires
        width > 0,
        0 <= t < (n + 1) * width,
    ensures
        0 <= t / width <= n,
        0 <= t % width < width,
        lin(t / width, t % width, width) == t,
{
    vstd::arithmetic::div_mod::lemma_fundamental_div_mod(t, width);
    vstd::arithmetic::div_mod::lemma_mod_bound(t, width);
    let dv = t / width;
    let md = t % width;
    assert(dv * width + md == t) by (nonlinear_arith)
        requires t == width * dv + md;
    assert(t / width <= n) by (nonlinear_arith)
        requires
            width > 0,
            t < (n + 1) * width,
            t == width * (t / width) + t % width,
            0 <= t % width < width,
    ;
    assert(t / width >= 0) by (nonlinear_arith)
        requires
            width > 0,
            t >= 0,
            t == width * (t / width) + t % width,
            0 <= t % width < width,
    ;
}

/// The row-major flat index is the inverse of the division pair.
pub proof fn lemma_lin_inverse(ci: int, cj: int, width: int)
    requires
        width > 0,
        0 <= ci,
        0 <= cj < width,
    ensures
        lin(ci, cj, width) / width == ci,
        lin(ci, cj, width) % width == cj,
        lin(ci, cj, width) >= 0,
{
    vstd::arithmetic::div_mod::lemma_fundamental_div_mod_converse(
        lin(ci, cj, width),
        width,
        ci,
        cj,
    );
    assert(lin(ci, cj, width) == width * ci + cj) by (nonlinear_arith);
    assert(lin(ci, cj, width) >= 0) by (nonlinear_arith)
        requires 0 <= ci, 0 <= cj, width > 0;
}

/// A valid cell's row-major index lies inside the flat matrix.
pub proof fn lemma_lin_in_range(ci: int, cj: int, width: int, n: int)
    requires
        width > 0,
        0 <= ci <= n,
        0 <= cj < width,
    ensures
        0 <= lin(ci, cj, width) < (n + 1) * width,
{
    assert(0 <= ci * width + cj < (n + 1) * width) by (nonlinear_arith)
        requires width > 0, 0 <= ci <= n, 0 <= cj < width;
}

/// Every traceback entry is a valid 0-based position pair, strictly inside
/// both sequences, whatever interior cell the walk starts from.
pub proof fn lemma_trace_bounds(d: Seq<u8>, q: Seq<u8>, i: int, j: int, n: int, m: int)
    requires
        0 <= i <= n,
        0 <= j <= m,
    ensures
        forall|t: int| 0 <= t < trace_cells(d, q, i, j).len()
            ==> {
                let c = #[trigger] trace_cells(d, q, i, j)[t];
                0 <= c.0 < n && 0 <= c.1 < m
            },
    decreases i + j,
{
    if i <= 0 || j <= 0 || score_h(d, q, i, j) <= 0 {
    } else {
        assert(origin(d, q, i, j) != CellOrigin::Restart);
        let prev = prev_cell(d, q, i, j);
        lemma_trace_bounds(d, q, prev.0, prev.1, n, m);
        let tr = trace_cells(d, q, i, j);
        let trp = trace_cells(d, q, prev.0, prev.1);
        assert(tr == trp.push((i - 1, j - 1)));
        assert forall|t: int| 0 <= t < tr.len() implies {
            let c = #[trigger] tr[t];
            0 <= c.0 < n && 0 <= c.1 < m
        } by {
            if t < trp.len() {
                assert(tr[t] == trp[t]);
            } else {
                assert(tr[t] == (i - 1, j - 1));
            }
        }
    }
}

} // verus!
