//! The diagonal-major layout: a flat storage for the `(n+1) x (m+1)`
//! matrices in which each antidiagonal occupies a contiguous block.  This
//! module defines the layout mathematically — per-diagonal bounds, sizes,
//! offsets and the cell-to-position map — and proves the facts the
//! diagonal-major engine rests on: each position is inside its diagonal's
//! block, the map is injective, and the total size is bounded.

use vstd::prelude::*;

use crate::scoring::min_int;

verus! {

/// The first `j` of antidiagonal `k` (border columns included).
pub open spec fn dlo(k: int, n: int) -> int {
    if k > n {
        k - n
    } else {
        0
    }
}

/// The last `j` of antidiagonal `k` (border columns included).
pub open spec fn dhi(k: int, m: int) -> int {
    if k < m {
        k
    } else {
        m
    }
}

/// The number of cells on antidiagonal `k`, borders included.
pub open spec fn dsize(k: int, n: int, m: int) -> int {
    dhi(k, m) - dlo(k, n) + 1
}

/// The offset of antidiagonal `k`'s block in the flat buffer: the total
/// size of all earlier diagonals.
pub open spec fn doffset(k: int, n: int, m: int) -> int
    decreases k,
{
    if k <= 0 {
        0
    } else {
        doffset(k - 1, n, m) + dsize(k - 1, n, m)
    }
}

/// The flat diagonal-major position of cell `(i, j)`.
pub open spec fn dpos(i: int, j: int, n: int, m: int) -> int {
    doffset(i + j, n, m) + j - dlo(i + j, n)
}

/// `(i, j)` is a cell of the matrix, border included.
pub open spec fn valid_cell(i: int, j: int, n: int, m: int) -> bool {
    0 <= i <= n && 0 <= j <= m
}

/// Some cell of the matrix sits at flat position `t`.
pub open spec fn is_cell_pos(t: int, n: int, m: int) -> bool {
    exists|c: (int, int)| valid_cell(c.0, c.1, n, m) && dpos(c.0, c.1, n, m) == t
}

/// The cell at flat position `t`.
pub open spec fn dcell(t: int, n: int, m: int) -> (int, int) {
    choose|c: (int, int)| valid_cell(c.0, c.1, n, m) && dpos(c.0, c.1, n, m) == t
}

/// Every antidiagonal of the matrix has between 1 and `min(n, m) + 1`
/// cells.
pub proof fn lemma_dsize_bounds(k: int, n: int, m: int)
    requires
        0 <= k <= n + m,
        0 <= n,
        0 <= m,
    ensures
        1 <= dsize(k, n, m),
        dsize(k, n, m) <= min_int(n, m) + 1,
{
}

/// Diagonal offsets grow with `k`, as long as both ends name diagonals of
/// the matrix (or one past the last).
pub proof fn lemma_doffset_mono(k1: int, k2: int, n: int, m: int)
    requires
        0 <= k1 <= k2 <= n + m + 1,
        0 <= n,
        0 <= m,
    ensures
        doffset(k1, n, m) <= doffset(k2, n, m),
    decreases k2 - k1,
{
    if k1 < k2 {
        lemma_dsize_bounds(k2 - 1, n, m);
        lemma_doffset_mono(k1, k2 - 1, n, m);
    }
}

/// A valid cell's flat position lies inside its antidiagonal's block.
pub proof fn lemma_dpos_in_diag(i: int, j: int, n: int, m: int)
    requires
        valid_cell(i, j, n, m),
    ensures
        doffset(i + j, n, m) <= dpos(i, j, n, m),
        dpos(i, j, n, m) < doffset(i + j + 1, n, m),
{
    assert(dlo(i + j, n) <= j <= dhi(i + j, m));
}

/// A valid cell's flat position lies inside the flat buffer.
pub proof fn lemma_dpos_in_range(i: int, j: int, n: int, m: int)
    requires
        valid_cell(i, j, n, m),
    ensures
        0 <= dpos(i, j, n, m) < doffset(n + m + 1, n, m),
{
    lemma_dpos_in_diag(i, j, n, m);
    lemma_doffset_mono(0, i + j, n, m);
    lemma_doffset_mono(i + j + 1, n + m + 1, n, m);
}

/// Distinct cells sit at distinct flat positions.
pub proof fn lemma_dpos_injective(i1: int, j1: int, i2: int, j2: int, n: int, m: int)
    requires
        valid_cell(i1, j1, n, m),
        valid_cell(i2, j2, n, m),
        !(i1 == i2 && j1 == j2),
    ensures
        dpos(i1, j1, n, m) != dpos(i2, j2, n, m),
{
    let k1 = i1 + j1;
    let k2 = i2 + j2;
    if k1 == k2 {
    } else if k1 < k2 {
        lemma_dpos_in_diag(i1, j1, n, m);
        lemma_dpos_in_diag(i2, j2, n, m);
        lemma_doffset_mono(k1 + 1, k2, n, m);
    } else {
        lemma_dpos_in_diag(i1, j1, n, m);
        lemma_dpos_in_diag(i2, j2, n, m);
        lemma_doffset_mono(k2 + 1, k1, n, m);
    }
}

/// `dcell` inverts `dpos` on valid cells.
pub proof fn lemma_dcell_of_dpos(i: int, j: int, n: int, m: int)
    requires
        valid_cell(i, j, n, m),
    ensures
        is_cell_pos(dpos(i, j, n, m), n, m),
        dcell(dpos(i, j, n, m), n, m) == (i, j),
{
    let t = dpos(i, j, n, m);
    assert(valid_cell((i, j).0, (i, j).1, n, m) && dpos((i, j).0, (i, j).1, n, m) == t);
    let c = dcell(t, n, m);
    assert(valid_cell(c.0, c.1, n, m) && dpos(c.0, c.1, n, m) == t);
    if !(c.0 == i && c.1 == j) {
        lemma_dpos_injective(c.0, c.1, i, j, n, m);
    }
}

/// The whole flat buffer is no larger than twice the cell count of the
/// matrix, so its size arithmetic stays inside the engines' machine
/// limits.
pub proof fn lemma_doffset_bound(k: int, n: int, m: int)
    requires
        0 <= k <= n + m + 1,
        0 <= n,
        0 <= m,
    ensures
        doffset(k, n, m) <= k * (min_int(n, m) + 1),
        doffset(k, n, m) <= 2 * ((n + 1) * (m + 1)),
    decreases k,
{
    let a = min_int(n, m) + 1;
    if k > 0 {
        lemma_doffset_bound(k - 1, n, m);
        lemma_dsize_bounds(k - 1, n, m);
        assert((k - 1) * a + a == k * a) by (nonlinear_arith);
    }
    assert(k * a <= 2 * ((n + 1) * (m + 1))) by (nonlinear_arith)
        requires
            0 <= k <= n + m + 1,
            0 <= n,
            0 <= m,
            a == min_int(n, m) + 1,
    ;
}

proof fn lemma_doffset_drop_row(k: int, n: int, m: int)
    requires
        1 <= n,
        0 <= m,
        0 <= k <= n + m + 1,
    ensures
        doffset(k, n, m) == doffset(k, n - 1, m) + (if k > n {
            k - n
        } else {
            0int
        }),
    decreases k,
{
    if k > 0 {
        lemma_doffset_drop_row(k - 1, n, m);
    }
}

proof fn lemma_doffset_single_row(k: int, m: int)
    requires
        0 <= k <= m + 1,
    ensures
        doffset(k, 0, m) == k,
    decreases k,
{
    if k > 0 {
        lemma_doffset_single_row(k - 1, m);
    }
}

/// The flat buffer has exactly one slot per cell of the matrix.
pub proof fn lemma_doffset_total(n: int, m: int)
    requires
        0 <= n,
        0 <= m,
    ensures
        doffset(n + m + 1, n, m) == (n + 1) * (m + 1),
    decreases n,
{
    if n == 0 {
        lemma_doffset_single_row(m + 1, m);
    } else {
        lemma_doffset_total(n - 1, m);
        lemma_doffset_drop_row(n + m + 1, n, m);
        assert(dsize(n + m, n - 1, m) == 0);
        assert(doffset(n + m + 1, n - 1, m) == doffset(n + m, n - 1, m));
        assert(n * (m + 1) + (m + 1) == (n + 1) * (m + 1)) by (nonlinear_arith);
    }
}

proof fn lemma_cell_pos_from_diag(t: int, k: int, n: int, m: int)
    requires
        0 <= n,
        0 <= m,
        0 <= k <= n + m,
        doffset(k, n, m) <= t < doffset(n + m + 1, n, m),
    ensures
        is_cell_pos(t, n, m),
    decreases n + m - k,
{
    if t < doffset(k + 1, n, m) {
        let j = dlo(k, n) + (t - doffset(k, n, m));
        let c = (k - j, j);
        assert(dlo(k, n) <= j <= dhi(k, m));
        assert(valid_cell(c.0, c.1, n, m));
        assert(dpos(c.0, c.1, n, m) == t);
    } else {
        lemma_doffset_mono(k + 1, n + m + 1, n, m);
        lemma_cell_pos_from_diag(t, k + 1, n, m);
    }
}

/// Every flat position belongs to some cell: together with injectivity,
/// the cell-to-position map is a bijection onto the flat buffer.
pub proof fn lemma_dpos_surjective(t: int, n: int, m: int)
    requires
        0 <= n,
        0 <= m,
        0 <= t < doffset(n + m + 1, n, m),
    ensures
        is_cell_pos(t, n, m),
{
    lemma_cell_pos_from_diag(t, 0, n, m);
}

/// The corner `(0, 0)` sits at flat position 0.
pub proof fn lemma_dpos_corner(n: int, m: int)
    requires
        0 <= n,
        0 <= m,
    ensures
        dpos(0, 0, n, m) == 0,
        is_cell_pos(0, n, m),
        dcell(0, n, m) == (0int, 0int),
{
    lemma_dcell_of_dpos(0, 0, n, m);
}

} // verus!
