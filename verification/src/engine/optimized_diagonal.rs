//! The diagonal-major wavefront engine: the matrices are stored so each
//! antidiagonal occupies a contiguous block of one flat buffer.  Neighbor
//! cells are found by offset arithmetic over the previous two diagonals'
//! sizes, with a one-cell correction once the wavefront has crossed into
//! the bottom-right triangle of the matrix.  Two auxiliary buffers map each
//! flat position back to its matrix coordinates for the traceback.

use vstd::prelude::*;

use crate::engine::{align_fits, argmax_index, compute_cell, matrix_size, reversed, Engine};
use crate::layout::{
    dcell, dlo, doffset, dpos, dsize, is_cell_pos, lemma_dcell_of_dpos, lemma_doffset_bound,
    lemma_doffset_mono, lemma_doffset_total, lemma_dpos_corner, lemma_dpos_in_diag,
    lemma_dpos_in_range, lemma_dpos_injective, lemma_dpos_surjective, valid_cell,
};
use crate::metrics::Metrics;
use crate::model::{AlignedPair, AlignedSequence, Sequence};
use crate::utils::slice::UnsafeSlice;
use crate::scoring::{
    best_index, is_best_index, lemma_best_index_exists, lemma_best_index_unique,
    lemma_trace_bounds, origin, prev_cell, score_e, score_f, score_h, trace_cells, weight,
    CellOrigin, WEIGHT_IF_EQ,
};

verus! {

/// An engine that computes alignments with the Smith-Waterman recurrence,
/// walking the matrix by antidiagonals over diagonal-major storage.
pub struct OptimizedDiagonalEngine;

/// The back-pointer stored for cell `(i, j)` in the diagonal-major layout:
/// the flat position of the producing neighbor, 0 for the restart choice
/// and for the never-written border.
pub open spec fn diag_p(d: Seq<u8>, q: Seq<u8>, i: int, j: int, n: int, m: int) -> int {
    if i >= 1 && j >= 1 {
        let pc = prev_cell(d, q, i, j);
        dpos(pc.0, pc.1, n, m)
    } else {
        0
    }
}

/// The matrices agree with the model on every interior cell for which
/// `done` holds and still hold their initial zero everywhere else — on
/// not-yet-filled cells, on the border, and on any position no cell maps
/// to.
pub open spec fn diag_fill_partial(
    d: Seq<u8>,
    q: Seq<u8>,
    h: Seq<i16>,
    e: Seq<i16>,
    f: Seq<i16>,
    p: Seq<usize>,
    im: Seq<usize>,
    jm: Seq<usize>,
    k: int,
    j: int,
) -> bool {
    let n = d.len() as int;
    let m = q.len() as int;
    let total = doffset(n + m + 1, n, m);
    &&& h.len() == total
    &&& e.len() == total
    &&& f.len() == total
    &&& p.len() == total
    &&& im.len() == total
    &&& jm.len() == total
    &&& forall|ci: int, cj: int|
        #![trigger dpos(ci, cj, n, m)]
        valid_cell(ci, cj, n, m) ==> {
            let t = dpos(ci, cj, n, m);
            if 1 <= ci && 1 <= cj && (ci + cj < k || (ci + cj == k && cj < j)) {
                &&& h[t] as int == score_h(d, q, ci, cj)
                &&& e[t] as int == score_e(d, q, ci, cj)
                &&& f[t] as int == score_f(d, q, ci, cj)
                &&& p[t] as int == diag_p(d, q, ci, cj, n, m)
                &&& im[t] == ci
                &&& jm[t] == cj
            } else {
                &&& h[t] == 0
                &&& e[t] == 0
                &&& f[t] == 0
                &&& p[t] == 0
                &&& im[t] == 0
                &&& jm[t] == 0
            }
        }
    &&& forall|t: int| 0 <= t < total && !is_cell_pos(t, n, m) ==> #[trigger] h[t] == 0
}

/// The finished diagonal-major matrices: scores and back-pointers at each
/// cell's flat position, coordinates at interior positions, zero at every
/// position no interior cell maps to.
pub open spec fn diag_matrices_model(
    d: Seq<u8>,
    q: Seq<u8>,
    h: Seq<i16>,
    p: Seq<usize>,
    im: Seq<usize>,
    jm: Seq<usize>,
) -> bool {
    let n = d.len() as int;
    let m = q.len() as int;
    let total = doffset(n + m + 1, n, m);
    &&& h.len() == total
    &&& p.len() == total
    &&& im.len() == total
    &&& jm.len() == total
    &&& forall|ci: int, cj: int|
        #![trigger dpos(ci, cj, n, m)]
        valid_cell(ci, cj, n, m) ==> {
            let t = dpos(ci, cj, n, m);
            &&& h[t] as int == score_h(d, q, ci, cj)
            &&& p[t] as int == diag_p(d, q, ci, cj, n, m)
            &&& (1 <= ci && 1 <= cj ==> im[t] == ci && jm[t] == cj)
        }
    &&& forall|t: int| 0 <= t < total && !is_cell_pos(t, n, m) ==> #[trigger] h[t] == 0
}

/// `H` flattened in diagonal-major order; positions no cell maps to
/// read as zero.
pub open spec fn diag_scores(d: Seq<u8>, q: Seq<u8>) -> Seq<int> {
    let n = d.len() as int;
    let m = q.len() as int;
    Seq::new(
        doffset(n + m + 1, n, m) as nat,
        |t: int|
            if is_cell_pos(t, n, m) {
                score_h(d, q, dcell(t, n, m).0, dcell(t, n, m).1)
            } else {
                0
            },
    )
}

/// The alignment the diagonal-major engine returns: the traceback from the
/// highest-scoring cell, ties broken towards the smallest diagonal-major
/// position.
pub open spec fn diag_alignment(d: Seq<u8>, q: Seq<u8>) -> Seq<(int, int)> {
    let n = d.len() as int;
    let m = q.len() as int;
    let c = dcell(best_index(diag_scores(d, q)), n, m);
    trace_cells(d, q, c.0, c.1)
}

/// The number of cells on antidiagonal `k`, borders included.
fn diag_size_exec(k: usize, n: usize, m: usize) -> (sz: usize)
    requires
        k <= n + m,
        n + m < usize::MAX,
    ensures
        sz as int == dsize(k as int, n as int, m as int),
        1 <= sz,
{
    let lo = if k > n {
        k - n
    } else {
        0
    };
    let hi = if k < m {
        k
    } else {
        m
    };
    hi - lo + 1
}

impl OptimizedDiagonalEngine {
    /// The substitution score of two bytes.
    pub fn weight(d: u8, q: u8) -> (r: i16)
        ensures
            r as int == weight(d, q),
    {
        if d == q {
            WEIGHT_IF_EQ
        } else {
            -WEIGHT_IF_EQ
        }
    }

    /// The scoring stage over diagonal-major storage: one contiguous block
    /// per antidiagonal, with the index maps `IS`/`JS` the traceback needs.
    #[verifier::rlimit(100)]
    pub fn fill(d: &Vec<u8>, q: &Vec<u8>) -> (r: (
        Vec<i16>,
        Vec<i16>,
        Vec<i16>,
        Vec<usize>,
        Vec<usize>,
        Vec<usize>,
    ))
        requires
            align_fits(d@, q@),
        ensures
            diag_matrices_model(d@, q@, r.0@, r.3@, r.4@, r.5@),
            r.0@.len() == matrix_size(d@, q@),
            r.1@.len() == r.0@.len(),
            r.2@.len() == r.0@.len(),
            forall|ci: int, cj: int|
                #![trigger dpos(ci, cj, d@.len() as int, q@.len() as int)]
                valid_cell(ci, cj, d@.len() as int, q@.len() as int) ==> {
                    let t = dpos(ci, cj, d@.len() as int, q@.len() as int);
                    r.1@[t] as int == score_e(d@, q@, ci, cj)
                        && r.2@[t] as int == score_f(d@, q@, ci, cj)
                },
    {
        let n = d.len();
        let m = q.len();
        let ghost gn = n as int;
        let ghost gm = m as int;
        let ghost size_s = matrix_size(d@, q@);
        let ghost gtotal = doffset(gn + gm + 1, gn, gm);
        proof {
            assert(0 <= size_s && size_s <= 4 * size_s && (gn + 1) * (gm + 1) == size_s
                && gn + 1 <= size_s && gm + 1 <= size_s && gn + gm + 1 <= size_s)
                by (nonlinear_arith)
                requires size_s == (gn + 1) * (gm + 1), gn >= 0, gm >= 0;
            lemma_doffset_bound(gn + gm + 1, gn, gm);
            assert(2 * ((gn + 1) * (gm + 1)) <= usize::MAX as int);
        }

        // First pass: the flat buffers' size, the sum of all diagonal sizes.
        let mut total: usize = 0;
        let mut k: usize = 0;
        while k <= n + m
            invariant
                gn == d@.len(),
                gm == q@.len(),
                n == gn,
                m == gm,
                align_fits(d@, q@),
                gn + gm + 1 <= size_s,
                size_s == matrix_size(d@, q@),
                gtotal == doffset(gn + gm + 1, gn, gm),
                gtotal <= 2 * size_s,
                2 * size_s <= usize::MAX as int,
                0 <= k <= n + m + 1,
                total as int == doffset(k as int, gn, gm),
            decreases n + m + 1 - k,
        {
            proof {
                lemma_doffset_bound(k as int + 1, gn, gm);
                lemma_doffset_mono(k as int + 1, gn + gm + 1, gn, gm);
            }
            let sz = diag_size_exec(k, n, m);
            total += sz;
            k += 1;
        }

        // The matrices live in writable flat buffers so each antidiagonal's
        // cells can be written independently.
        let mut h: UnsafeSlice<i16> = UnsafeSlice::new(vec![0; total]);
        let mut e: UnsafeSlice<i16> = UnsafeSlice::new(vec![0; total]);
        let mut f: UnsafeSlice<i16> = UnsafeSlice::new(vec![0; total]);
        let mut p: UnsafeSlice<usize> = UnsafeSlice::new(vec![0; total]);
        let mut iv: UnsafeSlice<usize> = UnsafeSlice::new(vec![0; total]);
        let mut jv: UnsafeSlice<usize> = UnsafeSlice::new(vec![0; total]);

        proof {
            assert forall|ci: int, cj: int|
                #![trigger dpos(ci, cj, gn, gm)]
                valid_cell(ci, cj, gn, gm) implies {
                let t = dpos(ci, cj, gn, gm);
                &&& h.view()[t] == 0
                &&& e.view()[t] == 0
                &&& f.view()[t] == 0
                &&& p.view()[t] == 0
                &&& iv.view()[t] == 0
                &&& jv.view()[t] == 0
            } by {
                lemma_dpos_in_range(ci, cj, gn, gm);
            }
        }

        // Second pass: walk the antidiagonals, keeping the running offset of
        // the current diagonal's block.
        let mut offset: usize = 0;
        let mut k: usize = 0;
        while k <= n + m
            invariant
                gn == d@.len(),
                gm == q@.len(),
                n == gn,
                m == gm,
                align_fits(d@, q@),
                gn + gm + 1 <= size_s,
                size_s == matrix_size(d@, q@),
                gtotal == doffset(gn + gm + 1, gn, gm),
                total as int == gtotal,
                0 <= k <= n + m + 1,
                offset as int == doffset(k as int, gn, gm),
                diag_fill_partial(d@, q@, h.view(), e.view(), f.view(), p.view(), iv.view(), jv.view(), k as int, 0),
            decreases n + m + 1 - k,
        {
            if k >= 2 {
                let lower = if k > n {
                    k - n
                } else {
                    1
                };
                let upper = if m < k - 1 {
                    m
                } else {
                    k - 1
                };
                let lo_k = if k > n {
                    k - n
                } else {
                    0
                };
                let psize = diag_size_exec(k - 1, n, m);
                let ppsize = diag_size_exec(k - 2, n, m);
                let d1: usize = if k > n {
                    1
                } else {
                    0
                };
                let d2: usize = if k - 1 > n {
                    1
                } else {
                    0
                };
                proof {
                    assert(diag_fill_partial(d@, q@, h.view(), e.view(), f.view(), p.view(), iv.view(), jv.view(), k as int,
                        lower as int));
                }
                let mut j: usize = lower;
                while j <= upper
                    invariant
                        gn == d@.len(),
                        gm == q@.len(),
                        n == gn,
                        m == gm,
                        align_fits(d@, q@),
                        gn + gm + 1 <= size_s,
                        size_s == matrix_size(d@, q@),
                        gtotal == doffset(gn + gm + 1, gn, gm),
                        total as int == gtotal,
                        2 <= k <= n + m,
                        offset as int == doffset(k as int, gn, gm),
                        lower == (if k > n { k - n as int } else { 1int }),
                        upper == (if m < k - 1 { m as int } else { k - 1 }),
                        lo_k as int == dlo(k as int, gn),
                        psize as int == dsize(k as int - 1, gn, gm),
                        ppsize as int == dsize(k as int - 2, gn, gm),
                        d1 as int == dlo(k as int, gn) - dlo(k as int - 1, gn),
                        d2 as int == dlo(k as int - 1, gn) - dlo(k as int - 2, gn),
                        lower <= j <= upper + 1,
                        diag_fill_partial(d@, q@, h.view(), e.view(), f.view(), p.view(), iv.view(), jv.view(), k as int, j as int),
                    decreases upper + 1 - j,
                {
                    let i = k - j;
                    proof {
                        lemma_dpos_in_diag(i as int, j as int, gn, gm);
                        lemma_dpos_in_diag(i - 1, j as int, gn, gm);
                        lemma_dpos_in_diag(i as int, j - 1, gn, gm);
                        lemma_dpos_in_diag(i - 1, j - 1, gn, gm);
                        lemma_dpos_in_range(i as int, j as int, gn, gm);
                        lemma_dpos_in_range(i - 1, j as int, gn, gm);
                        lemma_dpos_in_range(i as int, j - 1, gn, gm);
                        lemma_dpos_in_range(i - 1, j - 1, gn, gm);
                        assert(doffset(k as int, gn, gm)
                            == doffset(k as int - 1, gn, gm) + dsize(k as int - 1, gn, gm));
                        assert(doffset(k as int - 1, gn, gm)
                            == doffset(k as int - 2, gn, gm) + dsize(k as int - 2, gn, gm));
                        lemma_doffset_mono(0, k as int - 2, gn, gm);
                        lemma_doffset_mono(1, k as int - 1, gn, gm);
                    }
                    let here = offset + (j - lo_k);
                    let above = here + d1 - psize;
                    let left = above - 1;
                    let above_left = left + d2 - ppsize;
                    proof {
                        assert(here == dpos(i as int, j as int, gn, gm));
                        assert(above == dpos(i - 1, j as int, gn, gm));
                        assert(left == dpos(i as int, j - 1, gn, gm));
                        assert(above_left == dpos(i - 1, j - 1, gn, gm));
                    }
                    let (e_v, f_v, h_v, org) = compute_cell(
                        d, q, i, j,
                        e.read(left), h.read(left), f.read(above), h.read(above),
                        h.read(above_left),
                    );
                    let p_v: usize = match org {
                        CellOrigin::Restart => 0,
                        CellOrigin::Diagonal => above_left,
                        CellOrigin::Left => left,
                        CellOrigin::Above => above,
                    };
                    h.write(here, h_v);
                    e.write(here, e_v);
                    f.write(here, f_v);
                    p.write(here, p_v);
                    iv.write(here, i);
                    jv.write(here, j);
                    proof {
                        lemma_dpos_corner(gn, gm);
                        if org == CellOrigin::Restart {
                            assert(prev_cell(d@, q@, i as int, j as int) == (0int, 0int));
                        }
                        assert(p_v as int == diag_p(d@, q@, i as int, j as int, gn, gm));
                        assert forall|ci: int, cj: int|
                            #![trigger dpos(ci, cj, gn, gm)]
                            valid_cell(ci, cj, gn, gm) implies {
                            let t = dpos(ci, cj, gn, gm);
                            if 1 <= ci && 1 <= cj
                                && (ci + cj < k || (ci + cj == k && cj < j + 1)) {
                                &&& h.view()[t] as int == score_h(d@, q@, ci, cj)
                                &&& e.view()[t] as int == score_e(d@, q@, ci, cj)
                                &&& f.view()[t] as int == score_f(d@, q@, ci, cj)
                                &&& p.view()[t] as int == diag_p(d@, q@, ci, cj, gn, gm)
                                &&& iv.view()[t] == ci
                                &&& jv.view()[t] == cj
                            } else {
                                &&& h.view()[t] == 0
                                &&& e.view()[t] == 0
                                &&& f.view()[t] == 0
                                &&& p.view()[t] == 0
                                &&& iv.view()[t] == 0
                                &&& jv.view()[t] == 0
                            }
                        } by {
                            lemma_dpos_in_range(ci, cj, gn, gm);
                            if !(ci == i as int && cj == j as int) {
                                lemma_dpos_injective(ci, cj, i as int, j as int, gn, gm);
                            }
                        }
                        assert forall|t: int| 0 <= t < gtotal && !is_cell_pos(t, gn, gm)
                            implies #[trigger] h.view()[t] == 0 by {
                            assert(valid_cell((i as int, j as int).0, (i as int, j as int).1,
                                gn, gm)
                                && dpos((i as int, j as int).0, (i as int, j as int).1, gn, gm)
                                    == here as int);
                            assert(is_cell_pos(here as int, gn, gm));
                        }
                    }
                    j += 1;
                }
                proof {
                    assert forall|ci: int, cj: int|
                        #![trigger dpos(ci, cj, gn, gm)]
                        valid_cell(ci, cj, gn, gm) implies {
                        let t = dpos(ci, cj, gn, gm);
                        if 1 <= ci && 1 <= cj && ci + cj < k + 1 {
                            &&& h.view()[t] as int == score_h(d@, q@, ci, cj)
                            &&& e.view()[t] as int == score_e(d@, q@, ci, cj)
                            &&& f.view()[t] as int == score_f(d@, q@, ci, cj)
                            &&& p.view()[t] as int == diag_p(d@, q@, ci, cj, gn, gm)
                            &&& iv.view()[t] == ci
                            &&& jv.view()[t] == cj
                        } else {
                            &&& h.view()[t] == 0
                            &&& e.view()[t] == 0
                            &&& f.view()[t] == 0
                            &&& p.view()[t] == 0
                            &&& iv.view()[t] == 0
                            &&& jv.view()[t] == 0
                        }
                    } by {
                        lemma_dpos_in_range(ci, cj, gn, gm);
                    }
                }
            } else {
                proof {
                    assert forall|ci: int, cj: int|
                        #![trigger dpos(ci, cj, gn, gm)]
                        valid_cell(ci, cj, gn, gm) implies {
                        let t = dpos(ci, cj, gn, gm);
                        if 1 <= ci && 1 <= cj && ci + cj < k + 1 {
                            &&& h.view()[t] as int == score_h(d@, q@, ci, cj)
                            &&& e.view()[t] as int == score_e(d@, q@, ci, cj)
                            &&& f.view()[t] as int == score_f(d@, q@, ci, cj)
                            &&& p.view()[t] as int == diag_p(d@, q@, ci, cj, gn, gm)
                            &&& iv.view()[t] == ci
                            &&& jv.view()[t] == cj
                        } else {
                            &&& h.view()[t] == 0
                            &&& e.view()[t] == 0
                            &&& f.view()[t] == 0
                            &&& p.view()[t] == 0
                            &&& iv.view()[t] == 0
                            &&& jv.view()[t] == 0
                        }
                    } by {
                        lemma_dpos_in_range(ci, cj, gn, gm);
                    }
                }
            }
            proof {
                lemma_doffset_mono(k as int + 1, gn + gm + 1, gn, gm);
            }
            let sz = diag_size_exec(k, n, m);
            offset += sz;
            k += 1;
        }
        proof {
            assert forall|ci: int, cj: int|
                #![trigger dpos(ci, cj, gn, gm)]
                valid_cell(ci, cj, gn, gm) implies {
                let t = dpos(ci, cj, gn, gm);
                &&& h.view()[t] as int == score_h(d@, q@, ci, cj)
                &&& e.view()[t] as int == score_e(d@, q@, ci, cj)
                &&& f.view()[t] as int == score_f(d@, q@, ci, cj)
                &&& p.view()[t] as int == diag_p(d@, q@, ci, cj, gn, gm)
                &&& (1 <= ci && 1 <= cj ==> iv.view()[t] == ci && jv.view()[t] == cj)
            } by {
                lemma_dpos_in_range(ci, cj, gn, gm);
            }
            lemma_doffset_total(gn, gm);
        }
        (
            h.into_inner(),
            e.into_inner(),
            f.into_inner(),
            p.into_inner(),
            iv.into_inner(),
            jv.into_inner(),
        )
    }
}

/// The traceback walk from flat position `start` produced exactly the two
/// position lists.
pub open spec fn diag_traceback_matches(
    d: Seq<u8>,
    q: Seq<u8>,
    start: int,
    r0: Seq<usize>,
    r1: Seq<usize>,
) -> bool {
    let c = dcell(start, d.len() as int, q.len() as int);
    let tr = trace_cells(d, q, c.0, c.1);
    &&& r0.len() == tr.len()
    &&& r1.len() == tr.len()
    &&& forall|t: int| 0 <= t < tr.len()
        ==> r0[t] as int == #[trigger] tr[t].0 && r1[t] as int == tr[t].1
}

/// The traceback stage over the diagonal-major layout: identical in shape
/// to the row-major walk, but recovers matrix coordinates through the
/// `IS`/`JS` maps instead of division.
#[verifier::rlimit(60)]
pub(crate) fn traceback_diag_major(
    h: &Vec<i16>,
    p: &Vec<usize>,
    iv: &Vec<usize>,
    jv: &Vec<usize>,
    n: usize,
    m: usize,
    start: usize,
    d: Ghost<Seq<u8>>,
    q: Ghost<Seq<u8>>,
) -> (r: (Vec<usize>, Vec<usize>))
    requires
        n == d@.len(),
        m == q@.len(),
        diag_matrices_model(d@, q@, h@, p@, iv@, jv@),
        start < h@.len(),
        is_cell_pos(start as int, n as int, m as int),
    ensures
        diag_traceback_matches(d@, q@, start as int, r.0@, r.1@),
{
    let ghost gd = d@;
    let ghost gq = q@;
    let ghost gn = n as int;
    let ghost gm = m as int;
    let ghost start_c = dcell(start as int, gn, gm);
    let ghost full = trace_cells(gd, gq, start_c.0, start_c.1);
    let mut cur = start;
    let mut dbi: Vec<usize> = Vec::new();
    let mut qin: Vec<usize> = Vec::new();
    proof {
        assert(full.take(full.len() as int) =~= full);
    }
    while cur > 0 && h[cur] > 0
        invariant
            gn == gd.len(),
            gm == gq.len(),
            n == gn,
            m == gm,
            diag_matrices_model(gd, gq, h@, p@, iv@, jv@),
            start_c == dcell(start as int, gn, gm),
            full == trace_cells(gd, gq, start_c.0, start_c.1),
            cur < h@.len(),
            is_cell_pos(cur as int, gn, gm),
            dbi@.len() == qin@.len(),
            dbi@.len() <= full.len(),
            trace_cells(gd, gq, dcell(cur as int, gn, gm).0, dcell(cur as int, gn, gm).1)
                == full.take(full.len() - dbi@.len()),
            forall|t: int| 0 <= t < dbi@.len()
                ==> dbi@[t] as int == #[trigger] full[full.len() - 1 - t].0
                    && qin@[t] as int == full[full.len() - 1 - t].1,
        decreases dcell(cur as int, gn, gm).0 + dcell(cur as int, gn, gm).1,
    {
        let ghost c = dcell(cur as int, gn, gm);
        proof {
            assert(valid_cell(c.0, c.1, gn, gm) && dpos(c.0, c.1, gn, gm) == cur as int);
            assert(h@[cur as int] as int == score_h(gd, gq, c.0, c.1));
            assert(score_h(gd, gq, c.0, c.1) > 0);
            assert(c.0 >= 1 && c.1 >= 1);
            assert(iv@[cur as int] == c.0 && jv@[cur as int] == c.1);
        }
        let i = iv[cur];
        let j = jv[cur];
        dbi.push(i - 1);
        qin.push(j - 1);
        let ghost kk = dbi@.len() - 1;
        proof {
            assert(origin(gd, gq, c.0, c.1) != CellOrigin::Restart);
            let pc = prev_cell(gd, gq, c.0, c.1);
            assert(0 <= pc.0 <= gn && 0 <= pc.1 <= gm);
            lemma_dpos_in_range(pc.0, pc.1, gn, gm);
            lemma_dcell_of_dpos(pc.0, pc.1, gn, gm);
            assert(p@[cur as int] as int == diag_p(gd, gq, c.0, c.1, gn, gm));
            let tr_cur = trace_cells(gd, gq, c.0, c.1);
            assert(tr_cur == trace_cells(gd, gq, pc.0, pc.1).push((c.0 - 1, c.1 - 1)));
            assert(tr_cur == full.take(full.len() - kk));
            assert(full.len() - kk >= 1);
            assert(full[full.len() - 1 - kk] == tr_cur.last());
            assert(trace_cells(gd, gq, pc.0, pc.1) =~= full.take(full.len() - (kk + 1)));
        }
        cur = p[cur];
        proof {
            let pc = prev_cell(gd, gq, c.0, c.1);
            assert(cur as int == dpos(pc.0, pc.1, gn, gm));
            assert(dcell(cur as int, gn, gm) == pc);
            assert(pc.0 + pc.1 < c.0 + c.1);
            assert(dbi@[kk] as int == full[full.len() - 1 - kk].0);
            assert(qin@[kk] as int == full[full.len() - 1 - kk].1);
            assert forall|t: int| 0 <= t < dbi@.len() implies dbi@[t] as int
                == #[trigger] full[full.len() - 1 - t].0
                && qin@[t] as int == full[full.len() - 1 - t].1 by {
                if t < kk {
                } else {
                    assert(t == kk);
                }
            }
        }
    }
    proof {
        let c = dcell(cur as int, gn, gm);
        assert(valid_cell(c.0, c.1, gn, gm) && dpos(c.0, c.1, gn, gm) == cur as int);
        if cur == 0 {
            lemma_dpos_corner(gn, gm);
            assert(h@[cur as int] as int == score_h(gd, gq, c.0, c.1));
            assert(trace_cells(gd, gq, c.0, c.1) =~= Seq::<(int, int)>::empty());
        } else {
            assert(h@[cur as int] as int == score_h(gd, gq, c.0, c.1));
            assert(score_h(gd, gq, c.0, c.1) <= 0);
            assert(trace_cells(gd, gq, c.0, c.1) =~= Seq::<(int, int)>::empty());
        }
        assert(full.take(full.len() - dbi@.len()).len() == 0);
        assert(dbi@.len() == full.len());
    }
    let r0 = reversed(&dbi);
    let r1 = reversed(&qin);
    proof {
        assert forall|t: int| 0 <= t < full.len() implies r0@[t] as int == #[trigger] full[t].0
            && r1@[t] as int == full[t].1 by {
            assert(r0@[t] == dbi@[full.len() - 1 - t]);
            assert(dbi@[full.len() - 1 - t] as int == full[full.len() - 1 - (full.len() - 1 - t)].0);
            assert(r1@[t] == qin@[full.len() - 1 - t]);
            assert(qin@[full.len() - 1 - t] as int == full[full.len() - 1 - (full.len() - 1 - t)].1);
            assert(full.len() - 1 - (full.len() - 1 - t) == t);
        }
        assert(dcell(start as int, gn, gm) == start_c);
        assert(diag_traceback_matches(d@, q@, start as int, r0@, r1@));
    }
    (r0, r1)
}

impl Engine for OptimizedDiagonalEngine {
    /// This engine breaks score ties among traceback starting cells by the
    /// diagonal-major order instead of the row-major one; its alignment is
    /// the traceback from that cell.
    open spec fn alignment_spec(&self, d: Seq<u8>, q: Seq<u8>) -> Seq<(int, int)> {
        diag_alignment(d, q)
    }

    fn name(&self) -> (r: String) {
        "Optimized Diagonal (CPU)".to_owned()
    }

    fn align<'a>(
        &self,
        database: &'a Sequence,
        query: &'a Sequence,
        metrics: &mut Metrics,
    ) -> (r: AlignedPair<'a>) {
        let ghost gd = database.raw@;
        let ghost gq = query.raw@;
        let n = database.len();
        let m = query.len();
        let ghost gn = n as int;
        let ghost gm = m as int;
        proof {
            let ms = matrix_size(gd, gq);
            assert(0 <= ms && ms <= 4 * ms && gn + 1 <= ms && gm + 1 <= ms
                && (gn + 1) * (gm + 1) == ms && 1 <= ms) by (nonlinear_arith)
                requires ms == (gn + 1) * (gm + 1), gn >= 0, gm >= 0;
        }
        let size = (n + 1) * (m + 1);

        let (h, _e, _f, p, iv, jv) = Self::fill(&database.raw, &query.raw);

        metrics.record_cell_updates(4 * size);

        proof {
            lemma_dpos_corner(gn, gm);
            lemma_dpos_in_range(0, 0, gn, gm);
        }
        let start = argmax_index(&h);
        proof {
            let scores = diag_scores(gd, gq);
            assert forall|s: int| 0 <= s < scores.len() implies h@[s] as int == scores[s] by {
                if is_cell_pos(s, gn, gm) {
                    let c = dcell(s, gn, gm);
                    assert(valid_cell(c.0, c.1, gn, gm) && dpos(c.0, c.1, gn, gm) == s);
                    assert(h@[dpos(c.0, c.1, gn, gm)] as int == score_h(gd, gq, c.0, c.1));
                }
            }
            assert forall|s: int| 0 <= s < scores.len() implies scores[s] <= scores[start as int]
                && (s < start as int ==> scores[s] < scores[start as int]) by {
                assert(h@[s] <= h@[start as int]);
            }
            assert(is_best_index(scores, start as int));
            lemma_best_index_exists(scores);
            lemma_best_index_unique(scores, start as int, best_index(scores));
            lemma_dpos_surjective(start as int, gn, gm);
        }
        let (dbi, qin) = traceback_diag_major(&h, &p, &iv, &jv, n, m, start, Ghost(gd), Ghost(gq));
        metrics.record_sequence_pair();
        proof {
            let c = dcell(start as int, gn, gm);
            assert(valid_cell(c.0, c.1, gn, gm));
            lemma_trace_bounds(gd, gq, c.0, c.1, gn, gm);
            let tr = trace_cells(gd, gq, c.0, c.1);
            assert forall|t: int| 0 <= t < dbi@.len() implies dbi@[t] < n && qin@[t] < m by {
                assert(dbi@[t] as int == tr[t].0);
                assert(0 <= tr[t].0 < gn && 0 <= tr[t].1 < gm);
                assert(qin@[t] as int == tr[t].1);
            }
        }
        let aligned_database = AlignedSequence::new(database, dbi);
        let aligned_query = AlignedSequence::new(query, qin);
        AlignedPair::new(aligned_database, aligned_query)
    }
}

} // verus!
