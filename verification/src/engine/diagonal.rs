//! The row-major wavefront engine: the same matrices as the serial engine,
//! filled antidiagonal by antidiagonal.  Cells on one antidiagonal depend
//! only on the previous two, so they are mutually independent; here the
//! wavefront order itself is verified to reproduce the row-major model
//! cell for cell.

use vstd::prelude::*;

use crate::engine::{
    align_fits, compute_cell, finish_row_major, matrix_size, row_matrices_model, Engine,
};
use crate::metrics::Metrics;
use crate::model::{AlignedPair, Sequence};
use crate::scoring::{
    lemma_cell_of_lin, lemma_lin_in_range, lemma_lin_inverse, lin, prev_cell, row_alignment,
    row_p, score_e, score_f, score_h, weight, CellOrigin, WEIGHT_IF_EQ,
};
use crate::utils::slice::UnsafeSlice;

verus! {

/// An engine that computes alignments with the Smith-Waterman recurrence,
/// walking the matrix by antidiagonals (the wavefront order).
pub struct DiagonalEngine;

/// The matrices agree with the model on every cell the wavefront has
/// passed and still hold their initial zero everywhere else: all interior
/// cells on antidiagonals before `k`, and those on `k` left of column `j`.
pub open spec fn wave_fill_partial(
    d: Seq<u8>,
    q: Seq<u8>,
    h: Seq<i16>,
    e: Seq<i16>,
    f: Seq<i16>,
    p: Seq<usize>,
    k: int,
    j: int,
) -> bool {
    let width = q.len() as int + 1;
    let size = matrix_size(d, q);
    &&& h.len() == size
    &&& e.len() == size
    &&& f.len() == size
    &&& p.len() == size
    &&& forall|t: int|
        #![trigger h[t]]
        #![trigger e[t]]
        #![trigger f[t]]
        #![trigger p[t]]
        0 <= t < size ==> {
            let ci = t / width;
            let cj = t % width;
            if 1 <= ci && 1 <= cj && (ci + cj < k || (ci + cj == k && cj < j)) {
                &&& h[t] as int == score_h(d, q, ci, cj)
                &&& e[t] as int == score_e(d, q, ci, cj)
                &&& f[t] as int == score_f(d, q, ci, cj)
                &&& p[t] as int == row_p(d, q, ci, cj, width)
            } else {
                &&& h[t] == 0
                &&& e[t] == 0
                &&& f[t] == 0
                &&& p[t] == 0
            }
        }
}

impl DiagonalEngine {
    /// The substitution score of two bytes.
    pub fn weight(d: u8, q: u8) -> (r: i16)
        ensures
            r as int == weight(d, q),
    {
        if d == q {
            WEIGHT_IF_EQ
        } else {
            -WEIGHT_IF_EQ
        }
    }

    /// The scoring stage in wavefront order: for each antidiagonal
    /// `k = i + j` from 2 to `n + m`, fills every interior cell on it.
    /// The result is cell-for-cell the row-major model.
    pub fn fill(d: &Vec<u8>, q: &Vec<u8>) -> (r: (Vec<i16>, Vec<i16>, Vec<i16>, Vec<usize>))
        requires
            align_fits(d@, q@),
        ensures
            row_matrices_model(d@, q@, r.0@, r.3@),
            r.1@.len() == matrix_size(d@, q@),
            r.2@.len() == matrix_size(d@, q@),
    {
        let n = d.len();
        let m = q.len();
        let ghost gw = m as int + 1;
        let ghost size_s = matrix_size(d@, q@);
        proof {
            assert(0 <= size_s && size_s <= 4 * size_s && (n as int + 1) * (m as int + 1) == size_s
                && n as int + 1 <= size_s && m as int + 1 <= size_s
                && n as int + m as int + 1 <= size_s)
                by (nonlinear_arith)
                requires size_s == (n as int + 1) * (m as int + 1);
        }
        let width = m + 1;
        let size = (n + 1) * (m + 1);
        // The four matrices live in writable flat buffers so each
        // antidiagonal's cells can be written independently.
        let mut h: UnsafeSlice<i16> = UnsafeSlice::new(vec![0; size]);
        let mut e: UnsafeSlice<i16> = UnsafeSlice::new(vec![0; size]);
        let mut f: UnsafeSlice<i16> = UnsafeSlice::new(vec![0; size]);
        let mut p: UnsafeSlice<usize> = UnsafeSlice::new(vec![0; size]);
        let mut k: usize = 2;
        while k <= n + m
            invariant
                n == d@.len(),
                m == q@.len(),
                width == m + 1,
                gw == m as int + 1,
                size == size_s,
                size_s == matrix_size(d@, q@),
                align_fits(d@, q@),
                2 <= k,
                k <= n + m + 1 || k == 2,
                n as int + m as int + 1 <= size_s,
                wave_fill_partial(d@, q@, h.view(), e.view(), f.view(), p.view(), k as int, 1),
            decreases n + m + 1 - k,
        {
            // The j-range of the interior cells on antidiagonal k.
            let lower = if k > n {
                k - n
            } else {
                1
            };
            let upper = if m < k - 1 {
                m
            } else {
                k - 1
            };
            proof {
                assert forall|t: int|
                    #![trigger h.view()[t]]
                    #![trigger e.view()[t]]
                    #![trigger f.view()[t]]
                    #![trigger p.view()[t]]
                    0 <= t < size_s implies {
                    let ci = t / gw;
                    let cj = t % gw;
                    if 1 <= ci && 1 <= cj && (ci + cj < k || (ci + cj == k && cj < lower)) {
                        &&& h.view()[t] as int == score_h(d@, q@, ci, cj)
                        &&& e.view()[t] as int == score_e(d@, q@, ci, cj)
                        &&& f.view()[t] as int == score_f(d@, q@, ci, cj)
                        &&& p.view()[t] as int == row_p(d@, q@, ci, cj, gw)
                    } else {
                        &&& h.view()[t] == 0
                        &&& e.view()[t] == 0
                        &&& f.view()[t] == 0
                        &&& p.view()[t] == 0
                    }
                } by {
                    lemma_cell_of_lin(t, gw, n as int);
                }
            }
            let mut j: usize = lower;
            while j <= upper
                invariant
                    n == d@.len(),
                    m == q@.len(),
                    width == m + 1,
                    gw == m as int + 1,
                    size == size_s,
                    size_s == matrix_size(d@, q@),
                    align_fits(d@, q@),
                    2 <= k <= n + m,
                    n as int + m as int + 1 <= size_s,
                    lower == (if k > n { k - n as int } else { 1int }),
                    upper == (if m < k - 1 { m as int } else { k - 1 }),
                    lower <= j <= upper + 1,
                    wave_fill_partial(d@, q@, h.view(), e.view(), f.view(), p.view(), k as int, j as int),
                decreases upper + 1 - j,
            {
                let i = k - j;
                proof {
                    lemma_lin_in_range(i as int, j as int, gw, n as int);
                    lemma_lin_in_range(i - 1, j as int, gw, n as int);
                    lemma_lin_in_range(i as int, j - 1, gw, n as int);
                    lemma_lin_in_range(i - 1, j - 1, gw, n as int);
                    lemma_lin_inverse(i as int, j as int, gw);
                    lemma_lin_inverse(i - 1, j as int, gw);
                    lemma_lin_inverse(i as int, j - 1, gw);
                    lemma_lin_inverse(i - 1, j - 1, gw);
                }
                let here = i * width + j;
                let above = (i - 1) * width + j;
                let left = i * width + j - 1;
                let above_left = (i - 1) * width + j - 1;
                proof {
                    assert(here == lin(i as int, j as int, gw));
                    assert(above == lin(i - 1, j as int, gw));
                    assert(left == lin(i as int, j - 1, gw));
                    assert(above_left == lin(i - 1, j - 1, gw));
                }
                let (e_v, f_v, h_v, org) = compute_cell(
                    d, q, i, j,
                    e.read(left), h.read(left), f.read(above), h.read(above),
                    h.read(above_left),
                );
                let p_v: usize = match org {
                    CellOrigin::Restart => 0,
                    CellOrigin::Diagonal => above_left,
                    CellOrigin::Left => left,
                    CellOrigin::Above => above,
                };
                h.write(here, h_v);
                e.write(here, e_v);
                f.write(here, f_v);
                p.write(here, p_v);
                proof {
                    assert(lin(0, 0, gw) == 0);
                    if org == CellOrigin::Restart {
                        assert(prev_cell(d@, q@, i as int, j as int) == (0int, 0int));
                    }
                    assert(p_v as int == row_p(d@, q@, i as int, j as int, gw));
                    assert forall|t: int|
                        #![trigger h.view()[t]]
                        #![trigger e.view()[t]]
                        #![trigger f.view()[t]]
                        #![trigger p.view()[t]]
                        0 <= t < size_s implies {
                        let ci = t / gw;
                        let cj = t % gw;
                        if 1 <= ci && 1 <= cj && (ci + cj < k || (ci + cj == k && cj < j + 1)) {
                            &&& h.view()[t] as int == score_h(d@, q@, ci, cj)
                            &&& e.view()[t] as int == score_e(d@, q@, ci, cj)
                            &&& f.view()[t] as int == score_f(d@, q@, ci, cj)
                            &&& p.view()[t] as int == row_p(d@, q@, ci, cj, gw)
                        } else {
                            &&& h.view()[t] == 0
                            &&& e.view()[t] == 0
                            &&& f.view()[t] == 0
                            &&& p.view()[t] == 0
                        }
                    } by {
                        lemma_cell_of_lin(t, gw, n as int);
                        if t != here {
                            assert(!(t / gw == i as int && t % gw == j as int));
                        }
                    }
                }
                j += 1;
            }
            proof {
                assert forall|t: int|
                    #![trigger h.view()[t]]
                    #![trigger e.view()[t]]
                    #![trigger f.view()[t]]
                    #![trigger p.view()[t]]
                    0 <= t < size_s implies {
                    let ci = t / gw;
                    let cj = t % gw;
                    if 1 <= ci && 1 <= cj && ci + cj < k + 1 {
                        &&& h.view()[t] as int == score_h(d@, q@, ci, cj)
                        &&& e.view()[t] as int == score_e(d@, q@, ci, cj)
                        &&& f.view()[t] as int == score_f(d@, q@, ci, cj)
                        &&& p.view()[t] as int == row_p(d@, q@, ci, cj, gw)
                    } else {
                        &&& h.view()[t] == 0
                        &&& e.view()[t] == 0
                        &&& f.view()[t] == 0
                        &&& p.view()[t] == 0
                    }
                } by {
                    lemma_cell_of_lin(t, gw, n as int);
                }
            }
            k += 1;
        }
        proof {
            assert forall|t: int| 0 <= t < size_s implies {
                &&& #[trigger] h.view()[t] as int == score_h(d@, q@, t / gw, t % gw)
                &&& p.view()[t] as int == row_p(d@, q@, t / gw, t % gw, gw)
            } by {
                lemma_cell_of_lin(t, gw, n as int);
            }
        }
        (h.into_inner(), e.into_inner(), f.into_inner(), p.into_inner())
    }
}

impl Engine for DiagonalEngine {
    /// The wavefront order computes exactly the row-major model, so this
    /// engine returns the same alignment as the serial one.
    open spec fn alignment_spec(&self, d: Seq<u8>, q: Seq<u8>) -> Seq<(int, int)> {
        row_alignment(d, q)
    }

    fn name(&self) -> (r: String) {
        "Diagonal (CPU)".to_owned()
    }

    fn align<'a>(
        &self,
        database: &'a Sequence,
        query: &'a Sequence,
        metrics: &mut Metrics,
    ) -> (r: AlignedPair<'a>) {
        let (h, _e, _f, p) = Self::fill(&database.raw, &query.raw);
        finish_row_major(database, query, h, p, metrics)
    }
}

} // verus!
