//! The serial row-major engine: the recurrence written plainly, row by row.
//! It is the correctness oracle the other engines are held to.

use vstd::prelude::*;

use crate::engine::{
    align_fits, compute_cell, finish_row_major, matrix_size, row_matrices_model, Engine,
};
use crate::metrics::Metrics;
use crate::model::{AlignedPair, Sequence};
use crate::scoring::{
    lemma_cell_of_lin, lemma_lin_in_range, lemma_lin_inverse, lin, prev_cell, row_alignment,
    row_p, score_e, score_f, score_h, weight, CellOrigin, WEIGHT_IF_EQ,
};

verus! {

/// An engine that computes alignments with the plain row-major
/// Smith-Waterman recurrence on the CPU.
pub struct NaiveEngine;

impl Default for NaiveEngine {
    fn default() -> (r: Self) {
        Self
    }
}

/// The matrices agree with the model on every cell for which `done` holds
/// and still hold their initial zero everywhere else.
pub open spec fn row_fill_partial(
    d: Seq<u8>,
    q: Seq<u8>,
    h: Seq<i16>,
    e: Seq<i16>,
    f: Seq<i16>,
    p: Seq<usize>,
    done: spec_fn(int, int) -> bool,
) -> bool {
    let width = q.len() as int + 1;
    let size = matrix_size(d, q);
    &&& h.len() == size
    &&& e.len() == size
    &&& f.len() == size
    &&& p.len() == size
    &&& forall|t: int|
        #![trigger h[t]]
        #![trigger e[t]]
        #![trigger f[t]]
        #![trigger p[t]]
        0 <= t < size ==> {
            let ci = t / width;
            let cj = t % width;
            if done(ci, cj) {
                &&& h[t] as int == score_h(d, q, ci, cj)
                &&& e[t] as int == score_e(d, q, ci, cj)
                &&& f[t] as int == score_f(d, q, ci, cj)
                &&& p[t] as int == row_p(d, q, ci, cj, width)
            } else {
                &&& h[t] == 0
                &&& e[t] == 0
                &&& f[t] == 0
                &&& p[t] == 0
            }
        }
}

impl NaiveEngine {
    /// The substitution score of two bytes.
    pub fn weight(d: u8, q: u8) -> (r: i16)
        ensures
            r as int == weight(d, q),
    {
        if d == q {
            WEIGHT_IF_EQ
        } else {
            -WEIGHT_IF_EQ
        }
    }

    /// The scoring stage: fills `H`, `E`, `F` and the back-pointer matrix
    /// `P` in row-major order, row 0 and column 0 staying the zero border.
    pub fn fill(d: &Vec<u8>, q: &Vec<u8>) -> (r: (Vec<i16>, Vec<i16>, Vec<i16>, Vec<usize>))
        requires
            align_fits(d@, q@),
        ensures
            row_matrices_model(d@, q@, r.0@, r.3@),
            r.1@.len() == matrix_size(d@, q@),
            r.2@.len() == matrix_size(d@, q@),
            forall|t: int| 0 <= t < matrix_size(d@, q@)
                ==> #[trigger] r.1@[t] as int
                    == score_e(d@, q@, t / (q@.len() as int + 1), t % (q@.len() as int + 1)),
            forall|t: int| 0 <= t < matrix_size(d@, q@)
                ==> #[trigger] r.2@[t] as int
                    == score_f(d@, q@, t / (q@.len() as int + 1), t % (q@.len() as int + 1)),
    {
        let n = d.len();
        let m = q.len();
        let ghost gw = m as int + 1;
        let ghost size_s = matrix_size(d@, q@);
        proof {
            assert(0 <= size_s && size_s <= 4 * size_s && (n as int + 1) * (m as int + 1) == size_s
                && n as int + 1 <= size_s && m as int + 1 <= size_s)
                by (nonlinear_arith)
                requires size_s == (n as int + 1) * (m as int + 1);
        }
        let width = m + 1;
        let size = (n + 1) * (m + 1);
        let mut h: Vec<i16> = vec![0; size];
        let mut e: Vec<i16> = vec![0; size];
        let mut f: Vec<i16> = vec![0; size];
        let mut p: Vec<usize> = vec![0; size];
        let mut i: usize = 1;
        while i <= n
            invariant
                n == d@.len(),
                m == q@.len(),
                width == m + 1,
                gw == m as int + 1,
                size == size_s,
                size_s == matrix_size(d@, q@),
                align_fits(d@, q@),
                1 <= i <= n + 1,
                n as int + 1 <= size_s,
                m as int + 1 <= size_s,
                row_fill_partial(d@, q@, h@, e@, f@, p@, (|ci: int, cj: int|
                    1 <= ci && 1 <= cj && ci < i)),
            decreases n + 1 - i,
        {
            let mut j: usize = 1;
            while j <= m
                invariant
                    n == d@.len(),
                    m == q@.len(),
                    width == m + 1,
                    gw == m as int + 1,
                    size == size_s,
                    size_s == matrix_size(d@, q@),
                    align_fits(d@, q@),
                    1 <= i <= n,
                    1 <= j <= m + 1,
                    n as int + 1 <= size_s,
                    m as int + 1 <= size_s,
                    row_fill_partial(d@, q@, h@, e@, f@, p@, (|ci: int, cj: int|
                        1 <= ci && 1 <= cj && (ci < i || (ci == i && cj < j)))),
                decreases m + 1 - j,
            {
                proof {
                    lemma_lin_in_range(i as int, j as int, gw, n as int);
                    lemma_lin_in_range(i - 1, j as int, gw, n as int);
                    lemma_lin_in_range(i as int, j - 1, gw, n as int);
                    lemma_lin_in_range(i - 1, j - 1, gw, n as int);
                    lemma_lin_inverse(i as int, j as int, gw);
                    lemma_lin_inverse(i - 1, j as int, gw);
                    lemma_lin_inverse(i as int, j - 1, gw);
                    lemma_lin_inverse(i - 1, j - 1, gw);
                }
                let here = i * width + j;
                let above = (i - 1) * width + j;
                let left = i * width + j - 1;
                let above_left = (i - 1) * width + j - 1;
                proof {
                    assert(above == lin(i - 1, j as int, gw));
                    assert(left == lin(i as int, j - 1, gw));
                    assert(above_left == lin(i - 1, j - 1, gw));
                }
                let (e_v, f_v, h_v, org) = compute_cell(
                    d, q, i, j, e[left], h[left], f[above], h[above], h[above_left],
                );
                let p_v: usize = match org {
                    CellOrigin::Restart => 0,
                    CellOrigin::Diagonal => above_left,
                    CellOrigin::Left => left,
                    CellOrigin::Above => above,
                };
                h[here] = h_v;
                e[here] = e_v;
                f[here] = f_v;
                p[here] = p_v;
                proof {
                    assert(lin(0, 0, gw) == 0);
                    if org == CellOrigin::Restart {
                        assert(prev_cell(d@, q@, i as int, j as int) == (0int, 0int));
                    }
                    assert(p_v as int == row_p(d@, q@, i as int, j as int, gw));
                    assert forall|t: int|
                        #![trigger h@[t]]
                        #![trigger e@[t]]
                        #![trigger f@[t]]
                        #![trigger p@[t]]
                        0 <= t < size_s implies {
                        let ci = t / gw;
                        let cj = t % gw;
                        if 1 <= ci && 1 <= cj && (ci < i || (ci == i && cj < j + 1)) {
                            &&& h@[t] as int == score_h(d@, q@, ci, cj)
                            &&& e@[t] as int == score_e(d@, q@, ci, cj)
                            &&& f@[t] as int == score_f(d@, q@, ci, cj)
                            &&& p@[t] as int == row_p(d@, q@, ci, cj, gw)
                        } else {
                            &&& h@[t] == 0
                            &&& e@[t] == 0
                            &&& f@[t] == 0
                            &&& p@[t] == 0
                        }
                    } by {
                        lemma_cell_of_lin(t, gw, n as int);
                        if t != here {
                            assert(!(t / gw == i as int && t % gw == j as int));
                        }
                    }
                }
                j += 1;
            }
            i += 1;
        }
        proof {
            assert forall|t: int| 0 <= t < size_s implies {
                &&& #[trigger] h@[t] as int == score_h(d@, q@, t / gw, t % gw)
                &&& e@[t] as int == score_e(d@, q@, t / gw, t % gw)
                &&& f@[t] as int == score_f(d@, q@, t / gw, t % gw)
                &&& p@[t] as int == row_p(d@, q@, t / gw, t % gw, gw)
            } by {
                lemma_cell_of_lin(t, gw, n as int);
            }
        }
        (h, e, f, p)
    }
}

impl Engine for NaiveEngine {
    /// The row-major engines return the traceback from the best cell in
    /// row-major order.
    open spec fn alignment_spec(&self, d: Seq<u8>, q: Seq<u8>) -> Seq<(int, int)> {
        row_alignment(d, q)
    }

    fn name(&self) -> (r: String) {
        "Naive (CPU)".to_owned()
    }

    fn align<'a>(
        &self,
        database: &'a Sequence,
        query: &'a Sequence,
        metrics: &mut Metrics,
    ) -> (r: AlignedPair<'a>) {
        let (h, _e, _f, p) = Self::fill(&database.raw, &query.raw);
        finish_row_major(database, query, h, p, metrics)
    }
}

} // verus!
