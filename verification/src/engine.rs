//! The engine interface and the executable pieces every engine shares: the
//! per-cell recurrence step, the maximum search, and the traceback walk over
//! a row-major back-pointer matrix.

pub mod diagonal;
pub mod optimized_diagonal;
pub mod naive;

use vstd::prelude::*;

use crate::metrics::Metrics;
use crate::model::{AlignedPair, Sequence};
use crate::scoring::{
    lemma_cell_of_lin, lemma_lin_in_range, lemma_lin_inverse, lemma_score_bounds, lin, min_int,
    origin, prev_cell, row_p, score_e, score_f, score_h, trace_cells, weight, CellOrigin, G_EXT,
    G_INIT, WEIGHT_IF_EQ,
};

verus! {

/// The number of cells of the scoring matrices, border included.
pub open spec fn matrix_size(d: Seq<u8>, q: Seq<u8>) -> int {
    (d.len() as int + 1) * (q.len() as int + 1)
}

/// The machine limits under which an alignment can be computed: the four
/// matrices are addressable and every score fits a signed 16-bit cell.
pub open spec fn align_fits(d: Seq<u8>, q: Seq<u8>) -> bool {
    &&& 4 * matrix_size(d, q) <= usize::MAX as int
    &&& (WEIGHT_IF_EQ as int) * min_int(d.len() as int, q.len() as int) + (WEIGHT_IF_EQ as int)
        <= i16::MAX as int
}

/// The returned pair carries exactly the 0-based positions of the given
/// traceback, column by column.
pub open spec fn alignment_matches<'a>(pair: AlignedPair<'a>, tr: Seq<(int, int)>) -> bool {
    &&& pair.database.indices@.len() == tr.len()
    &&& pair.query.indices@.len() == tr.len()
    &&& forall|t: int| 0 <= t < tr.len()
        ==> pair.database.indices@[t] as int == #[trigger] tr[t].0
            && pair.query.indices@[t] as int == tr[t].1
}

/// A facility that computes the alignment of two sequences.
pub trait Engine {
    /// The exact alignment this engine returns for the given raw sequences,
    /// as a sequence of 0-based position pairs.
    spec fn alignment_spec(&self, d: Seq<u8>, q: Seq<u8>) -> Seq<(int, int)>;

    /// The engine's name.
    fn name(&self) -> (r: String);

    /// Aligns the given two sequences, recording one pair and
    /// `4 * (n+1) * (m+1)` cell updates into `metrics`.
    fn align<'a>(
        &self,
        database: &'a Sequence,
        query: &'a Sequence,
        metrics: &mut Metrics,
    ) -> (r: AlignedPair<'a>)
        requires
            align_fits(database.raw@, query.raw@),
            old(metrics).cell_updates + 4 * matrix_size(database.raw@, query.raw@)
                <= usize::MAX,
            old(metrics).sequence_pairs < usize::MAX,
        ensures
            r.database.sequence == database,
            r.query.sequence == query,
            r.wf(),
            alignment_matches(r, self.alignment_spec(database.raw@, query.raw@)),
            final(metrics).cell_updates == old(metrics).cell_updates
                + 4 * matrix_size(database.raw@, query.raw@),
            final(metrics).sequence_pairs == old(metrics).sequence_pairs + 1,
    ;
}

/// One step of the recurrence: the `E`, `F`, `H` values and the winning
/// alternative at `(i, j)`, computed from the three neighbor cells.
pub(crate) fn compute_cell(
    d: &Vec<u8>,
    q: &Vec<u8>,
    i: usize,
    j: usize,
    e_left: i16,
    h_left: i16,
    f_above: i16,
    h_above: i16,
    h_diag: i16,
) -> (r: (i16, i16, i16, CellOrigin))
    requires
        1 <= i <= d@.len(),
        1 <= j <= q@.len(),
        (WEIGHT_IF_EQ as int) * min_int(d@.len() as int, q@.len() as int) + (WEIGHT_IF_EQ as int)
            <= i16::MAX as int,
        e_left as int == score_e(d@, q@, i as int, j - 1),
        h_left as int == score_h(d@, q@, i as int, j - 1),
        f_above as int == score_f(d@, q@, i - 1, j as int),
        h_above as int == score_h(d@, q@, i - 1, j as int),
        h_diag as int == score_h(d@, q@, i - 1, j - 1),
    ensures
        r.0 as int == score_e(d@, q@, i as int, j as int),
        r.1 as int == score_f(d@, q@, i as int, j as int),
        r.2 as int == score_h(d@, q@, i as int, j as int),
        r.3 == origin(d@, q@, i as int, j as int),
{
    proof {
        let n = d@.len() as int;
        let m = q@.len() as int;
        let w = WEIGHT_IF_EQ as int;
        lemma_score_bounds(d@, q@, i as int, j - 1);
        lemma_score_bounds(d@, q@, i - 1, j as int);
        lemma_score_bounds(d@, q@, i - 1, j - 1);
        assert(w * min_int(i - 1, j - 1) <= w * min_int(n, m)) by (nonlinear_arith)
            requires min_int(i - 1, j - 1) <= min_int(n, m), w >= 0;
        assert(w * min_int(i as int, j - 1) <= w * min_int(n, m)) by (nonlinear_arith)
            requires min_int(i as int, j - 1) <= min_int(n, m), w >= 0;
        assert(w * min_int(i - 1, j as int) <= w * min_int(n, m)) by (nonlinear_arith)
            requires min_int(i - 1, j as int) <= min_int(n, m), w >= 0;
    }
    let w_exec: i16 = if d[i - 1] == q[j - 1] {
        WEIGHT_IF_EQ
    } else {
        -WEIGHT_IF_EQ
    };
    let e_ext = e_left - G_EXT;
    let e_open = h_left - G_INIT;
    let e_val = if e_ext > e_open {
        e_ext
    } else {
        e_open
    };
    let f_ext = f_above - G_EXT;
    let f_open = h_above - G_INIT;
    let f_val = if f_ext > f_open {
        f_ext
    } else {
        f_open
    };
    let diag_val = h_diag + w_exec;
    let mut best: i16 = 0;
    let mut org = CellOrigin::Restart;
    if diag_val > best {
        best = diag_val;
        org = CellOrigin::Diagonal;
    }
    if e_val > best {
        best = e_val;
        org = CellOrigin::Left;
    }
    if f_val > best {
        best = f_val;
        org = CellOrigin::Above;
    }
    proof {
        assert(w_exec as int == weight(d@[i - 1], q@[j - 1]));
        assert(e_val as int == score_e(d@, q@, i as int, j as int));
        assert(f_val as int == score_f(d@, q@, i as int, j as int));
        assert(best as int == score_h(d@, q@, i as int, j as int));
        assert(org == origin(d@, q@, i as int, j as int));
    }
    (e_val, f_val, best, org)
}

/// The position of the maximum of `h`, ties broken towards the smallest
/// position.
pub fn argmax_index(h: &Vec<i16>) -> (t: usize)
    requires
        h@.len() > 0,
    ensures
        t < h@.len(),
        forall|s: int| 0 <= s < h@.len() ==> h@[s] <= h@[t as int],
        forall|s: int| 0 <= s < t ==> h@[s] < h@[t as int],
{
    let mut best: usize = 0;
    let mut s: usize = 1;
    while s < h.len()
        invariant
            0 <= best < s <= h@.len(),
            forall|u: int| 0 <= u < s ==> h@[u] <= h@[best as int],
            forall|u: int| 0 <= u < best ==> h@[u] < h@[best as int],
        decreases h@.len() - s,
    {
        if h[s] > h[best] {
            best = s;
        }
        s += 1;
    }
    best
}

/// A copy of `v` with the elements in reverse order.
pub(crate) fn reversed(v: &Vec<usize>) -> (r: Vec<usize>)
    ensures
        r@.len() == v@.len(),
        forall|t: int| 0 <= t < v@.len() ==> r@[t] == v@[v@.len() - 1 - t],
{
    let mut r: Vec<usize> = Vec::new();
    let mut t: usize = 0;
    while t < v.len()
        invariant
            0 <= t <= v@.len(),
            r@.len() == t,
            forall|u: int| 0 <= u < t ==> r@[u] == v@[v@.len() - 1 - u],
        decreases v@.len() - t,
    {
        r.push(v[v.len() - 1 - t]);
        t += 1;
    }
    r
}

/// The matrices hold exactly the model values in the row-major layout:
/// scores everywhere, back-pointers at interior cells, zeros on the border.
pub open spec fn row_matrices_model(
    d: Seq<u8>,
    q: Seq<u8>,
    h: Seq<i16>,
    p: Seq<usize>,
) -> bool {
    let width = q.len() as int + 1;
    &&& h.len() == matrix_size(d, q)
    &&& p.len() == matrix_size(d, q)
    &&& forall|t: int| 0 <= t < h.len()
        ==> #[trigger] h[t] as int == score_h(d, q, t / width, t % width)
    &&& forall|t: int| 0 <= t < p.len()
        ==> #[trigger] p[t] as int == row_p(d, q, t / width, t % width, width)
}

/// The traceback walk from `start` produced exactly the two position lists.
pub open spec fn traceback_matches(
    d: Seq<u8>,
    q: Seq<u8>,
    start: int,
    r0: Seq<usize>,
    r1: Seq<usize>,
) -> bool {
    let width = q.len() as int + 1;
    let tr = trace_cells(d, q, start / width, start % width);
    &&& r0.len() == tr.len()
    &&& r1.len() == tr.len()
    &&& forall|t: int| 0 <= t < tr.len()
        ==> r0[t] as int == #[trigger] tr[t].0 && r1[t] as int == tr[t].1
}

/// The traceback stage over the row-major layout: follows the back-pointer
/// chain from `start` while the score is positive, then returns both
/// position lists in alignment order.
pub(crate) fn traceback_row_major(
    h: &Vec<i16>,
    p: &Vec<usize>,
    n: usize,
    m: usize,
    start: usize,
    d: Ghost<Seq<u8>>,
    q: Ghost<Seq<u8>>,
) -> (r: (Vec<usize>, Vec<usize>))
    requires
        n == d@.len(),
        m == q@.len(),
        (n + 1) * (m + 1) <= usize::MAX,
        row_matrices_model(d@, q@, h@, p@),
        start < h@.len(),
    ensures
        traceback_matches(d@, q@, start as int, r.0@, r.1@),
{
    proof {
        assert(m as int + 1 <= (n as int + 1) * (m as int + 1)) by (nonlinear_arith);
    }
    let width = m + 1;
    let ghost gd = d@;
    let ghost gq = q@;
    let ghost gwidth = m as int + 1;
    let ghost size = matrix_size(gd, gq);
    let ghost full = trace_cells(gd, gq, start as int / gwidth, start as int % gwidth);
    let mut cur = start;
    let mut dbi: Vec<usize> = Vec::new();
    let mut qin: Vec<usize> = Vec::new();
    proof {
        assert(full.take(full.len() as int) =~= full);
    }
    while cur > 0 && h[cur] > 0
        invariant
            n == gd.len(),
            m == gq.len(),
            width == m + 1,
            gwidth == m as int + 1,
            size == matrix_size(gd, gq),
            (n + 1) * (m + 1) <= usize::MAX,
            row_matrices_model(gd, gq, h@, p@),
            full == trace_cells(gd, gq, start as int / gwidth, start as int % gwidth),
            cur < h@.len(),
            dbi@.len() == qin@.len(),
            dbi@.len() <= full.len(),
            trace_cells(gd, gq, cur as int / gwidth, cur as int % gwidth)
                == full.take(full.len() - dbi@.len()),
            forall|t: int| 0 <= t < dbi@.len()
                ==> dbi@[t] as int == #[trigger] full[full.len() - 1 - t].0
                    && qin@[t] as int == full[full.len() - 1 - t].1,
        decreases cur as int / gwidth + cur as int % gwidth,
    {
        let ghost ci = cur as int / gwidth;
        let ghost cj = cur as int % gwidth;
        proof {
            lemma_cell_of_lin(cur as int, gwidth, n as int);
            assert(h@[cur as int] as int == score_h(gd, gq, ci, cj));
            assert(score_h(gd, gq, ci, cj) > 0);
            assert(ci >= 1 && cj >= 1);
        }
        let i = cur / width;
        let j = cur % width;
        dbi.push(i - 1);
        qin.push(j - 1);
        let ghost k = dbi@.len() - 1;
        proof {
            assert(origin(gd, gq, ci, cj) != CellOrigin::Restart);
            let pc = prev_cell(gd, gq, ci, cj);
            assert(0 <= pc.0 <= n as int && 0 <= pc.1 <= m as int);
            lemma_lin_in_range(pc.0, pc.1, gwidth, n as int);
            assert(p@[cur as int] as int == row_p(gd, gq, ci, cj, gwidth));
            let tr_cur = trace_cells(gd, gq, ci, cj);
            assert(tr_cur == trace_cells(gd, gq, pc.0, pc.1).push((ci - 1, cj - 1)));
            assert(tr_cur == full.take(full.len() - k));
            assert(full.len() - k >= 1);
            assert(full[full.len() - 1 - k] == tr_cur.last());
            assert(trace_cells(gd, gq, pc.0, pc.1) =~= full.take(full.len() - (k + 1)));
            lemma_lin_inverse(pc.0, pc.1, gwidth);
        }
        cur = p[cur];
        proof {
            assert(cur as int == lin(prev_cell(gd, gq, ci, cj).0, prev_cell(gd, gq, ci, cj).1, gwidth));
            assert(cur as int / gwidth + cur as int % gwidth < ci + cj);
        }
    }
    proof {
        let ci = cur as int / gwidth;
        let cj = cur as int % gwidth;
        lemma_cell_of_lin(cur as int, gwidth, n as int);
        if cur == 0 {
            assert(trace_cells(gd, gq, ci, cj) =~= Seq::<(int, int)>::empty());
        } else {
            assert(h@[cur as int] as int == score_h(gd, gq, ci, cj));
            assert(score_h(gd, gq, ci, cj) <= 0);
            assert(trace_cells(gd, gq, ci, cj) =~= Seq::<(int, int)>::empty());
        }
        assert(full.take(full.len() - dbi@.len()).len() == 0);
        assert(dbi@.len() == full.len());
    }
    let r0 = reversed(&dbi);
    let r1 = reversed(&qin);
    proof {
        assert forall|t: int| 0 <= t < full.len() implies r0@[t] as int == #[trigger] full[t].0
            && r1@[t] as int == full[t].1 by {
            assert(r0@[t] == dbi@[full.len() - 1 - t]);
            assert(dbi@[full.len() - 1 - t] as int == full[full.len() - 1 - (full.len() - 1 - t)].0);
            assert(r1@[t] == qin@[full.len() - 1 - t]);
            assert(qin@[full.len() - 1 - t] as int == full[full.len() - 1 - (full.len() - 1 - t)].1);
            assert(full.len() - 1 - (full.len() - 1 - t) == t);
        }
        assert(trace_cells(d@, q@, start as int / (q@.len() as int + 1),
            start as int % (q@.len() as int + 1)) == full);
        assert(traceback_matches(d@, q@, start as int, r0@, r1@));
    }
    (r0, r1)
}

/// The tail every row-major engine shares: record the cell updates, find
/// the best cell, walk the traceback, record the pair, and package the
/// result.
pub(crate) fn finish_row_major<'a>(
    database: &'a Sequence,
    query: &'a Sequence,
    h: Vec<i16>,
    p: Vec<usize>,
    metrics: &mut Metrics,
) -> (r: AlignedPair<'a>)
    requires
        align_fits(database.raw@, query.raw@),
        row_matrices_model(database.raw@, query.raw@, h@, p@),
        old(metrics).cell_updates + 4 * matrix_size(database.raw@, query.raw@) <= usize::MAX,
        old(metrics).sequence_pairs < usize::MAX,
    ensures
        r.database.sequence == database,
        r.query.sequence == query,
        r.wf(),
        alignment_matches(r, crate::scoring::row_alignment(database.raw@, query.raw@)),
        final(metrics).cell_updates == old(metrics).cell_updates
            + 4 * matrix_size(database.raw@, query.raw@),
        final(metrics).sequence_pairs == old(metrics).sequence_pairs + 1,
{
    let ghost gd = database.raw@;
    let ghost gq = query.raw@;
    let n = database.len();
    let m = query.len();
    let ghost gw = m as int + 1;
    proof {
        let ms = matrix_size(gd, gq);
        assert(0 <= ms && ms <= 4 * ms && n as int + 1 <= ms && m as int + 1 <= ms
            && (n as int + 1) * (m as int + 1) == ms && 1 <= ms) by (nonlinear_arith)
            requires ms == (n as int + 1) * (m as int + 1);
    }
    let size = (n + 1) * (m + 1);

    metrics.record_cell_updates(4 * size);

    let start = argmax_index(&h);
    proof {
        let scores = crate::scoring::row_scores(gd, gq);
        assert forall|s: int| 0 <= s < scores.len() implies scores[s] <= scores[start as int]
            && (s < start as int ==> scores[s] < scores[start as int]) by {
            assert(h@[s] as int == score_h(gd, gq, s / gw, s % gw));
            assert(h@[start as int] as int
                == score_h(gd, gq, start as int / gw, start as int % gw));
            assert(h@[s] <= h@[start as int]);
        }
        assert(crate::scoring::is_best_index(scores, start as int));
        crate::scoring::lemma_best_index_exists(scores);
        crate::scoring::lemma_best_index_unique(
            scores,
            start as int,
            crate::scoring::best_index(scores),
        );
    }
    let (dbi, qin) = traceback_row_major(&h, &p, n, m, start, Ghost(gd), Ghost(gq));
    metrics.record_sequence_pair();
    proof {
        lemma_cell_of_lin(start as int, gw, n as int);
        crate::scoring::lemma_trace_bounds(
            gd,
            gq,
            start as int / gw,
            start as int % gw,
            n as int,
            m as int,
        );
        let tr = trace_cells(gd, gq, start as int / gw, start as int % gw);
        assert forall|t: int| 0 <= t < dbi@.len() implies dbi@[t] < n && qin@[t] < m by {
            assert(dbi@[t] as int == tr[t].0);
            assert(0 <= tr[t].0 < n as int && 0 <= tr[t].1 < m as int);
            assert(qin@[t] as int == tr[t].1);
        }
    }
    let aligned_database = crate::model::AlignedSequence::new(database, dbi);
    let aligned_query = crate::model::AlignedSequence::new(query, qin);
    AlignedPair::new(aligned_database, aligned_query)
}

} // verus!
