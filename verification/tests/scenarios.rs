//! End-to-end alignment scenarios, with the default scoring parameters
//! (match +3, gap open 2, gap extension 2).

use seqalign::engine::diagonal::DiagonalEngine;
use seqalign::engine::naive::NaiveEngine;
use seqalign::engine::optimized_diagonal::OptimizedDiagonalEngine;
use seqalign::engine::Engine;
use seqalign::metrics::Metrics;
use seqalign::model::Sequence;

fn seq(name: &str, text: &str) -> Sequence {
    Sequence::new(name, text.as_bytes().to_vec())
}

fn max_h(d: &Sequence, q: &Sequence) -> i16 {
    let (h, _e, _f, _p) = NaiveEngine::fill(&d.raw, &q.raw);
    h.iter().copied().max().unwrap()
}

fn rendered(d: &Sequence, q: &Sequence, engine: &impl Engine) -> (String, String) {
    let mut metrics = Metrics::new();
    let pair = engine.align(d, q, &mut metrics);
    (
        String::from_utf8(pair.database.rendered()).unwrap(),
        String::from_utf8(pair.query.rendered()).unwrap(),
    )
}

#[test]
fn s1_mixed_alignment() {
    let d = seq("d", "TGTTACGG");
    let q = seq("q", "GGTTGACTA");
    assert_eq!(max_h(&d, &q), 13);
    let (rd, rq) = rendered(&d, &q, &NaiveEngine);
    assert_eq!(rd, "GTT-AC");
    assert_eq!(rq, "GTTGAC");
    let (rd2, rq2) = rendered(&d, &q, &DiagonalEngine);
    assert_eq!(rd2, "GTT-AC");
    assert_eq!(rq2, "GTTGAC");
}

#[test]
fn s2_identical_sequences() {
    let d = seq("d", "AAAA");
    let q = seq("q", "AAAA");
    assert_eq!(max_h(&d, &q), 12);
    let (rd, rq) = rendered(&d, &q, &NaiveEngine);
    assert_eq!(rd, "AAAA");
    assert_eq!(rq, "AAAA");
    let (rd2, rq2) = rendered(&d, &q, &OptimizedDiagonalEngine);
    assert_eq!(rd2, "AAAA");
    assert_eq!(rq2, "AAAA");
}

#[test]
fn s3_no_positive_cell() {
    let d = seq("d", "AAAA");
    let q = seq("q", "TTTT");
    assert_eq!(max_h(&d, &q), 0);
    for (dbi, qin) in [
        {
            let mut m = Metrics::new();
            let p = NaiveEngine.align(&d, &q, &mut m);
            (p.database.indices.clone(), p.query.indices.clone())
        },
        {
            let mut m = Metrics::new();
            let p = DiagonalEngine.align(&d, &q, &mut m);
            (p.database.indices.clone(), p.query.indices.clone())
        },
        {
            let mut m = Metrics::new();
            let p = OptimizedDiagonalEngine.align(&d, &q, &mut m);
            (p.database.indices.clone(), p.query.indices.clone())
        },
    ] {
        assert!(dbi.is_empty());
        assert!(qin.is_empty());
    }
}

#[test]
fn s4_single_base_query() {
    let d = seq("d", "ACGT");
    let q = seq("q", "A");
    assert_eq!(max_h(&d, &q), 3);
    let (rd, rq) = rendered(&d, &q, &NaiveEngine);
    assert_eq!(rd, "A");
    assert_eq!(rq, "A");
}

#[test]
fn s5_gattaca_pair() {
    // With match +3 and gap open 2, aligning G-AT against GCAT already
    // scores 3 - 2 + 3 + 3 = 7, so 7 is the maximum the recurrence gives.
    let d = seq("d", "GATTACA");
    let q = seq("q", "GCATGCU");
    assert_eq!(max_h(&d, &q), 7);
    let mut m = Metrics::new();
    let pair = NaiveEngine.align(&d, &q, &mut m);
    assert_eq!(pair.database.indices.len(), pair.query.indices.len());
    let mut m2 = Metrics::new();
    let pair2 = OptimizedDiagonalEngine.align(&d, &q, &mut m2);
    assert_eq!(pair2.database.indices.len(), pair2.query.indices.len());
}

#[test]
fn s6_empty_query() {
    let d = seq("d", "ACGT");
    let q = seq("q", "");
    let mut m = Metrics::new();
    let pair = NaiveEngine.align(&d, &q, &mut m);
    assert!(pair.database.indices.is_empty());
    assert!(pair.query.indices.is_empty());
    let mut m2 = Metrics::new();
    let pair2 = OptimizedDiagonalEngine.align(&d, &q, &mut m2);
    assert!(pair2.database.indices.is_empty());
    assert!(pair2.query.indices.is_empty());
}

#[test]
fn oracle_equivalence_on_corpus() {
    let corpus = [
        ("TGTTACGG", "GGTTGACTA"),
        ("AAAA", "AAAA"),
        ("AAAA", "TTTT"),
        ("ACGT", "A"),
        ("GATTACA", "GCATGCU"),
        ("ACGTACGTACGT", "TACG"),
        ("GGGGCCCC", "GGCC"),
        ("A", "A"),
    ];
    for (ds, qs) in corpus {
        let d = seq("d", ds);
        let q = seq("q", qs);
        let mut m = Metrics::new();
        let naive = NaiveEngine.align(&d, &q, &mut m);
        let wave = DiagonalEngine.align(&d, &q, &mut m);
        let opt = OptimizedDiagonalEngine.align(&d, &q, &mut m);
        // The two row-major engines agree column for column.
        assert_eq!(naive.database.indices, wave.database.indices);
        assert_eq!(naive.query.indices, wave.query.indices);
        // The diagonal-major engine may pick another equal-score path, but
        // the score at the traceback start must agree.
        let (h, _e, _f, _p) = NaiveEngine::fill(&d.raw, &q.raw);
        let best: i16 = h.iter().copied().max().unwrap();
        let width = q.raw.len() + 1;
        let score_at = |dbi: &Vec<usize>, qin: &Vec<usize>| -> i16 {
            if dbi.is_empty() {
                0
            } else {
                let i = dbi[dbi.len() - 1] + 1;
                let j = qin[qin.len() - 1] + 1;
                h[i * width + j]
            }
        };
        assert_eq!(score_at(&naive.database.indices, &naive.query.indices), best.max(0));
        assert_eq!(score_at(&opt.database.indices, &opt.query.indices), best.max(0));
    }
}

#[test]
fn determinism_same_engine_twice() {
    let d = seq("d", "TGTTACGG");
    let q = seq("q", "GGTTGACTA");
    for _ in 0..2 {
        let mut m1 = Metrics::new();
        let mut m2 = Metrics::new();
        let a = OptimizedDiagonalEngine.align(&d, &q, &mut m1);
        let b = OptimizedDiagonalEngine.align(&d, &q, &mut m2);
        assert_eq!(a.database.indices, b.database.indices);
        assert_eq!(a.query.indices, b.query.indices);
        let c = NaiveEngine.align(&d, &q, &mut m1);
        let e = NaiveEngine.align(&d, &q, &mut m2);
        assert_eq!(c.database.indices, e.database.indices);
        assert_eq!(c.query.indices, e.query.indices);
    }
}

#[test]
fn metrics_arithmetic() {
    let d = seq("d", "TGTTACGG");
    let q = seq("q", "GGTTGACTA");
    let n = d.raw.len();
    let m = q.raw.len();
    let mut metrics = Metrics::new();
    NaiveEngine.align(&d, &q, &mut metrics);
    assert_eq!(metrics.cell_updates, 4 * (n + 1) * (m + 1));
    assert_eq!(metrics.sequence_pairs, 1);
    DiagonalEngine.align(&d, &q, &mut metrics);
    assert_eq!(metrics.cell_updates, 8 * (n + 1) * (m + 1));
    assert_eq!(metrics.sequence_pairs, 2);
    OptimizedDiagonalEngine.align(&d, &q, &mut metrics);
    assert_eq!(metrics.cell_updates, 12 * (n + 1) * (m + 1));
    assert_eq!(metrics.sequence_pairs, 3);
}

#[test]
fn index_bounds_on_corpus() {
    let corpus = [("TGTTACGG", "GGTTGACTA"), ("GATTACA", "GCATGCU"), ("ACGT", "A")];
    for (ds, qs) in corpus {
        let d = seq("d", ds);
        let q = seq("q", qs);
        let mut m = Metrics::new();
        for pair in [
            NaiveEngine.align(&d, &q, &mut m),
            DiagonalEngine.align(&d, &q, &mut m),
            OptimizedDiagonalEngine.align(&d, &q, &mut m),
        ] {
            assert_eq!(pair.database.indices.len(), pair.query.indices.len());
            for &i in &pair.database.indices {
                assert!(i < d.raw.len());
            }
            for &j in &pair.query.indices {
                assert!(j < q.raw.len());
            }
            // A position repeats only in consecutive columns: each step
            // advances each side by 0 or 1 and at least one side moves.
            for t in 1..pair.database.indices.len() {
                let d_step = pair.database.indices[t] - pair.database.indices[t - 1];
                let q_step = pair.query.indices[t] - pair.query.indices[t - 1];
                assert!(d_step <= 1 && q_step <= 1 && d_step + q_step >= 1);
            }
        }
    }
}
