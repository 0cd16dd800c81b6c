//! The recurrence identities on engine-filled matrices: for every interior
//! cell, `E`, `F` and `H` satisfy the affine-gap equations, whichever
//! engine filled them.

use seqalign::engine::diagonal::DiagonalEngine;
use seqalign::engine::naive::NaiveEngine;
use seqalign::engine::optimized_diagonal::OptimizedDiagonalEngine;

const G_INIT: i16 = 2;
const G_EXT: i16 = 2;
const W: i16 = 3;

/// A small deterministic pseudo-random byte sequence over the DNA alphabet.
fn pseudo_random_bases(seed: u64, len: usize) -> Vec<u8> {
    let alphabet = b"ACGT";
    let mut state = seed.wrapping_mul(6364136223846793005).wrapping_add(1442695040888963407);
    let mut out = Vec::with_capacity(len);
    for _ in 0..len {
        state = state.wrapping_mul(6364136223846793005).wrapping_add(1442695040888963407);
        out.push(alphabet[(state >> 33) as usize % 4]);
    }
    out
}

fn weight(a: u8, b: u8) -> i16 {
    if a == b {
        W
    } else {
        -W
    }
}

fn check_row_major(d: &[u8], q: &[u8], h: &[i16], e: &[i16], f: &[i16], p: &[usize]) {
    let n = d.len();
    let m = q.len();
    let width = m + 1;
    for i in 1..=n {
        for j in 1..=m {
            let here = i * width + j;
            let above = (i - 1) * width + j;
            let left = i * width + j - 1;
            let above_left = (i - 1) * width + j - 1;
            assert_eq!(e[here], (e[left] - G_EXT).max(h[left] - G_INIT));
            assert_eq!(f[here], (f[above] - G_EXT).max(h[above] - G_INIT));
            let diag = h[above_left] + weight(d[i - 1], q[j - 1]);
            assert_eq!(h[here], 0.max(diag).max(e[here]).max(f[here]));
            assert!([0, above_left, left, above].contains(&p[here]));
        }
    }
}

#[test]
fn recurrence_holds_for_serial_fill() {
    for (seed, n, m) in [(1, 7, 5), (2, 4, 9), (3, 1, 1), (4, 12, 3)] {
        let d = pseudo_random_bases(seed, n);
        let q = pseudo_random_bases(seed + 100, m);
        let (h, e, f, p) = NaiveEngine::fill(&d, &q);
        check_row_major(&d, &q, &h, &e, &f, &p);
    }
}

#[test]
fn recurrence_holds_for_wavefront_fill() {
    for (seed, n, m) in [(5, 6, 6), (6, 3, 8), (7, 10, 2)] {
        let d = pseudo_random_bases(seed, n);
        let q = pseudo_random_bases(seed + 100, m);
        let (h, e, f, p) = DiagonalEngine::fill(&d, &q);
        check_row_major(&d, &q, &h, &e, &f, &p);
        // The wavefront order fills exactly the serial matrices.
        let (h2, e2, f2, p2) = NaiveEngine::fill(&d, &q);
        assert_eq!(h, h2);
        assert_eq!(e, e2);
        assert_eq!(f, f2);
        assert_eq!(p, p2);
    }
}

#[test]
fn recurrence_holds_for_diagonal_major_fill() {
    for (seed, n, m) in [(8, 5, 7), (9, 9, 4), (10, 2, 2)] {
        let d = pseudo_random_bases(seed, n);
        let q = pseudo_random_bases(seed + 100, m);
        let (h, e, f, _p, iv, jv) = OptimizedDiagonalEngine::fill(&d, &q);
        let width = m + 1;
        // Rebuild the cell-to-position map from the stored coordinates.
        let mut pos = vec![usize::MAX; (n + 1) * (m + 1)];
        for t in 0..h.len() {
            if iv[t] >= 1 && jv[t] >= 1 {
                pos[iv[t] * width + jv[t]] = t;
            }
        }
        let (hr, er, fr, _pr) = NaiveEngine::fill(&d, &q);
        for i in 1..=n {
            for j in 1..=m {
                let t = pos[i * width + j];
                assert_ne!(t, usize::MAX, "interior cell missing from the flat buffer");
                // Cell for cell the diagonal-major fill computes the same
                // three scores as the serial reference.
                assert_eq!(h[t], hr[i * width + j]);
                assert_eq!(e[t], er[i * width + j]);
                assert_eq!(f[t], fr[i * width + j]);
            }
        }
        // The recurrence itself, read through the layout map.
        for i in 1..=n {
            for j in 1..=m {
                let here = pos[i * width + j];
                let read = |ci: usize, cj: usize, mat: &[i16]| -> i16 {
                    if ci == 0 || cj == 0 {
                        0
                    } else {
                        mat[pos[ci * width + cj]]
                    }
                };
                assert_eq!(
                    e[here],
                    (read(i, j - 1, &e) - G_EXT).max(read(i, j - 1, &h) - G_INIT)
                );
                assert_eq!(
                    f[here],
                    (read(i - 1, j, &f) - G_EXT).max(read(i - 1, j, &h) - G_INIT)
                );
                let diag = read(i - 1, j - 1, &h) + weight(d[i - 1], q[j - 1]);
                assert_eq!(h[here], 0.max(diag).max(e[here]).max(f[here]));
            }
        }
    }
}
