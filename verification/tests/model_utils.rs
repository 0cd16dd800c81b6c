//! The data model and the small utilities.

use seqalign::model::{AlignedPair, AlignedSequence, Sequence};
use seqalign::utils::asserter::EqualAsserter;
use seqalign::utils::format::pretty_box;
use seqalign::utils::slice::UnsafeSlice;

#[test]
fn sequence_new_and_len() {
    let s = Sequence::new("chr1", vec![65, 67, 71, 84]);
    assert_eq!(s.name, "chr1");
    assert_eq!(s.len(), 4);
    assert_eq!(s.raw, b"ACGT".to_vec());
}

#[test]
fn sequence_from_str() {
    let s: Sequence = "ACGT".parse().unwrap();
    assert_eq!(s.name, "Parsed");
    assert_eq!(s.raw, b"ACGT".to_vec());
}

#[test]
fn sequence_cycle_repeats() {
    let s = Sequence::new("x", b"ACG".to_vec());
    let c = s.cycle(3);
    assert_eq!(c.name, "x");
    assert_eq!(c.raw, b"ACGACGACG".to_vec());
}

#[test]
fn sequence_cycle_zero_and_empty() {
    let s = Sequence::new("x", b"ACG".to_vec());
    assert_eq!(s.cycle(0).raw, Vec::<u8>::new());
    let e = Sequence::new("e", Vec::new());
    assert_eq!(e.cycle(5).raw, Vec::<u8>::new());
}

#[test]
fn rendered_marks_repeats_as_gaps() {
    let s = Sequence::new("x", b"GTTAC".to_vec());
    let a = AlignedSequence::new(&s, vec![0, 1, 2, 2, 3, 4]);
    assert_eq!(a.rendered(), b"GTT-AC".to_vec());
}

#[test]
fn rendered_empty_alignment() {
    let s = Sequence::new("x", b"GTTAC".to_vec());
    let a = AlignedSequence::new(&s, Vec::new());
    assert_eq!(a.rendered(), Vec::<u8>::new());
}

#[test]
fn aligned_pair_holds_both_sides() {
    let d = Sequence::new("d", b"AC".to_vec());
    let q = Sequence::new("q", b"AC".to_vec());
    let pair = AlignedPair::new(
        AlignedSequence::new(&d, vec![0, 1]),
        AlignedSequence::new(&q, vec![0, 1]),
    );
    assert_eq!(pair.database.indices, vec![0, 1]);
    assert_eq!(pair.query.indices, vec![0, 1]);
}

#[test]
fn equal_asserter_accepts_equal_values() {
    let mut a: EqualAsserter<Vec<usize>> = EqualAsserter::new();
    assert!(a.feed(vec![1, 2, 3]));
    assert!(a.feed(vec![1, 2, 3]));
}

#[test]
fn equal_asserter_rejects_different_values() {
    let mut a: EqualAsserter<Vec<usize>> = EqualAsserter::new();
    assert!(a.feed(vec![1, 2, 3]));
    assert!(!a.feed(vec![1, 2, 4]));
    assert!(a.feed(vec![1, 2, 3]));
}

#[test]
fn unsafe_slice_round_trip() {
    let mut s = UnsafeSlice::new(vec![0i16; 4]);
    assert_eq!(s.len(), 4);
    s.write(2, 7);
    s.write(0, -3);
    assert_eq!(s.read(2), 7);
    assert_eq!(s.read(0), -3);
    assert_eq!(s.read(1), 0);
    assert_eq!(s.into_inner(), vec![-3, 0, 7, 0]);
}

#[test]
fn pretty_box_draws_a_frame() {
    let b = pretty_box("abc");
    assert_eq!(b, "┌─────┐\n│ abc │\n└─────┘");
}

#[test]
fn pretty_box_empty() {
    let b = pretty_box("");
    assert_eq!(b, "┌──┐\n│  │\n└──┘");
}
