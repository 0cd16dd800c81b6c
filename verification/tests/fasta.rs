//! Parsing sequences in the FASTA format.

use seqalign::fasta::FastaReader;

#[test]
fn parses_two_records() {
    let text = ">first record\nACGT\nTTAA\n>second\nGGCC\n";
    let mut r = FastaReader::new(text);
    let a = r.next().unwrap().unwrap();
    assert_eq!(a.name, "first record");
    assert_eq!(a.raw, b"ACGTTTAA".to_vec());
    let b = r.next().unwrap().unwrap();
    assert_eq!(b.name, "second");
    assert_eq!(b.raw, b"GGCC".to_vec());
    assert!(r.next().unwrap().is_none());
}

#[test]
fn trims_whitespace_at_line_boundaries() {
    let text = ">name \r\n  ACGT \r\n\tTT\r\n";
    let mut r = FastaReader::new(text);
    let a = r.next().unwrap().unwrap();
    assert_eq!(a.name, "name");
    assert_eq!(a.raw, b"ACGTTT".to_vec());
}

#[test]
fn skips_blank_lines_between_records() {
    let text = "\n\n>one\nAC\n\n>two\nGT\n";
    let mut r = FastaReader::new(text);
    let a = r.next().unwrap().unwrap();
    assert_eq!(a.name, "one");
    // A blank line inside a record contributes no bytes.
    assert_eq!(a.raw, b"AC".to_vec());
    let b = r.next().unwrap().unwrap();
    assert_eq!(b.name, "two");
    assert_eq!(b.raw, b"GT".to_vec());
    assert!(r.next().unwrap().is_none());
}

#[test]
fn malformed_first_line_is_an_error() {
    let text = "ACGT\n>name\nAC\n";
    let mut r = FastaReader::new(text);
    assert_eq!(r.next(), Err(0));
}

#[test]
fn empty_input_has_no_records() {
    let mut r = FastaReader::new("");
    assert!(r.next().unwrap().is_none());
}

#[test]
fn record_without_trailing_newline() {
    let text = ">name\nACGT";
    let mut r = FastaReader::new(text);
    let a = r.next().unwrap().unwrap();
    assert_eq!(a.name, "name");
    assert_eq!(a.raw, b"ACGT".to_vec());
    assert!(r.next().unwrap().is_none());
}

#[test]
fn empty_record_body() {
    let text = ">only header\n";
    let mut r = FastaReader::new(text);
    let a = r.next().unwrap().unwrap();
    assert_eq!(a.name, "only header");
    assert_eq!(a.raw, Vec::<u8>::new());
    assert!(r.next().unwrap().is_none());
}

#[test]
fn line_stepping() {
    let text = "one\ntwo\nthree";
    let mut r = FastaReader::new(text);
    assert_eq!(r.current_line(), Some("one"));
    assert_eq!(r.next_line(), Some("two"));
    assert_eq!(r.next_line(), Some("three"));
    assert_eq!(r.next_line(), None);
    assert_eq!(r.current_line(), None);
}
