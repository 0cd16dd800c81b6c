//! A verified core for a Smith-Waterman local-alignment library.
//!
//! The library computes local alignments between a "database" sequence and a
//! "query" sequence with affine gap penalties.  Three interchangeable engines
//! fill the scoring matrices in different orders and layouts (row-major
//! serial, row-major wavefront, diagonal-major wavefront); all are proved
//! against the same recurrence, and the two row-major engines are proved to
//! return exactly the same alignment.

pub mod engine;
pub mod fasta;
pub mod laws;
pub mod layout;
pub mod metrics;
pub mod model;
pub mod scoring;
pub mod utils;
