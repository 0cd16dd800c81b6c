//! Execution metrics: counts of matrix cell updates and of processed
//! sequence pairs.  Timing and printing live with the caller, which owns
//! the clock; the counters here are what the engines are proved to feed.

use vstd::prelude::*;

verus! {

/// A collector of counts about the alignment work done so far.
pub struct Metrics {
    pub cell_updates: usize,
    pub sequence_pairs: usize,
}

impl Metrics {
    /// Creates a new set of metrics with both counters at zero.
    pub fn new() -> (r: Self)
        ensures
            r.cell_updates == 0,
            r.sequence_pairs == 0,
    {
        Self { cell_updates: 0, sequence_pairs: 0 }
    }

    /// Records that a sequence pair has been processed.
    pub fn record_sequence_pair(&mut self)
        requires
            old(self).sequence_pairs < usize::MAX,
        ensures
            final(self).sequence_pairs == old(self).sequence_pairs + 1,
            final(self).cell_updates == old(self).cell_updates,
    {
        self.sequence_pairs += 1;
    }

    /// Records that `count` cell updates have been processed.
    pub fn record_cell_updates(&mut self, count: usize)
        requires
            old(self).cell_updates + count <= usize::MAX,
        ensures
            final(self).cell_updates == old(self).cell_updates + count,
            final(self).sequence_pairs == old(self).sequence_pairs,
    {
        self.cell_updates += count;
    }
}

} // verus!
