//! The sequence data model: a named byte sequence, a sequence together with
//! the alignment positions it contributes, and a pair of such alignments.

use vstd::prelude::*;
use vstd::string::StrSliceExecFns;
use vstd::string::StringSliceAdditionalSpecFns;

verus! {

/// The byte rendered for a gap column: `-`.
pub const GAP_BYTE: u8 = 45;

/// A named byte sequence.  The alphabet is opaque: a byte compares equal
/// to itself and unequal to every other byte.
#[derive(PartialEq, Eq, Clone, Debug)]
pub struct Sequence {
    pub name: String,
    pub raw: Vec<u8>,
}

/// An alignment's projection onto one sequence: an ordered list of 0-based
/// positions into that sequence.  A position repeated consecutively denotes
/// a gap column on this side.
#[derive(PartialEq, Eq, Clone, Debug)]
pub struct AlignedSequence<'a> {
    pub sequence: &'a Sequence,
    pub indices: Vec<usize>,
}

/// An alignment of two sequences: the database side and the query side,
/// read together column by column.
#[derive(PartialEq, Eq, Clone, Debug)]
pub struct AlignedPair<'a> {
    pub database: AlignedSequence<'a>,
    pub query: AlignedSequence<'a>,
}

impl Sequence {
    pub fn new(name: &str, raw: Vec<u8>) -> (r: Self)
        ensures
            r.name@ == name@,
            r.raw == raw,
    {
        Self { name: name.to_owned(), raw }
    }

    /// The length of the sequence.
    pub fn len(&self) -> (r: usize)
        ensures
            r == self.raw@.len(),
    {
        self.raw.len()
    }

    /// Repeats the sequence `n` times, keeping its name.
    pub fn cycle(self, n: usize) -> (r: Self)
        requires
            n * self.raw@.len() <= usize::MAX,
        ensures
            r.name == self.name,
            r.raw@.len() == n * self.raw@.len(),
            forall|t: int| 0 <= t < r.raw@.len() ==> r.raw@[t] == self.raw@[t % (self.raw@.len() as int)],
    {
        let len = self.raw.len();
        let total = n * len;
        proof {
            assert(len == 0 ==> total == 0) by (nonlinear_arith)
                requires total == n * len;
        }
        let mut out: Vec<u8> = Vec::new();
        let mut t: usize = 0;
        let mut s: usize = 0;
        while t < total
            invariant
                out@.len() == t,
                0 <= t <= total,
                total == n * self.raw@.len(),
                len == self.raw@.len(),
                t < total ==> len > 0,
                len > 0 ==> s == (t as int) % (len as int),
                forall|u: int| 0 <= u < t ==> out@[u] == self.raw@[u % (len as int)],
            decreases total - t,
        {
            out.push(self.raw[s]);
            s += 1;
            if s == len {
                s = 0;
            }
            proof {
                let ti = t as int;
                let li = len as int;
                assert(0 <= ti % li < li) by (nonlinear_arith)
                    requires li > 0;
                assert((ti + 1) % li == (ti % li + 1) % li) by (nonlinear_arith)
                    requires li > 0;
                if ti % li + 1 == li {
                    assert((ti % li + 1) % li == 0) by (nonlinear_arith)
                        requires li > 0, ti % li + 1 == li;
                } else {
                    assert((ti % li + 1) % li == ti % li + 1) by (nonlinear_arith)
                        requires li > 0, 0 <= ti % li, ti % li + 1 < li;
                }
            }
            t += 1;
        }
        Self { name: self.name, raw: out }
    }
}

impl core::str::FromStr for Sequence {
    type Err = ();

    fn from_str(s: &str) -> (r: Result<Self, Self::Err>)
        ensures
            r matches Ok(sq) && sq.raw@ == s.spec_bytes() && sq.name@ == "Parsed"@,
    {
        Ok(Self::new("Parsed", s.as_bytes_vec()))
    }
}

impl<'a> AlignedSequence<'a> {
    /// Every position is inside the sequence, and a position may repeat only
    /// consecutively (a repeat encodes a gap column).
    pub open spec fn wf(&self) -> bool {
        forall|t: int| 0 <= t < self.indices@.len() ==> self.indices@[t] < self.sequence.raw@.len()
    }

    pub fn new(sequence: &'a Sequence, indices: Vec<usize>) -> (r: Self)
        ensures
            r.sequence == sequence,
            r.indices == indices,
    {
        Self { sequence, indices }
    }

    /// The alignment rendered as bytes: the base at each position, with `-`
    /// wherever the same position repeats (the previous column already
    /// consumed that base).
    pub fn rendered(&self) -> (r: Vec<u8>)
        requires
            self.wf(),
        ensures
            r@ == rendered_spec(self.sequence.raw@, self.indices@),
    {
        let mut out: Vec<u8> = Vec::new();
        let mut t: usize = 0;
        while t < self.indices.len()
            invariant
                self.wf(),
                0 <= t <= self.indices@.len(),
                out@ == rendered_spec(self.sequence.raw@, self.indices@.take(t as int)),
            decreases self.indices@.len() - t,
        {
            let idx = self.indices[t];
            if t > 0 && self.indices[t - 1] == idx {
                out.push(GAP_BYTE);
            } else {
                out.push(self.sequence.raw[idx]);
            }
            proof {
                assert(self.indices@.take(t + 1).drop_last() =~= self.indices@.take(t as int));
                assert(self.indices@.take(t + 1).last() == self.indices@[t as int]);
            }
            t += 1;
        }
        proof {
            assert(self.indices@.take(self.indices@.len() as int) =~= self.indices@);
        }
        out
    }
}

/// What an alignment projection looks like when displayed: the byte of the
/// sequence at each position, with `-` for a consecutively repeated position.
pub open spec fn rendered_spec(raw: Seq<u8>, indices: Seq<usize>) -> Seq<u8>
    decreases indices.len(),
{
    if indices.len() == 0 {
        Seq::empty()
    } else {
        let prefix = rendered_spec(raw, indices.drop_last());
        let t = indices.len() - 1;
        if t > 0 && indices[t - 1] == indices[t] {
            prefix.push(GAP_BYTE)
        } else {
            prefix.push(raw[indices[t] as int])
        }
    }
}

impl<'a> AlignedPair<'a> {
    /// Both sides carry the same number of columns.
    pub open spec fn wf(&self) -> bool {
        &&& self.database.wf()
        &&& self.query.wf()
        &&& self.database.indices@.len() == self.query.indices@.len()
    }

    pub fn new(database: AlignedSequence<'a>, query: AlignedSequence<'a>) -> (r: Self)
        ensures
            r.database == database,
            r.query == query,
    {
        Self { database, query }
    }
}

} // verus!
