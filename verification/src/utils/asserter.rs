//! A facility that checks that all values it is given are equal — more
//! specifically, that every value after the first equals the first.

use vstd::prelude::*;
use vstd::std_specs::cmp::PartialEqSpec;

verus! {

/// Remembers the first value it is fed and compares every later value
/// against it.
pub struct EqualAsserter<T> {
    pub first: Option<T>,
}

impl<T: PartialEq> EqualAsserter<T> {
    pub fn new() -> (r: Self)
        ensures
            r.first is None,
    {
        Self { first: None }
    }

    /// Feeds one value: the first is remembered, every later one is
    /// compared against it.
    pub fn feed(&mut self, value: T) -> (r: bool)
        ensures
            old(self).first is None ==> final(self).first == Some(value) && r,
            old(self).first matches Some(first) ==> final(self).first == old(self).first
                && (T::obeys_eq_spec() ==> r == first.eq_spec(&value)),
    {
        match &self.first {
            Some(first) => *first == value,
            None => {
                self.first = Some(value);
                true
            },
        }
    }
}

} // verus!
