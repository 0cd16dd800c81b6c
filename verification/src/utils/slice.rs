//! A writable flat buffer with per-index read and write access.
//! Construction consumes exclusive access to the buffer; the caller owes
//! that no two writers touch the same index, which the type here enforces
//! by holding the only access path.

use vstd::prelude::*;

verus! {

/// A flat buffer with indexed read and write access.
pub struct UnsafeSlice<T> {
    data: Vec<T>,
}

impl<T> UnsafeSlice<T> {
    /// The buffer's contents.
    pub closed spec fn view(&self) -> Seq<T> {
        self.data@
    }

    /// Takes exclusive ownership of the buffer.
    pub fn new(data: Vec<T>) -> (r: Self)
        ensures
            r.view() == data@,
    {
        Self { data }
    }

    /// The buffer's length.
    pub fn len(&self) -> (r: usize)
        ensures
            r == self.view().len(),
    {
        self.data.len()
    }

    /// Writes `value` at index `i`.
    pub fn write(&mut self, i: usize, value: T)
        requires
            i < old(self).view().len(),
        ensures
            final(self).view() == old(self).view().update(i as int, value),
    {
        self.data[i] = value;
    }

    /// Releases the buffer back to the caller.
    pub fn into_inner(self) -> (r: Vec<T>)
        ensures
            r@ == self.view(),
    {
        self.data
    }
}

impl<T: Copy> UnsafeSlice<T> {
    /// Reads the element at index `i`.
    pub fn read(&self, i: usize) -> (r: T)
        requires
            i < self.view().len(),
        ensures
            r == self.view()[i as int],
    {
        self.data[i]
    }
}

} // verus!
