//! Concrete adapters at the library's edge: a slice-backed view with front
//! truncation, and the sorted-tag wrapper for iterator producers.

use vstd::prelude::*;
use vstd::slice::slice_subrange;
use vstd::slice::slice_index_get;

verus! {

/// A concrete view over a contiguous in-memory sequence: the remaining window
/// of a borrowed slice, supporting random access, and front truncation that
/// either discards a prefix or returns it as a sub-window.
pub struct SliceIterator<'a, T>(pub &'a [T]);

impl<'a, T> SliceIterator<'a, T> {
    /// The remaining (unconsumed) elements.
    pub open spec fn remaining(&self) -> Seq<T> {
        self.0@
    }

    /// The remaining window as a slice.
    pub fn as_slice(&self) -> (s: &[T])
        ensures
            s@ == self.remaining(),
    {
        self.0
    }

    /// Pop the front element of the window, if any.
    pub fn next(&mut self) -> (r: Option<&'a T>)
        ensures
            match r {
                None => old(self).remaining().len() == 0 && final(self).remaining() == old(
                    self,
                ).remaining(),
                Some(x) => old(self).remaining().len() > 0 && *x == old(self).remaining()[0]
                    && final(self).remaining() == old(self).remaining().skip(1),
            },
    {
        if self.0.is_empty() {
            None
        } else {
            let res: &'a T = slice_index_get(self.0, 0);
            self.0 = slice_subrange(self.0, 1, self.0.len());
            proof {
                assert(self.0@ =~= old(self).remaining().skip(1));
            }
            Some(res)
        }
    }

    /// Discard a front prefix of length `n` without returning it.
    pub fn drop_front(&mut self, n: usize)
        requires
            n <= old(self).remaining().len(),
        ensures
            final(self).remaining() == old(self).remaining().skip(n as int),
    {
        self.0 = slice_subrange(self.0, n, self.0.len());
        proof {
            assert(self.0@ =~= old(self).remaining().skip(n as int));
        }
    }

    /// Discard a front prefix of length `n` and return it as a sub-window.
    pub fn take_front(&mut self, n: usize) -> (res: &'a [T])
        requires
            n <= old(self).remaining().len(),
        ensures
            res@ == old(self).remaining().take(n as int),
            final(self).remaining() == old(self).remaining().skip(n as int),
    {
        let res = slice_subrange(self.0, 0, n);
        self.0 = slice_subrange(self.0, n, self.0.len());
        proof {
            assert(res@ =~= old(self).remaining().take(n as int));
            assert(self.0@ =~= old(self).remaining().skip(n as int));
        }
        res
    }
}

/// Marker wrapper asserting, to any downstream consumer, that the wrapped
/// producer yields its items in ascending order.  A pure pass-through: it
/// transforms nothing and validates nothing.
pub struct SortedIter<I> {
    i: I,
}

impl<I> SortedIter<I> {
    /// The wrapped producer.
    pub closed spec fn inner(&self) -> I {
        self.i
    }

    pub fn new(i: I) -> (s: Self)
        ensures
            s.inner() == i,
    {
        SortedIter { i }
    }

    /// Give the wrapped producer back.
    pub fn into_inner(self) -> (r: I)
        ensures
            r == self.inner(),
    {
        self.i
    }
}

} // verus!
