//! Callbacks, with a record of the calls that they get.
use crate::sealed::{lemma_can_take, may_be_called, Sealed};
use vstd::prelude::*;

verus! {

/// A callback, together with a record of all calls that it has got since it was put here.
///
/// The only way to the callback is [`call`](Calls::call), and the only way from there is
/// [`Sealed::call`], which makes one call and records it.  So the record says which calls the
/// callback has got, how often, and in what order.  The record is ghost: a `Calls` costs no more
/// than the callback.
pub struct Calls<T, F> {
    sealed: Sealed<T, F>,
}

impl<T, F> Calls<T, F> {
    /// The callback.
    pub closed spec fn function(&self) -> F {
        self.sealed.function()
    }

    /// The elements of the slices that the callback has been called with, one call after the
    /// other.
    pub closed spec fn made(&self) -> Seq<Seq<T>> {
        self.sealed.made()
    }
}

impl<T, F> Calls<T, F> where F: FnMut(&[T]) {
    /// Starts the record of a callback.
    pub fn new(f: F) -> (calls: Self)
        ensures
            calls.function() == f,
            calls.made() == Seq::<Seq<T>>::empty(),
    {
        Calls { sealed: Sealed::new(f) }
    }

    /// Calls the callback once.
    pub fn call(&mut self, slice: &[T])
        requires
            may_be_called(old(self).function(), slice),
        ensures
            final(self).function() == old(self).function(),
            final(self).made() == old(self).made().push(slice@),
            call_ensures(old(self).function(), (slice,), ()),
    {
        proof {
            lemma_can_take(self.sealed.function(), slice);
        }
        self.sealed.call(slice);
    }
}

} // verus!
