//! Callbacks that can be called only together with a record of the call.
//!
//! A contract cannot say how often a closure is called, since a call leaves the closure as it was.
//! The types can.  Nothing in this module that runs knows that a callback can be called more than
//! once: [`Sealed::call`] knows only that the one reference to the callback that it is given can be
//! used up by a call, and [`fire`], which makes the call, is given that reference for good.  Nothing
//! outside this module gets at the callback of a [`Sealed`].
use vstd::prelude::*;

verus! {

/// A callback, together with a record of all calls that it has got since it was put here.
pub struct Sealed<T, F> {
    f: F,
    made: Ghost<Seq<Seq<T>>>,
}

/// Whether a callback can be called with a slice.  What this means is known in this module only, so
/// that whoever knows no more of a callback than this has no way to call it but [`Sealed::call`].
pub closed spec fn sealed_call_requires<T, F: FnMut(&[T])>(f: F, slice: &[T]) -> bool {
    call_requires(f, (slice,))
}

/// Whether a callback can be called with a slice.
pub open spec fn may_be_called<T, F: FnMut(&[T])>(f: F, slice: &[T]) -> bool {
    call_requires(f, (slice,)) || sealed_call_requires(f, slice)
}

/// Whether a reference to a callback can be used up by a call with a slice.
pub closed spec fn can_take<'a, T, F: 'a>(f: F, slice: &[T]) -> bool where &'a mut F: FnOnce(&[T]) {
    forall|g: &'a mut F| *g == f ==> #[trigger] call_requires(g, (slice,))
}

/// A reference to a callback that can be called can be used up by a call.
pub proof fn lemma_can_take<'a, T, F: 'a + FnMut(&[T])>(f: F, slice: &[T])
    requires
        may_be_called(f, slice),
    ensures
        can_take::<T, F>(f, slice),
{
}

/// Calls a callback that can be called once, and records the call.
fn fire<T, G: FnOnce(&[T])>(g: G, made: &mut Ghost<Seq<Seq<T>>>, slice: &[T])
    requires
        call_requires(g, (slice,)),
    ensures
        call_ensures(g, (slice,), ()),
        final(made)@ == old(made)@.push(slice@),
{
    g(slice);
    *made = Ghost(made@.push(slice@));
}

impl<T, F> Sealed<T, F> {
    /// The callback.
    pub closed spec fn function(&self) -> F {
        self.f
    }

    /// The elements of the slices that the callback has been called with, one call after the
    /// other.
    pub closed spec fn made(&self) -> Seq<Seq<T>> {
        self.made@
    }

    /// Starts the record of a callback.
    pub fn new(f: F) -> (sealed: Self)
        ensures
            sealed.function() == f,
            sealed.made() == Seq::<Seq<T>>::empty(),
    {
        Sealed { f, made: Ghost(Seq::empty()) }
    }

    /// Calls the callback once, and records the call.
    pub fn call<'a>(&'a mut self, slice: &[T]) where &'a mut F: FnOnce(&[T])
        requires
            can_take::<T, F>(old(self).function(), slice),
        ensures
            exists|g: &'a mut F|
                *g == old(self).function() && *final(g) == final(self).function()
                    && #[trigger] call_ensures(g, (slice,), ()),
            final(self).made() == old(self).made().push(slice@),
    {
        fire(&mut self.f, &mut self.made, slice);
    }
}

} // verus!
