//! Values that have a cache line to themselves, with `crossbeam_utils::CachePadded`.
use crossbeam_utils::CachePadded;
use vstd::prelude::*;

verus! {

/// `crossbeam_utils::CachePadded`: a value with padding around it, opaque here.
#[verifier::external_type_specification]
#[verifier::external_body]
#[verifier::reject_recursive_types(T)]
pub struct ExCachePadded<T>(crossbeam_utils::CachePadded<T>);

/// A value that has a cache line to itself.
#[verifier::reject_recursive_types(T)]
pub struct Padded<T> {
    padded: CachePadded<T>,
    content: Ghost<T>,
}

impl<T> View for Padded<T> {
    type V = T;

    closed spec fn view(&self) -> T {
        self.content@
    }
}

impl<T> Padded<T> {
    /// `crossbeam_utils::CachePadded::new` pads a value: it holds the value that it was given.
    #[verifier::external_body]
    pub(crate) fn new(value: T) -> (padded: Self)
        ensures
            padded@ == value,
    {
        Padded { content: Ghost(value), padded: CachePadded::new(value) }
    }

    /// `crossbeam_utils::CachePadded::deref` gives a reference to the value that is padded.
    #[verifier::external_body]
    pub(crate) fn get(&self) -> (value: &T)
        ensures
            *value == self@,
    {
        &*self.padded
    }

    /// `crossbeam_utils::CachePadded::deref_mut` gives a mutable reference to the value that is
    /// padded: what is written through it is the padded value from then on.
    #[verifier::external_body]
    pub(crate) fn get_mut(&mut self) -> (value: &mut T)
        ensures
            *value == old(self)@,
            final(self)@ == *final(value),
    {
        &mut *self.padded
    }
}

} // verus!
