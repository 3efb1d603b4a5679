//! Handles to collector-managed objects.

use core::marker::PhantomData;
use vstd::prelude::*;

verus! {

/// A handle to an object of type `T` that lives in a [`crate::gc::Gc`].
///
/// A handle is a plain slot number: copying it is free and it keeps nothing
/// alive. Only reachability from the roots handed to a collection does. Once
/// the object it names has been reclaimed the handle dangles; the collector
/// then treats it as naming nothing, until the slot is given out again.
#[derive(Debug)]
pub struct GcPtr<T> {
    pub(crate) index: usize,
    pub(crate) marker: PhantomData<T>,
}

impl<T> GcPtr<T> {
    /// The number of the slot this handle names.
    pub closed spec fn slot(self) -> nat {
        self.index as nat
    }

    /// The handle that names slot `index`.
    pub(crate) open spec fn at(index: usize) -> GcPtr<T> {
        GcPtr { index, marker: PhantomData }
    }

    /// The number of the slot this handle names.
    pub fn index(&self) -> (i: usize)
        ensures
            i == self.slot(),
    {
        self.index
    }

    /// The slot number is the index the handle carries.
    pub(crate) proof fn lemma_slot_is_index(self)
        ensures
            self.slot() == self.index,
    {
    }
}

impl<T> Clone for GcPtr<T> {
    fn clone(&self) -> (copy: Self)
        ensures
            copy == *self,
    {
        GcPtr { index: self.index, marker: PhantomData }
    }
}

impl<T> Copy for GcPtr<T> {

}

impl<T> PartialEq for GcPtr<T> {
    fn eq(&self, other: &GcPtr<T>) -> (same: bool) {
        self.index == other.index
    }
}

impl<T> Eq for GcPtr<T> {

}

impl<T> vstd::std_specs::cmp::PartialEqSpecImpl for GcPtr<T> {
    open spec fn obeys_eq_spec() -> bool {
        true
    }

    open spec fn eq_spec(&self, other: &GcPtr<T>) -> bool {
        *self == *other
    }
}

} // verus!
