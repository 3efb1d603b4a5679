//! The traversal capability: how a value tells the collector which objects it
//! holds on to.

use crate::ptr::GcPtr;
use vstd::prelude::*;

verus! {

/// Implemented by every element type a collector manages, and by every
/// structure that serves as a root set.
///
/// The collector walks the object graph itself, so an implementation only
/// reports the handles the value holds directly, never those of its
/// children's children.
///
/// The contracts of the collector speak of a value's handles as its
/// `children`. A verified implementation defines `children` and proves that
/// `traverse` reports just these. An implementation in unverified code has
/// nothing to prove and gives `children` a body that is never run; what the
/// collector promises then holds as long as `traverse` reports the same
/// handles whenever it is asked about the same value.
pub trait Traverseable<T> {
    /// The handles this value holds directly, in the order `traverse` reports
    /// them.
    spec fn children(&self) -> Seq<GcPtr<T>>;

    /// Reports the handle of every object this value holds directly. The
    /// same handle may be reported more than once, and a handle that names
    /// no live object does no harm.
    fn traverse(&self) -> (out: Vec<GcPtr<T>>)
        ensures
            out@ == self.children(),
    ;
}

/// A list of handles is a root set, and an element type, in its own right.
impl<T> Traverseable<T> for Vec<GcPtr<T>> {
    open spec fn children(&self) -> Seq<GcPtr<T>> {
        self@
    }

    fn traverse(&self) -> (out: Vec<GcPtr<T>>) {
        let mut out: Vec<GcPtr<T>> = Vec::new();
        let mut i: usize = 0;
        while i < self.len()
            invariant
                i <= self.len(),
                out@ == self@.take(i as int),
            decreases self.len() - i,
        {
            out.push(self[i]);
            i = i + 1;
            assert(self@.take(i as int) == self@.take(i - 1).push(self@[i - 1]));
        }
        assert(self@.take(i as int) == self@);
        out
    }
}

} // verus!
