//! The mathematical model of a collector's heap: which objects are live, what
//! each of them holds, and which of them a root set reaches.

use crate::ptr::GcPtr;
use crate::traverse::Traverseable;
use vstd::prelude::*;

verus! {

/// What a collector holds, seen from outside.
#[verifier::reject_recursive_types(T)]
pub struct Heap<T> {
    /// The handles of the live objects in allocation-list order, the most
    /// recently allocated first.
    pub handles: Seq<GcPtr<T>>,
    /// The payload of every live object.
    pub values: Map<GcPtr<T>, T>,
}

impl<T> Heap<T> {
    /// The heap without objects.
    pub open spec fn empty() -> Heap<T> {
        Heap { handles: Seq::empty(), values: Map::empty() }
    }

    /// No handle is listed twice, and exactly the listed handles have a
    /// payload.
    pub open spec fn wf(self) -> bool {
        &&& self.handles.no_duplicates()
        &&& self.values.dom() == self.handles.to_set()
    }

    /// Whether `p` names a live object.
    pub open spec fn contains(self, p: GcPtr<T>) -> bool {
        self.handles.contains(p)
    }

    /// The number of live objects.
    pub open spec fn len(self) -> nat {
        self.handles.len()
    }

    /// The handle listed right behind `p`, if `p` is listed and not the last.
    pub open spec fn after(self, p: GcPtr<T>) -> Option<GcPtr<T>> {
        let k = self.handles.index_of(p);
        if self.contains(p) && k + 1 < self.handles.len() {
            Some(self.handles[k + 1])
        } else {
            None
        }
    }

    /// The heap after `value` has been allocated under the handle `p`.
    pub open spec fn allocated(self, p: GcPtr<T>, value: T) -> Heap<T> {
        Heap { handles: seq![p] + self.handles, values: self.values.insert(p, value) }
    }

    /// The heap after the payload of the live object `p` has become `value`.
    pub open spec fn updated(self, p: GcPtr<T>, value: T) -> Heap<T> {
        Heap { handles: self.handles, values: self.values.insert(p, value) }
    }

    /// The heap with only the objects in `keep`, in their old order and with
    /// their old payloads.
    pub open spec fn retain(self, keep: Set<GcPtr<T>>) -> Heap<T> {
        Heap {
            handles: self.handles.filter(|p: GcPtr<T>| keep.contains(p)),
            values: self.values.restrict(keep),
        }
    }
}

impl<T: Traverseable<T>> Heap<T> {
    /// Whether the live object `a` holds a handle to the live object `b`.
    pub open spec fn edge(self, a: GcPtr<T>, b: GcPtr<T>) -> bool {
        &&& self.contains(a)
        &&& self.contains(b)
        &&& self.values[a].children().contains(b)
    }

    /// Whether `path` leads from its first object to its last one, each
    /// object on it live and held by the one before it.
    pub open spec fn is_path(self, path: Seq<GcPtr<T>>) -> bool
        decreases path.len(),
    {
        if path.len() == 0 {
            false
        } else if path.len() == 1 {
            self.contains(path[0])
        } else {
            &&& self.is_path(path.drop_last())
            &&& self.edge(path.drop_last().last(), path.last())
        }
    }

    /// Whether a path leads from a live object among `roots` to `p`. Handles
    /// that name no live object, among the roots or inside an object, lead
    /// nowhere.
    pub open spec fn reaches(self, roots: Seq<GcPtr<T>>, p: GcPtr<T>) -> bool {
        exists|path: Seq<GcPtr<T>>|
            #[trigger] self.is_path(path) && roots.contains(path[0]) && path.last() == p
    }

    /// The live objects that `roots` reach.
    pub open spec fn reachable(self, roots: Seq<GcPtr<T>>) -> Set<GcPtr<T>> {
        Set::new(|p: GcPtr<T>| self.reaches(roots, p))
    }

    /// The heap after a collection with the root handles `roots`: what
    /// `roots` reach stays as it was, everything else is gone.
    pub open spec fn collected(self, roots: Seq<GcPtr<T>>) -> Heap<T> {
        self.retain(self.reachable(roots))
    }

    /// Both ends of a path are live objects.
    pub proof fn lemma_path_live(self, path: Seq<GcPtr<T>>)
        requires
            self.is_path(path),
        ensures
            self.contains(path[0]),
            self.contains(path.last()),
        decreases path.len(),
    {
        if path.len() > 1 {
            self.lemma_path_live(path.drop_last());
        }
    }

    /// A live root is reached.
    pub proof fn lemma_reaches_root(self, roots: Seq<GcPtr<T>>, r: GcPtr<T>)
        requires
            roots.contains(r),
            self.contains(r),
        ensures
            self.reaches(roots, r),
    {
        let path = seq![r];
        assert(self.is_path(path));
        assert(path[0] == r && path.last() == r);
    }

    /// What a reached object holds is reached too.
    pub proof fn lemma_reaches_step(self, roots: Seq<GcPtr<T>>, a: GcPtr<T>, b: GcPtr<T>)
        requires
            self.reaches(roots, a),
            self.edge(a, b),
        ensures
            self.reaches(roots, b),
    {
        let path = choose|path: Seq<GcPtr<T>>|
            #[trigger] self.is_path(path) && roots.contains(path[0]) && path.last() == a;
        let longer = path.push(b);
        assert(longer.drop_last() == path);
        assert(self.is_path(longer));
        assert(longer[0] == path[0] && longer.last() == b);
    }

    /// Only live objects are reached.
    pub proof fn lemma_reaches_live(self, roots: Seq<GcPtr<T>>, p: GcPtr<T>)
        requires
            self.reaches(roots, p),
        ensures
            self.contains(p),
    {
        let path = choose|path: Seq<GcPtr<T>>|
            #[trigger] self.is_path(path) && roots.contains(path[0]) && path.last() == p;
        self.lemma_path_live(path);
    }

    /// A set that holds the live roots, and with an object all that it
    /// holds, contains the end of every path that starts at a root.
    proof fn lemma_closed_set_holds_path(
        self,
        roots: Seq<GcPtr<T>>,
        closed: Set<GcPtr<T>>,
        path: Seq<GcPtr<T>>,
    )
        requires
            forall|r: GcPtr<T>| roots.contains(r) && self.contains(r) ==> closed.contains(r),
            forall|a: GcPtr<T>, b: GcPtr<T>|
                closed.contains(a) && #[trigger] self.edge(a, b) ==> closed.contains(b),
            self.is_path(path),
            roots.contains(path[0]),
        ensures
            closed.contains(path.last()),
        decreases path.len(),
    {
        if path.len() > 1 {
            self.lemma_closed_set_holds_path(roots, closed, path.drop_last());
        }
    }

    /// The reachable objects are the least set that holds the live roots and,
    /// with an object, all that it holds.
    pub proof fn lemma_closed_set_holds_reachable(
        self,
        roots: Seq<GcPtr<T>>,
        closed: Set<GcPtr<T>>,
    )
        requires
            forall|r: GcPtr<T>| roots.contains(r) && self.contains(r) ==> closed.contains(r),
            forall|a: GcPtr<T>, b: GcPtr<T>|
                closed.contains(a) && #[trigger] self.edge(a, b) ==> closed.contains(b),
        ensures
            self.reachable(roots).subset_of(closed),
    {
        assert forall|p: GcPtr<T>| self.reaches(roots, p) implies closed.contains(p) by {
            let path = choose|path: Seq<GcPtr<T>>|
                #[trigger] self.is_path(path) && roots.contains(path[0]) && path.last() == p;
            self.lemma_closed_set_holds_path(roots, closed, path);
        }
    }

    /// One root more reaches what the others reach and what it reaches
    /// itself.
    pub proof fn lemma_reachable_push(self, roots: Seq<GcPtr<T>>, r: GcPtr<T>)
        ensures
            self.reachable(roots.push(r)) == self.reachable(roots).union(
                self.reachable(seq![r]),
            ),
    {
        let more = roots.push(r);
        let one = seq![r];
        assert forall|p: GcPtr<T>| self.reaches(more, p) <==> self.reaches(roots, p)
            || self.reaches(one, p) by {
            if self.reaches(more, p) {
                let path = choose|path: Seq<GcPtr<T>>|
                    #[trigger] self.is_path(path) && more.contains(path[0]) && path.last() == p;
                let j = choose|j: int| 0 <= j < more.len() && more[j] == path[0];
                if j < roots.len() {
                    assert(roots[j] == path[0]);
                } else {
                    assert(one[0] == path[0]);
                }
            }
            if self.reaches(roots, p) {
                let path = choose|path: Seq<GcPtr<T>>|
                    #[trigger] self.is_path(path) && roots.contains(path[0]) && path.last() == p;
                let j = choose|j: int| 0 <= j < roots.len() && roots[j] == path[0];
                assert(more[j] == path[0]);
            }
            if self.reaches(one, p) {
                let path = choose|path: Seq<GcPtr<T>>|
                    #[trigger] self.is_path(path) && one.contains(path[0]) && path.last() == p;
                assert(more[roots.len() as int] == path[0]);
            }
        }
        assert(self.reachable(more) =~= self.reachable(roots).union(self.reachable(one)));
    }
}

} // verus!
