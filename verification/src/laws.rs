//! What holds of every collection, stated over the model of the heap.

use crate::heap::Heap;
use crate::ptr::GcPtr;
use crate::traverse::Traverseable;
use vstd::prelude::*;

verus! {

impl<T> Heap<T> {
    /// The heap after the objects `values` have been allocated one after the
    /// other, the `i`-th of them under the handle `handles[i]`.
    pub open spec fn allocated_all(self, handles: Seq<GcPtr<T>>, values: Seq<T>) -> Heap<T>
        decreases handles.len(),
    {
        if handles.len() == 0 {
            self
        } else {
            self.allocated_all(handles.drop_last(), values.drop_last()).allocated(
                handles.last(),
                values.last(),
            )
        }
    }

    /// Retaining keeps a heap consistent, and keeps of its objects exactly
    /// those in `keep`.
    pub proof fn lemma_retain(self, keep: Set<GcPtr<T>>)
        requires
            self.wf(),
        ensures
            self.retain(keep).wf(),
            self.retain(keep).len() <= self.len(),
            forall|p: GcPtr<T>|
                #[trigger] self.retain(keep).contains(p) <==> self.contains(p) && keep.contains(p),
            forall|p: GcPtr<T>|
                self.retain(keep).contains(p) ==> #[trigger] self.retain(keep).values[p]
                    == self.values[p],
    {
        let pred = |p: GcPtr<T>| keep.contains(p);
        let kept = self.handles.filter(pred);
        self.handles.lemma_filter_len(pred);
        assert forall|p: GcPtr<T>| kept.contains(p) <==> self.handles.contains(p) && keep.contains(
            p,
        ) by {
            if kept.contains(p) {
                let j = choose|j: int| 0 <= j < kept.len() && kept[j] == p;
                self.handles.lemma_filter_pred(pred, j);
                self.handles.lemma_filter_contains_rev(pred, p);
            }
            if self.handles.contains(p) && keep.contains(p) {
                let j = choose|j: int| 0 <= j < self.handles.len() && self.handles[j] == p;
                self.handles.lemma_filter_contains(pred, j);
            }
        }
        lemma_filter_no_duplicates(self.handles, pred);
        assert(self.retain(keep).values.dom() =~= kept.to_set());
    }

    /// Retaining what holds every object of the heap changes nothing.
    pub proof fn lemma_retain_all(self, keep: Set<GcPtr<T>>)
        requires
            self.wf(),
            forall|p: GcPtr<T>| self.contains(p) ==> keep.contains(p),
        ensures
            self.retain(keep) == self,
    {
        lemma_filter_all(self.handles, |p: GcPtr<T>| keep.contains(p));
        assert(self.retain(keep).values =~= self.values);
    }
}

/// A list without duplicates has none after filtering.
proof fn lemma_filter_no_duplicates<A>(s: Seq<A>, pred: spec_fn(A) -> bool)
    requires
        s.no_duplicates(),
    ensures
        s.filter(pred).no_duplicates(),
    decreases s.len(),
{
    reveal(Seq::filter);
    if s.len() > 0 {
        let front = s.drop_last();
        lemma_filter_no_duplicates(front, pred);
        if pred(s.last()) {
            let kept = front.filter(pred);
            assert forall|i: int| 0 <= i < kept.len() implies kept[i] != s.last() by {
                front.lemma_filter_contains_rev(pred, kept[i]);
                let j = choose|j: int| 0 <= j < front.len() && front[j] == kept[i];
                assert(s[j] == kept[i]);
            }
        }
    }
}

/// Filtering a list by what all its elements meet changes nothing.
proof fn lemma_filter_all<A>(s: Seq<A>, pred: spec_fn(A) -> bool)
    requires
        forall|i: int| 0 <= i < s.len() ==> pred(#[trigger] s[i]),
    ensures
        s.filter(pred) == s,
    decreases s.len(),
{
    reveal(Seq::filter);
    if s.len() > 0 {
        let front = s.drop_last();
        assert forall|i: int| 0 <= i < front.len() implies pred(#[trigger] front[i]) by {
            assert(front[i] == s[i]);
        }
        lemma_filter_all(front, pred);
        assert(front.push(s.last()) =~= s);
    }
}

/// Filtering a list by what none of its elements meets leaves nothing.
proof fn lemma_filter_none<A>(s: Seq<A>, pred: spec_fn(A) -> bool)
    requires
        forall|i: int| 0 <= i < s.len() ==> !pred(#[trigger] s[i]),
    ensures
        s.filter(pred) == Seq::<A>::empty(),
    decreases s.len(),
{
    reveal(Seq::filter);
    if s.len() > 0 {
        let front = s.drop_last();
        assert forall|i: int| 0 <= i < front.len() implies !pred(#[trigger] front[i]) by {
            assert(front[i] == s[i]);
        }
        lemma_filter_none(front, pred);
    }
}

impl<T: Traverseable<T>> Heap<T> {
    /// A collection leaves a consistent heap that holds exactly the objects
    /// the roots reach, each with the payload it had.
    pub proof fn lemma_collected(self, roots: Seq<GcPtr<T>>)
        requires
            self.wf(),
        ensures
            self.collected(roots).wf(),
            self.collected(roots).len() <= self.len(),
            forall|p: GcPtr<T>|
                #[trigger] self.collected(roots).contains(p) <==> self.reaches(roots, p),
            forall|p: GcPtr<T>|
                self.collected(roots).contains(p) ==> #[trigger] self.collected(roots).values[p]
                    == self.values[p],
    {
        self.lemma_retain(self.reachable(roots));
        assert forall|p: GcPtr<T>| self.reaches(roots, p) implies self.contains(p) by {
            self.lemma_reaches_live(roots, p);
        }
    }

    /// When every live object is a root, a collection reclaims nothing.
    pub proof fn lemma_all_rooted_survive(self, roots: Seq<GcPtr<T>>)
        requires
            self.wf(),
            forall|p: GcPtr<T>| self.contains(p) ==> roots.contains(p),
        ensures
            self.collected(roots) == self,
    {
        assert forall|p: GcPtr<T>| self.contains(p) implies self.reachable(roots).contains(p) by {
            self.lemma_reaches_root(roots, p);
        }
        self.lemma_retain_all(self.reachable(roots));
    }

    /// Allocating any number of objects into an empty heap and rooting all
    /// of them, a collection leaves as many live objects as were allocated.
    pub proof fn lemma_rooted_allocations_survive(handles: Seq<GcPtr<T>>, values: Seq<T>)
        requires
            handles.len() == values.len(),
            handles.no_duplicates(),
        ensures
            Heap::<T>::empty().allocated_all(handles, values).len() == handles.len(),
            Heap::<T>::empty().allocated_all(handles, values).collected(handles).len()
                == handles.len(),
    {
        let heap = Heap::<T>::empty().allocated_all(handles, values);
        Self::lemma_allocated_all(handles, values);
        heap.lemma_all_rooted_survive(handles);
    }

    /// The heap that a run of allocations builds holds the allocated
    /// handles, and nothing else.
    proof fn lemma_allocated_all(handles: Seq<GcPtr<T>>, values: Seq<T>)
        requires
            handles.len() == values.len(),
            handles.no_duplicates(),
        ensures
            Heap::<T>::empty().allocated_all(handles, values).wf(),
            Heap::<T>::empty().allocated_all(handles, values).len() == handles.len(),
            forall|p: GcPtr<T>|
                #[trigger] Heap::<T>::empty().allocated_all(handles, values).contains(p)
                    <==> handles.contains(p),
        decreases handles.len(),
    {
        let heap = Heap::<T>::empty().allocated_all(handles, values);
        if handles.len() == 0 {
            assert(heap.values.dom() =~= heap.handles.to_set());
        } else {
            let front = handles.drop_last();
            let inner = Heap::<T>::empty().allocated_all(front, values.drop_last());
            Self::lemma_allocated_all(front, values.drop_last());
            let p = handles.last();
            let list = seq![p] + inner.handles;
            assert(heap.handles == list);
            assert forall|q: GcPtr<T>| list.contains(q) <==> q == p || inner.handles.contains(
                q,
            ) by {
                if inner.handles.contains(q) {
                    let j = choose|j: int| 0 <= j < inner.handles.len() && inner.handles[j] == q;
                    assert(list[j + 1] == q);
                }
                if q == p {
                    assert(list[0] == q);
                }
            }
            assert forall|q: GcPtr<T>| handles.contains(q) <==> q == p || front.contains(q) by {
                if front.contains(q) {
                    let i = choose|i: int| 0 <= i < front.len() && front[i] == q;
                    assert(handles[i] == q);
                }
                if q == p {
                    assert(handles[handles.len() - 1] == q);
                }
                if handles.contains(q) && q != p {
                    let i = choose|i: int| 0 <= i < handles.len() && handles[i] == q;
                    assert(front[i] == q);
                }
            }
            assert forall|q: GcPtr<T>| #[trigger] heap.contains(q) <==> handles.contains(q) by {
                assert(inner.contains(q) <==> front.contains(q));
            }
            assert(!front.contains(p)) by {
                if front.contains(p) {
                    let i = choose|i: int| 0 <= i < front.len() && front[i] == p;
                    assert(handles[i] == p);
                }
            }
            assert(!inner.contains(p));
            assert forall|i: int, j: int|
                0 <= i < list.len() && 0 <= j < list.len() && i != j implies list[i]
                != list[j] by {
                if i > 0 {
                    assert(list[i] == inner.handles[i - 1]);
                }
                if j > 0 {
                    assert(list[j] == inner.handles[j - 1]);
                }
            }
            assert(heap.values.dom() =~= heap.handles.to_set());
        }
    }

    /// Without roots a collection reclaims everything.
    pub proof fn lemma_no_roots_reclaim_all(self)
        ensures
            self.collected(Seq::empty()) == Heap::<T>::empty(),
    {
        let roots = Seq::<GcPtr<T>>::empty();
        let keep = self.reachable(roots);
        assert forall|p: GcPtr<T>| !keep.contains(p) by {
            if self.reaches(roots, p) {
                let path = choose|path: Seq<GcPtr<T>>|
                    #[trigger] self.is_path(path) && roots.contains(path[0]) && path.last() == p;
                assert(roots.contains(path[0]));
            }
        }
        lemma_filter_none(self.handles, |p: GcPtr<T>| keep.contains(p));
        assert(self.collected(roots).values =~= Map::empty());
    }

    /// What a survivor of a collection holds survives with it, however many
    /// other objects hold it too.
    pub proof fn lemma_held_by_survivor_survives(
        self,
        roots: Seq<GcPtr<T>>,
        a: GcPtr<T>,
        b: GcPtr<T>,
    )
        requires
            self.wf(),
            self.collected(roots).contains(a),
            self.edge(a, b),
        ensures
            self.collected(roots).contains(b),
    {
        self.lemma_collected(roots);
        self.lemma_reaches_step(roots, a, b);
    }

    /// Every object on a path that starts at a root is reached.
    proof fn lemma_path_is_reached(self, roots: Seq<GcPtr<T>>, path: Seq<GcPtr<T>>, i: int)
        requires
            self.is_path(path),
            roots.contains(path[0]),
            0 <= i < path.len(),
        ensures
            self.reaches(roots, path[i]),
        decreases path.len(),
    {
        if i < path.len() - 1 {
            self.lemma_path_is_reached(roots, path.drop_last(), i);
        }
    }

    /// A path of reached objects is a path in the collected heap.
    proof fn lemma_path_survives(self, roots: Seq<GcPtr<T>>, path: Seq<GcPtr<T>>)
        requires
            self.wf(),
            self.is_path(path),
            roots.contains(path[0]),
        ensures
            self.collected(roots).is_path(path),
        decreases path.len(),
    {
        let after = self.collected(roots);
        self.lemma_collected(roots);
        self.lemma_path_is_reached(roots, path, path.len() - 1);
        if path.len() > 1 {
            let front = path.drop_last();
            self.lemma_path_survives(roots, front);
            self.lemma_path_is_reached(roots, path, path.len() - 2);
            assert(after.contains(front.last()));
            assert(after.values[front.last()] == self.values[front.last()]);
        }
    }

    /// A path in the collected heap is a path in the heap it came from.
    proof fn lemma_path_was_there(self, roots: Seq<GcPtr<T>>, path: Seq<GcPtr<T>>)
        requires
            self.wf(),
            self.collected(roots).is_path(path),
        ensures
            self.is_path(path),
        decreases path.len(),
    {
        let after = self.collected(roots);
        self.lemma_collected(roots);
        if path.len() > 1 {
            let front = path.drop_last();
            self.lemma_path_was_there(roots, front);
            assert(after.contains(front.last()));
            assert(after.values[front.last()] == self.values[front.last()]);
        }
    }

    /// A second collection with the same roots, with nothing changed in
    /// between, reclaims nothing: no survivor of the first has kept a mark
    /// or lost a link that the second would stumble over.
    pub proof fn lemma_collect_twice(self, roots: Seq<GcPtr<T>>)
        requires
            self.wf(),
        ensures
            self.collected(roots).collected(roots) == self.collected(roots),
    {
        let after = self.collected(roots);
        self.lemma_collected(roots);
        assert forall|p: GcPtr<T>| after.contains(p) implies after.reaches(roots, p) by {
            let path = choose|path: Seq<GcPtr<T>>|
                #[trigger] self.is_path(path) && roots.contains(path[0]) && path.last() == p;
            self.lemma_path_survives(roots, path);
        }
        after.lemma_retain_all(after.reachable(roots));
    }
}

} // verus!
