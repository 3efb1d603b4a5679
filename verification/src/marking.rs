//! The reasoning behind the mark phase: why a worklist that follows every
//! handle once ends with exactly the reachable objects marked.

use crate::heap::Heap;
use crate::ptr::GcPtr;
use crate::traverse::Traverseable;
use vstd::prelude::*;

verus! {

/// Whether `marks` holds, with an object, every live object that it holds.
pub(crate) open spec fn saturated<T: Traverseable<T>>(heap: Heap<T>, marks: Set<GcPtr<T>>) -> bool {
    forall|a: GcPtr<T>, b: GcPtr<T>|
        marks.contains(a) && #[trigger] heap.edge(a, b) ==> marks.contains(b)
}

/// Where the marking from `root` stands: `before` was marked when it began,
/// `now` is marked, and the handles in `work` are still to be looked at.
pub(crate) open spec fn marking<T: Traverseable<T>>(
    heap: Heap<T>,
    root: GcPtr<T>,
    before: Set<GcPtr<T>>,
    now: Set<GcPtr<T>>,
    work: Seq<GcPtr<T>>,
) -> bool {
    &&& before.subset_of(now)
    &&& forall|p: GcPtr<T>| now.contains(p) ==> heap.contains(p)
    &&& forall|p: GcPtr<T>| now.contains(p) && !before.contains(p) ==> heap.reaches(seq![root], p)
    &&& forall|j: int|
        0 <= j < work.len() && heap.contains(#[trigger] work[j]) ==> heap.reaches(
            seq![root],
            work[j],
        )
    &&& forall|a: GcPtr<T>, b: GcPtr<T>|
        now.contains(a) && #[trigger] heap.edge(a, b) ==> now.contains(b) || work.contains(b)
    &&& heap.contains(root) ==> now.contains(root) || work.contains(root)
}

/// Marking begins with the root as the only handle to look at.
pub(crate) proof fn lemma_marking_begins<T: Traverseable<T>>(
    heap: Heap<T>,
    root: GcPtr<T>,
    before: Set<GcPtr<T>>,
)
    requires
        saturated(heap, before),
        forall|p: GcPtr<T>| before.contains(p) ==> heap.contains(p),
    ensures
        marking(heap, root, before, before, seq![root]),
{
    let work = seq![root];
    assert(work[0] == root);
    if heap.contains(root) {
        heap.lemma_reaches_root(work, root);
    }
}

/// A handle that names nothing, or something marked already, is dropped
/// from the work.
pub(crate) proof fn lemma_marking_skips<T: Traverseable<T>>(
    heap: Heap<T>,
    root: GcPtr<T>,
    before: Set<GcPtr<T>>,
    now: Set<GcPtr<T>>,
    work: Seq<GcPtr<T>>,
)
    requires
        marking(heap, root, before, now, work),
        work.len() > 0,
        !heap.contains(work.last()) || now.contains(work.last()),
    ensures
        marking(heap, root, before, now, work.drop_last()),
{
    let rest = work.drop_last();
    assert forall|x: GcPtr<T>| work.contains(x) && x != work.last() implies rest.contains(x) by {
        let j = choose|j: int| 0 <= j < work.len() && work[j] == x;
        assert(rest[j] == x);
    }
    assert forall|j: int| 0 <= j < rest.len() && heap.contains(
        #[trigger] rest[j],
    ) implies heap.reaches(seq![root], rest[j]) by {
        assert(rest[j] == work[j]);
    }
}

/// An unmarked live object is marked, and what it holds is added to the
/// work.
pub(crate) proof fn lemma_marking_visits<T: Traverseable<T>>(
    heap: Heap<T>,
    root: GcPtr<T>,
    before: Set<GcPtr<T>>,
    now: Set<GcPtr<T>>,
    work: Seq<GcPtr<T>>,
)
    requires
        marking(heap, root, before, now, work),
        work.len() > 0,
        heap.contains(work.last()),
        !now.contains(work.last()),
    ensures
        marking(
            heap,
            root,
            before,
            now.insert(work.last()),
            work.drop_last() + heap.values[work.last()].children(),
        ),
{
    let p = work.last();
    let kids = heap.values[p].children();
    let rest = work.drop_last();
    let more = rest + kids;
    assert(work[work.len() - 1] == p);
    assert forall|x: GcPtr<T>| work.contains(x) && x != p implies more.contains(x) by {
        let j = choose|j: int| 0 <= j < work.len() && work[j] == x;
        assert(more[j] == x);
    }
    assert forall|j: int| 0 <= j < more.len() && heap.contains(
        #[trigger] more[j],
    ) implies heap.reaches(seq![root], more[j]) by {
        if j < rest.len() {
            assert(more[j] == work[j]);
        } else {
            assert(more[j] == kids[j - rest.len()]);
            assert(heap.edge(p, more[j]));
            heap.lemma_reaches_step(seq![root], p, more[j]);
        }
    }
    assert forall|a: GcPtr<T>, b: GcPtr<T>|
        now.insert(p).contains(a) && #[trigger] heap.edge(a, b) implies now.insert(p).contains(b)
        || more.contains(b) by {
        if a == p {
            let j = choose|j: int| 0 <= j < kids.len() && kids[j] == b;
            assert(more[rest.len() + j] == b);
        }
    }
}

/// When no work is left, what has been marked since the marking began is
/// what the root reaches.
pub(crate) proof fn lemma_marking_ends<T: Traverseable<T>>(
    heap: Heap<T>,
    root: GcPtr<T>,
    before: Set<GcPtr<T>>,
    now: Set<GcPtr<T>>,
)
    requires
        marking(heap, root, before, now, Seq::empty()),
    ensures
        now == before.union(heap.reachable(seq![root])),
        saturated(heap, now),
{
    let roots = seq![root];
    let work = Seq::<GcPtr<T>>::empty();
    assert forall|a: GcPtr<T>, b: GcPtr<T>| now.contains(a) && #[trigger] heap.edge(
        a,
        b,
    ) implies now.contains(b) by {
        assert(!work.contains(b));
    }
    assert forall|r: GcPtr<T>| roots.contains(r) && heap.contains(r) implies now.contains(r) by {
        assert(r == root);
        assert(!work.contains(root));
    }
    heap.lemma_closed_set_holds_reachable(roots, now);
    assert(now =~= before.union(heap.reachable(roots)));
}

} // verus!
