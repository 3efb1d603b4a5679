//! The reasoning behind the sweep phase: one walk over the allocation list
//! deals with every block exactly once.

use crate::arena::{
    block_at, complete, listed, marked, occupied, payloads, remarked, unlinked, Slots,
};
use crate::ptr::GcPtr;
use vstd::prelude::*;

verus! {

/// Where a sweep stands after it has dealt with the first `k` blocks of the
/// list `old_order`: of these the ones in `keep` are still listed, in
/// `kept`, and have lost their mark; the blocks behind them are untouched.
pub(crate) open spec fn sweeping<T>(
    old_slots: Slots<T>,
    old_order: Seq<GcPtr<T>>,
    keep: Set<GcPtr<T>>,
    k: int,
    kept: Seq<GcPtr<T>>,
    slots: Slots<T>,
    order: Seq<GcPtr<T>>,
) -> bool {
    &&& 0 <= k <= old_order.len()
    &&& old_order.no_duplicates()
    &&& kept == old_order.take(k).filter(|p: GcPtr<T>| keep.contains(p))
    &&& order == kept + old_order.skip(k)
    &&& forall|j: int| 0 <= j < kept.len() ==> !marked(slots, #[trigger] kept[j])
    &&& forall|j: int|
        k <= j < old_order.len() ==> marked(slots, #[trigger] old_order[j]) == keep.contains(
            old_order[j],
        )
    &&& forall|p: GcPtr<T>|
        order.contains(p) ==> (#[trigger] block_at(slots, p)).value == block_at(old_slots, p).value
}

/// A sweep that takes the block it stands at out of the list has dealt with
/// one block more.
pub(crate) proof fn lemma_sweep_drop<T>(
    old_slots: Slots<T>,
    old_order: Seq<GcPtr<T>>,
    keep: Set<GcPtr<T>>,
    k: int,
    kept: Seq<GcPtr<T>>,
    slots: Slots<T>,
    order: Seq<GcPtr<T>>,
    after: Slots<T>,
)
    requires
        sweeping(old_slots, old_order, keep, k, kept, slots, order),
        listed(slots, order),
        k < old_order.len(),
        !marked(slots, old_order[k]),
        unlinked(slots, order, kept.len() as int, after),
    ensures
        sweeping(
            old_slots,
            old_order,
            keep,
            k + 1,
            kept,
            after,
            order.remove(kept.len() as int),
        ),
{
    let m = kept.len() as int;
    let here = old_order[k];
    let rest = order.remove(m);
    assert(order[m] == here);
    assert(rest =~= kept + old_order.skip(k + 1));
    assert(old_order.take(k + 1) =~= old_order.take(k).push(here));
    old_order.take(k).lemma_filter_push(here, |p: GcPtr<T>| keep.contains(p));
    assert forall|j: int| 0 <= j < kept.len() implies !marked(after, #[trigger] kept[j]) by {
        assert(order[j] == kept[j]);
        assert(!marked(slots, kept[j]));
    }
    assert forall|j: int| k + 1 <= j < old_order.len() implies marked(
        after,
        #[trigger] old_order[j],
    ) == keep.contains(old_order[j]) by {
        assert(marked(slots, old_order[j]) == keep.contains(old_order[j]));
    }
    assert forall|p: GcPtr<T>| rest.contains(p) implies (#[trigger] block_at(after, p)).value
        == block_at(old_slots, p).value by {
        let j = choose|j: int| 0 <= j < rest.len() && rest[j] == p;
        let i = if j < m { j } else { j + 1 };
        assert(order[i] == p);
        assert(occupied(slots, order[i]));
        assert(block_at(slots, p).value == block_at(old_slots, p).value);
    }
}

/// A sweep that clears the mark of the block it stands at, and leaves it in
/// the list, has dealt with one block more.
pub(crate) proof fn lemma_sweep_keep<T>(
    old_slots: Slots<T>,
    old_order: Seq<GcPtr<T>>,
    keep: Set<GcPtr<T>>,
    k: int,
    kept: Seq<GcPtr<T>>,
    slots: Slots<T>,
    order: Seq<GcPtr<T>>,
    after: Slots<T>,
)
    requires
        sweeping(old_slots, old_order, keep, k, kept, slots, order),
        listed(slots, order),
        k < old_order.len(),
        marked(slots, old_order[k]),
        remarked(slots, old_order[k], false, after),
    ensures
        sweeping(old_slots, old_order, keep, k + 1, kept.push(old_order[k]), after, order),
{
    let here = old_order[k];
    let longer = kept.push(here);
    assert(order =~= longer + old_order.skip(k + 1));
    assert(old_order.take(k + 1) =~= old_order.take(k).push(here));
    old_order.take(k).lemma_filter_push(here, |p: GcPtr<T>| keep.contains(p));
    assert forall|j: int| 0 <= j < longer.len() implies !marked(after, #[trigger] longer[j]) by {
        if j < kept.len() {
            assert(!marked(slots, kept[j]));
        }
    }
    assert forall|j: int| k + 1 <= j < old_order.len() implies marked(
        after,
        #[trigger] old_order[j],
    ) == keep.contains(old_order[j]) by {
        assert(marked(slots, old_order[j]) == keep.contains(old_order[j]));
    }
    assert forall|p: GcPtr<T>| order.contains(p) implies (#[trigger] block_at(after, p)).value
        == block_at(old_slots, p).value by {
        let i = choose|i: int| 0 <= i < order.len() && order[i] == p;
        assert(occupied(slots, order[i]));
        assert(block_at(slots, p).value == block_at(old_slots, p).value);
    }
}

/// A sweep that has dealt with the whole list leaves the blocks in `keep`,
/// in their old order, with their old payloads and without a mark.
pub(crate) proof fn lemma_sweep_done<T>(
    old_slots: Slots<T>,
    old_order: Seq<GcPtr<T>>,
    keep: Set<GcPtr<T>>,
    kept: Seq<GcPtr<T>>,
    slots: Slots<T>,
    order: Seq<GcPtr<T>>,
)
    requires
        sweeping(old_slots, old_order, keep, old_order.len() as int, kept, slots, order),
        complete(slots, order),
    ensures
        order == old_order.filter(|p: GcPtr<T>| keep.contains(p)),
        forall|p: GcPtr<T>| !#[trigger] marked(slots, p),
        payloads(slots, order) == payloads(old_slots, old_order).restrict(keep),
{
    let pred = |p: GcPtr<T>| keep.contains(p);
    assert(old_order.take(old_order.len() as int) =~= old_order);
    assert(order =~= kept);
    assert forall|p: GcPtr<T>| !#[trigger] marked(slots, p) by {
        if occupied(slots, p) {
            let j = choose|j: int| 0 <= j < order.len() && order[j] == p;
            assert(!marked(slots, kept[j]));
        }
    }
    assert forall|p: GcPtr<T>| order.contains(p) <==> old_order.contains(p) && keep.contains(
        p,
    ) by {
        if order.contains(p) {
            let j = choose|j: int| 0 <= j < order.len() && order[j] == p;
            old_order.lemma_filter_pred(pred, j);
            old_order.lemma_filter_contains_rev(pred, p);
        }
        if old_order.contains(p) && keep.contains(p) {
            let j = choose|j: int| 0 <= j < old_order.len() && old_order[j] == p;
            old_order.lemma_filter_contains(pred, j);
        }
    }
    assert(payloads(slots, order) =~= payloads(old_slots, old_order).restrict(keep));
}

} // verus!
