//! The arena as the proofs see it: which slots are occupied, how the blocks
//! in them are chained into the allocation list, and what the steps of the
//! collector do to both.

use crate::header::Block;
use crate::ptr::GcPtr;
use vstd::layout::size_of;
use vstd::prelude::*;

verus! {

/// The arena as the proofs see it.
pub(crate) type Slots<T> = Seq<Option<Block<T>>>;

/// Whether the slot that `p` names holds a block.
pub(crate) open spec fn occupied<T>(slots: Slots<T>, p: GcPtr<T>) -> bool {
    p.index < slots.len() && slots[p.index as int] is Some
}

/// The block in the slot that `p` names.
pub(crate) open spec fn block_at<T>(slots: Slots<T>, p: GcPtr<T>) -> Block<T> {
    slots[p.index as int]->0
}

/// Whether `p` names a live object that carries the mark.
pub(crate) open spec fn marked<T>(slots: Slots<T>, p: GcPtr<T>) -> bool {
    occupied(slots, p) && block_at(slots, p).header.marked
}

/// The link that the `k`-th block of the list `order` has to carry.
pub(crate) open spec fn link<T>(order: Seq<GcPtr<T>>, k: int) -> Option<usize> {
    if k + 1 < order.len() {
        Some(order[k + 1].index)
    } else {
        None
    }
}

/// Every handle that `order` lists names an occupied slot.
pub(crate) open spec fn listed<T>(slots: Slots<T>, order: Seq<GcPtr<T>>) -> bool {
    forall|k: int| 0 <= k < order.len() ==> occupied(slots, #[trigger] order[k])
}

/// Every occupied slot is named by a handle that `order` lists.
pub(crate) open spec fn complete<T>(slots: Slots<T>, order: Seq<GcPtr<T>>) -> bool {
    forall|p: GcPtr<T>| #[trigger] occupied(slots, p) ==> order.contains(p)
}

/// Each block that `order` lists is linked to the one listed after it, and
/// records the size of its payload.
pub(crate) open spec fn threaded<T>(slots: Slots<T>, order: Seq<GcPtr<T>>) -> bool {
    forall|k: int|
        0 <= k < order.len() ==> {
            &&& (#[trigger] block_at(slots, order[k])).header.next == link(order, k)
            &&& block_at(slots, order[k]).header.value_size == size_of::<T>()
        }
}

/// The occupied slots of the arena are those that `order` lists, none of them
/// twice, and each block is linked to the one listed after it.
pub(crate) open spec fn chained<T>(slots: Slots<T>, order: Seq<GcPtr<T>>) -> bool {
    &&& order.no_duplicates()
    &&& listed(slots, order)
    &&& complete(slots, order)
    &&& threaded(slots, order)
}

/// The free list names empty slots only, none of them twice, and together
/// with the `live` occupied ones they make up the arena.
pub(crate) open spec fn spare<T>(slots: Slots<T>, free: Seq<usize>, live: nat) -> bool {
    &&& free.no_duplicates()
    &&& forall|j: int|
        0 <= j < free.len() ==> (#[trigger] free[j]) < slots.len() && slots[free[j] as int] is None
    &&& live + free.len() == slots.len()
}

/// The slot of the first block of the list `order`.
pub(crate) open spec fn head<T>(order: Seq<GcPtr<T>>) -> Option<usize> {
    if order.len() == 0 {
        None
    } else {
        Some(order[0].index)
    }
}

/// The payloads of the blocks that `order` lists.
pub(crate) open spec fn payloads<T>(slots: Slots<T>, order: Seq<GcPtr<T>>) -> Map<GcPtr<T>, T> {
    Map::new(|p: GcPtr<T>| order.contains(p), |p: GcPtr<T>| block_at(slots, p).value)
}

/// How the arena changes when a block that holds `value` is put into the
/// slot that `at` names and at the head of the list: the slot was empty, or
/// is the first one behind the arena, and nothing else changes.
pub(crate) open spec fn linked_in<T>(
    slots: Slots<T>,
    order: Seq<GcPtr<T>>,
    at: GcPtr<T>,
    value: T,
    after: Slots<T>,
) -> bool {
    &&& !occupied(slots, at)
    &&& occupied(after, at)
    &&& block_at(after, at).value == value
    &&& block_at(after, at).header.next == head(order)
    &&& block_at(after, at).header.value_size == size_of::<T>()
    &&& !block_at(after, at).header.marked
    &&& after.len() == if at.index < slots.len() {
        slots.len()
    } else {
        slots.len() + 1
    }
    &&& forall|i: int| 0 <= i < slots.len() && i != at.index ==> after[i] == slots[i]
}

/// A block put at the head of the list leaves the list chained, and the
/// blocks behind it as they were.
pub(crate) proof fn lemma_link_in<T>(
    slots: Slots<T>,
    order: Seq<GcPtr<T>>,
    at: GcPtr<T>,
    value: T,
    after: Slots<T>,
)
    requires
        chained(slots, order),
        linked_in(slots, order, at, value, after),
    ensures
        !order.contains(at),
        chained(after, seq![at] + order),
        forall|p: GcPtr<T>| p != at ==> marked(after, p) == marked(slots, p),
        payloads(after, seq![at] + order) == payloads(slots, order).insert(at, value),
{
    let longer = seq![at] + order;
    assert forall|q: GcPtr<T>| longer.contains(q) <==> q == at || order.contains(q) by {
        if order.contains(q) {
            let k = choose|k: int| 0 <= k < order.len() && order[k] == q;
            assert(longer[k + 1] == q);
        }
        if q == at {
            assert(longer[0] == q);
        }
    }
    if order.contains(at) {
        let k = choose|k: int| 0 <= k < order.len() && order[k] == at;
        assert(occupied(slots, order[k]));
    }
    assert forall|k: int| 0 <= k < longer.len() implies occupied(after, #[trigger] longer[k]) by {
        if k > 0 {
            assert(occupied(slots, order[k - 1]));
        }
    }
    assert forall|q: GcPtr<T>| #[trigger] occupied(after, q) implies longer.contains(q) by {
        if q != at {
            assert(occupied(slots, q));
        }
    }
    assert forall|k: int| 0 <= k < longer.len() implies {
        &&& (#[trigger] block_at(after, longer[k])).header.next == link(longer, k)
        &&& block_at(after, longer[k]).header.value_size == size_of::<T>()
    } by {
        if k > 0 {
            assert(occupied(slots, order[k - 1]));
            assert(block_at(after, longer[k]) == block_at(slots, order[k - 1]));
            assert(link(longer, k) == link(order, k - 1));
        }
    }
    assert forall|q: GcPtr<T>| order.contains(q) implies block_at(after, q).value == block_at(
        slots,
        q,
    ).value by {
        let k = choose|k: int| 0 <= k < order.len() && order[k] == q;
        assert(occupied(slots, order[k]));
    }
    assert(payloads(after, longer) =~= payloads(slots, order).insert(at, value));
}

/// How the arena changes when the `m`-th block of the list is taken out: its
/// slot is emptied, the block before it, if there is one, takes over its
/// link, and nothing else changes.
pub(crate) open spec fn unlinked<T>(
    slots: Slots<T>,
    order: Seq<GcPtr<T>>,
    m: int,
    after: Slots<T>,
) -> bool {
    &&& 0 <= m < order.len()
    &&& after.len() == slots.len()
    &&& forall|p: GcPtr<T>|
        #![trigger occupied(after, p)]
        #![trigger block_at(after, p)]
        if p == order[m] {
            !occupied(after, p)
        } else {
            &&& occupied(after, p) == occupied(slots, p)
            &&& occupied(slots, p) ==> {
                &&& block_at(after, p).value == block_at(slots, p).value
                &&& block_at(after, p).header.marked == block_at(slots, p).header.marked
                &&& block_at(after, p).header.value_size == block_at(slots, p).header.value_size
                &&& block_at(after, p).header.next == if m > 0 && p == order[m - 1] {
                    link(order, m)
                } else {
                    block_at(slots, p).header.next
                }
            }
        }
}

/// Taking a block out of the list leaves the rest listed.
pub(crate) proof fn lemma_unlink_listed<T>(
    slots: Slots<T>,
    order: Seq<GcPtr<T>>,
    m: int,
    after: Slots<T>,
)
    requires
        order.no_duplicates(),
        listed(slots, order),
        unlinked(slots, order, m, after),
    ensures
        order.remove(m).no_duplicates(),
        listed(after, order.remove(m)),
{
    let rest = order.remove(m);
    assert forall|k: int| 0 <= k < rest.len() implies occupied(after, #[trigger] rest[k]) by {
        let j = if k < m { k } else { k + 1 };
        assert(rest[k] == order[j]);
        assert(occupied(slots, order[j]));
    }
}

/// Taking a block out of the list leaves nothing occupied but the rest.
pub(crate) proof fn lemma_unlink_complete<T>(
    slots: Slots<T>,
    order: Seq<GcPtr<T>>,
    m: int,
    after: Slots<T>,
)
    requires
        complete(slots, order),
        unlinked(slots, order, m, after),
    ensures
        complete(after, order.remove(m)),
{
    let rest = order.remove(m);
    assert forall|p: GcPtr<T>| #[trigger] occupied(after, p) implies rest.contains(p) by {
        assert(occupied(slots, p));
        let j = choose|j: int| 0 <= j < order.len() && order[j] == p;
        if j < m {
            assert(rest[j] == p);
        } else {
            assert(rest[j - 1] == p);
        }
    }
}

/// Taking a block out of the list leaves the rest linked up.
pub(crate) proof fn lemma_unlink_threaded<T>(
    slots: Slots<T>,
    order: Seq<GcPtr<T>>,
    m: int,
    after: Slots<T>,
)
    requires
        order.no_duplicates(),
        listed(slots, order),
        threaded(slots, order),
        unlinked(slots, order, m, after),
    ensures
        threaded(after, order.remove(m)),
{
    let rest = order.remove(m);
    assert forall|k: int| 0 <= k < rest.len() implies {
        &&& (#[trigger] block_at(after, rest[k])).header.next == link(rest, k)
        &&& block_at(after, rest[k]).header.value_size == size_of::<T>()
    } by {
        let j = if k < m { k } else { k + 1 };
        assert(rest[k] == order[j]);
        assert(occupied(slots, order[j]));
        assert(block_at(slots, order[j]).header.next == link(order, j));
        if k + 1 < rest.len() {
            assert(rest[k + 1] == order[j + 1] || (j + 1 == m && rest[k + 1] == order[j + 2]));
        }
    }
}

/// How the arena changes when the mark of the block `at` is set to `mark`:
/// nothing else changes.
pub(crate) open spec fn remarked<T>(
    slots: Slots<T>,
    at: GcPtr<T>,
    mark: bool,
    after: Slots<T>,
) -> bool {
    &&& after.len() == slots.len()
    &&& forall|p: GcPtr<T>|
        #![trigger occupied(after, p)]
        #![trigger block_at(after, p)]
        {
            &&& occupied(after, p) == occupied(slots, p)
            &&& occupied(slots, p) ==> {
                &&& block_at(after, p).value == block_at(slots, p).value
                &&& block_at(after, p).header.next == block_at(slots, p).header.next
                &&& block_at(after, p).header.value_size == block_at(slots, p).header.value_size
                &&& block_at(after, p).header.marked == if p == at {
                    mark
                } else {
                    block_at(slots, p).header.marked
                }
            }
        }
}

/// Setting a mark leaves the list as it is.
pub(crate) proof fn lemma_remark_chained<T>(
    slots: Slots<T>,
    order: Seq<GcPtr<T>>,
    at: GcPtr<T>,
    mark: bool,
    after: Slots<T>,
)
    requires
        chained(slots, order),
        remarked(slots, at, mark, after),
    ensures
        chained(after, order),
{
    assert forall|k: int| 0 <= k < order.len() implies occupied(after, #[trigger] order[k]) by {
        assert(occupied(slots, order[k]));
    }
    assert forall|p: GcPtr<T>| #[trigger] occupied(after, p) implies order.contains(p) by {
        assert(occupied(slots, p));
    }
    assert forall|k: int| 0 <= k < order.len() implies {
        &&& (#[trigger] block_at(after, order[k])).header.next == link(order, k)
        &&& block_at(after, order[k]).header.value_size == size_of::<T>()
    } by {
        assert(block_at(slots, order[k]).header.next == link(order, k));
    }
}

/// The live objects that carry the mark.
pub(crate) open spec fn marks_of<T>(slots: Slots<T>) -> Set<GcPtr<T>> {
    Set::new(|p: GcPtr<T>| marked(slots, p))
}

/// The live objects that do not carry the mark.
pub(crate) open spec fn unmarked<T>(slots: Slots<T>, order: Seq<GcPtr<T>>) -> Set<GcPtr<T>> {
    Set::new(|p: GcPtr<T>| order.contains(p) && !marked(slots, p))
}

/// Setting a mark changes no payload.
pub(crate) proof fn lemma_remark_payloads<T>(
    slots: Slots<T>,
    order: Seq<GcPtr<T>>,
    at: GcPtr<T>,
    mark: bool,
    after: Slots<T>,
)
    requires
        listed(slots, order),
        remarked(slots, at, mark, after),
    ensures
        payloads(after, order) == payloads(slots, order),
{
    assert forall|p: GcPtr<T>| order.contains(p) implies block_at(after, p).value == block_at(
        slots,
        p,
    ).value by {
        let k = choose|k: int| 0 <= k < order.len() && order[k] == p;
        assert(occupied(slots, order[k]));
    }
    assert(payloads(after, order) =~= payloads(slots, order));
}

/// Marking an unmarked live object leaves one unmarked object less.
pub(crate) proof fn lemma_mark_shrinks<T>(
    slots: Slots<T>,
    order: Seq<GcPtr<T>>,
    at: GcPtr<T>,
    after: Slots<T>,
)
    requires
        listed(slots, order),
        order.contains(at),
        !marked(slots, at),
        remarked(slots, at, true, after),
    ensures
        unmarked(after, order).len() < unmarked(slots, order).len(),
{
    let was = unmarked(slots, order);
    let k = choose|k: int| 0 <= k < order.len() && order[k] == at;
    assert(occupied(slots, order[k]));
    assert(was.subset_of(order.to_set()));
    vstd::seq_lib::seq_to_set_is_finite(order);
    vstd::set_lib::lemma_set_subset_finite(order.to_set(), was);
    assert(was.contains(at));
    assert forall|p: GcPtr<T>| unmarked(after, order).contains(p) == was.remove(at).contains(
        p,
    ) by {
        if order.contains(p) {
            let j = choose|j: int| 0 <= j < order.len() && order[j] == p;
            assert(occupied(slots, order[j]));
        }
    }
    assert(unmarked(after, order) =~= was.remove(at));
}

/// How the arena changes when the payload of the block `at` becomes `value`:
/// nothing else changes.
pub(crate) open spec fn rewritten<T>(
    slots: Slots<T>,
    at: GcPtr<T>,
    value: T,
    after: Slots<T>,
) -> bool {
    &&& occupied(slots, at)
    &&& after == slots.update(
        at.index as int,
        Some(Block { header: block_at(slots, at).header, value }),
    )
}

/// A new payload leaves the list and the marks as they are.
pub(crate) proof fn lemma_rewrite<T>(
    slots: Slots<T>,
    order: Seq<GcPtr<T>>,
    free: Seq<usize>,
    at: GcPtr<T>,
    value: T,
    after: Slots<T>,
)
    requires
        chained(slots, order),
        spare(slots, free, order.len()),
        rewritten(slots, at, value, after),
    ensures
        chained(after, order),
        spare(after, free, order.len()),
        forall|p: GcPtr<T>| marked(after, p) == marked(slots, p),
        payloads(after, order) == payloads(slots, order).insert(at, value),
{
    assert forall|k: int| 0 <= k < order.len() implies occupied(after, #[trigger] order[k]) by {
        assert(occupied(slots, order[k]));
    }
    assert forall|p: GcPtr<T>| #[trigger] occupied(after, p) implies order.contains(p) by {
        assert(occupied(slots, p));
    }
    assert forall|k: int| 0 <= k < order.len() implies {
        &&& (#[trigger] block_at(after, order[k])).header.next == link(order, k)
        &&& block_at(after, order[k]).header.value_size == size_of::<T>()
    } by {
        assert(occupied(slots, order[k]));
        assert(block_at(slots, order[k]).header.next == link(order, k));
    }
    assert forall|p: GcPtr<T>| marked(after, p) == marked(slots, p) by {}
    assert forall|p: GcPtr<T>| order.contains(p) && p != at implies block_at(after, p).value
        == block_at(slots, p).value by {
        let k = choose|k: int| 0 <= k < order.len() && order[k] == p;
        assert(occupied(slots, order[k]));
    }
    assert(order.contains(at));
    assert(payloads(after, order) =~= payloads(slots, order).insert(at, value));
}

} // verus!
