//! The collector: allocation, the mark phase and the sweep phase.

use crate::arena::{
    block_at, chained, head, lemma_link_in, lemma_mark_shrinks, lemma_remark_chained,
    lemma_remark_payloads, lemma_rewrite, lemma_unlink_complete, lemma_unlink_listed,
    lemma_unlink_threaded, link, marked, marks_of, occupied, payloads, remarked, rewritten, spare,
    unlinked, unmarked, Slots,
};
use crate::header::{Block, GcHeader};
use crate::heap::Heap;
use crate::marking::{
    lemma_marking_begins, lemma_marking_ends, lemma_marking_skips, lemma_marking_visits, marking,
    saturated,
};
use crate::ptr::GcPtr;
use crate::sweeping::{lemma_sweep_done, lemma_sweep_drop, lemma_sweep_keep, sweeping};
use crate::traverse::Traverseable;
use core::marker::PhantomData;
use vstd::layout::size_of;
use vstd::prelude::*;

verus! {

/// The number of live objects from which `alloc_and_collect` collects before
/// it allocates, unless the collector is told otherwise.
pub const DEFAULT_COLLECT_LIMIT: usize = 100;

/// A mark-and-sweep collector for objects of type `T`.
///
/// Every object sits in a slot of an arena. The occupied slots are chained
/// into the allocation list, newest first, through the `next` link of their
/// headers; the empty ones wait in `free` to be given out again.
pub struct Gc<T> {
    /// The arena. A slot is `None` while no object lives in it.
    slots: Vec<Option<Block<T>>>,
    /// The empty slots of the arena.
    free: Vec<usize>,
    /// The slot of the head of the allocation list.
    values: Option<usize>,
    /// The length of the allocation list.
    allocated_objects: usize,
    /// See [`Gc::collect_limit`].
    collect_limit: usize,
    /// The allocation list, head first.
    order: Ghost<Seq<GcPtr<T>>>,
}

impl<T> View for Gc<T> {
    type V = Heap<T>;

    closed spec fn view(&self) -> Heap<T> {
        Heap { handles: self.order@, values: payloads(self.slots@, self.order@) }
    }
}

impl<T> Gc<T> {
    /// The arena, the allocation list, the free list and the counter agree
    /// with each other.
    pub(crate) closed spec fn linked(&self) -> bool {
        &&& chained(self.slots@, self.order@)
        &&& spare(self.slots@, self.free@, self.order@.len())
        &&& self.values == head(self.order@)
        &&& self.allocated_objects == self.order@.len()
    }

    /// The live objects that carry the mark.
    pub(crate) closed spec fn marks(&self) -> Set<GcPtr<T>> {
        marks_of(self.slots@)
    }

    /// The collector is consistent and at rest: no object carries a mark.
    pub closed spec fn wf(&self) -> bool {
        &&& self.linked()
        &&& forall|p: GcPtr<T>| !#[trigger] marked(self.slots@, p)
    }

    /// The live-object count from which `alloc_and_collect` collects first.
    pub closed spec fn limit(&self) -> nat {
        self.collect_limit as nat
    }

    /// The number of slots in the arena, occupied or empty. It never falls,
    /// and it grows only when every slot is occupied.
    pub closed spec fn slots(&self) -> nat {
        self.slots@.len()
    }

    /// The live objects are those whose slot is occupied.
    proof fn lemma_live_is_occupied(&self, p: GcPtr<T>)
        requires
            self.linked(),
        ensures
            self@.contains(p) == occupied(self.slots@, p),
    {
        if self.order@.contains(p) {
            let k = choose|k: int| 0 <= k < self.order@.len() && self.order@[k] == p;
            assert(occupied(self.slots@, self.order@[k]));
        }
    }

    /// The model of a consistent collector is a consistent heap, and every
    /// live object has a slot.
    pub proof fn lemma_view_wf(&self)
        requires
            self.wf(),
        ensures
            self@.wf(),
            self@.len() <= self.slots(),
    {
        assert(self@.values.dom() =~= self@.handles.to_set());
    }

    /// An empty collector with the default collect limit.
    pub fn new() -> (gc: Gc<T>)
        ensures
            gc.wf(),
            gc@ == Heap::<T>::empty(),
            gc.limit() == DEFAULT_COLLECT_LIMIT,
            gc.slots() == 0,
    {
        let gc = Gc {
            slots: Vec::new(),
            free: Vec::new(),
            values: None,
            allocated_objects: 0,
            collect_limit: DEFAULT_COLLECT_LIMIT,
            order: Ghost(Seq::empty()),
        };
        proof {
            assert(gc@.values =~= Map::empty());
        }
        gc
    }

    /// The live-object count from which `alloc_and_collect` collects first.
    pub fn collect_limit(&self) -> (limit: usize)
        ensures
            limit == self.limit(),
    {
        self.collect_limit
    }

    /// Sets the live-object count from which `alloc_and_collect` collects
    /// first.
    pub fn set_collect_limit(&mut self, limit: usize)
        requires
            old(self).wf(),
        ensures
            final(self).wf(),
            final(self)@ == old(self)@,
            final(self).limit() == limit,
            final(self).slots() == old(self).slots(),
    {
        self.collect_limit = limit;
    }

    /// The number of slots in the arena, occupied or empty.
    pub fn slot_count(&self) -> (n: usize)
        ensures
            n == self.slots(),
    {
        self.slots.len()
    }

    /// The number of live objects.
    pub fn allocated_objects(&self) -> (n: usize)
        requires
            self.wf(),
        ensures
            n == self@.len(),
    {
        self.allocated_objects
    }

    /// Whether `p` names a live object.
    pub fn contains(&self, p: GcPtr<T>) -> (live: bool)
        requires
            self.wf(),
        ensures
            live == self@.contains(p),
    {
        proof {
            self.lemma_live_is_occupied(p);
        }
        p.index < self.slots.len() && self.slots[p.index].is_some()
    }

    /// The payload of the object that `p` names; `None` where `p` names no
    /// live object.
    pub fn get(&self, p: GcPtr<T>) -> (value: Option<&T>)
        requires
            self.wf(),
        ensures
            match value {
                Some(v) => self@.contains(p) && *v == self@.values[p],
                None => !self@.contains(p),
            },
    {
        proof {
            self.lemma_live_is_occupied(p);
        }
        if p.index < self.slots.len() {
            match &self.slots[p.index] {
                Some(b) => Some(&b.value),
                None => None,
            }
        } else {
            None
        }
    }

    /// The header of the block that holds the object `p` names; `None` where
    /// `p` names no live object. Between collections no header carries the
    /// mark.
    pub fn gc_header(&self, p: GcPtr<T>) -> (header: Option<&GcHeader>)
        requires
            self.wf(),
        ensures
            match header {
                Some(h) => {
                    &&& self@.contains(p)
                    &&& !h.marked
                    &&& h.value_size == size_of::<T>()
                    &&& h.next == match self@.after(p) {
                        Some(q) => Some(q.slot() as usize),
                        None => None,
                    }
                },
                None => !self@.contains(p),
            },
    {
        proof {
            self.lemma_live_is_occupied(p);
            if self@.contains(p) {
                let order = self.order@;
                let k = order.index_of(p);
                assert(order[k] == p);
                assert(block_at(self.slots@, order[k]).header.next == link(order, k));
                assert(block_at(self.slots@, order[k]).header.value_size == size_of::<T>());
                assert(!marked(self.slots@, p));
                if k + 1 < order.len() {
                    order[k + 1].lemma_slot_is_index();
                }
            }
        }
        if p.index < self.slots.len() {
            match &self.slots[p.index] {
                Some(b) => Some(&b.header),
                None => None,
            }
        } else {
            None
        }
    }

    /// The payload in the slot that `p` names, to be changed in place.
    fn payload_mut(&mut self, p: GcPtr<T>) -> (value: Option<&mut T>)
        ensures
            final(self).order@ == old(self).order@,
            final(self).free@ == old(self).free@,
            final(self).values == old(self).values,
            final(self).allocated_objects == old(self).allocated_objects,
            final(self).collect_limit == old(self).collect_limit,
            match value {
                Some(v) => {
                    &&& *v == block_at(old(self).slots@, p).value
                    &&& rewritten(old(self).slots@, p, *final(v), final(self).slots@)
                },
                None => !occupied(old(self).slots@, p) && final(self).slots@ == old(self).slots@,
            },
    {
        if p.index < self.slots.len() {
            match &mut self.slots[p.index] {
                Some(b) => Some(&mut b.value),
                None => None,
            }
        } else {
            None
        }
    }

    /// The payload of the object that `p` names, to be changed in place;
    /// `None` where `p` names no live object.
    pub fn get_mut(&mut self, p: GcPtr<T>) -> (value: Option<&mut T>)
        requires
            old(self).wf(),
        ensures
            final(self).wf(),
            final(self).limit() == old(self).limit(),
            final(self).slots() == old(self).slots(),
            match value {
                Some(v) => {
                    &&& old(self)@.contains(p)
                    &&& *v == old(self)@.values[p]
                    &&& final(self)@ == old(self)@.updated(p, *final(v))
                },
                None => !old(self)@.contains(p) && final(self)@ == old(self)@,
            },
    {
        proof {
            let slots = self.slots@;
            let order = self.order@;
            let free = self.free@;
            self.lemma_live_is_occupied(p);
            assert forall|value: T, after: Slots<T>| #[trigger]
                rewritten(slots, p, value, after) implies {
                &&& chained(after, order)
                &&& spare(after, free, order.len())
                &&& forall|q: GcPtr<T>| marked(after, q) == marked(slots, q)
                &&& payloads(after, order) == payloads(slots, order).insert(p, value)
            } by {
                lemma_rewrite(slots, order, free, p, value, after);
            }
        }
        self.payload_mut(p)
    }

    /// The handles of the live objects, read off the allocation list from
    /// its head.
    pub fn handles(&self) -> (list: Vec<GcPtr<T>>)
        requires
            self.wf(),
        ensures
            list@ == self@.handles,
    {
        let ghost order = self.order@;
        let ghost mut k: int = 0;
        let mut list: Vec<GcPtr<T>> = Vec::new();
        let mut cur: Option<usize> = self.values;
        proof {
            assert(list@ =~= order.take(0));
        }
        while cur.is_some()
            invariant
                self.linked(),
                order == self.order@,
                0 <= k <= order.len(),
                cur == (if k < order.len() {
                    Some(order[k].index)
                } else {
                    None
                }),
                list@ == order.take(k),
            decreases order.len() - k,
        {
            let i: usize = cur.unwrap();
            proof {
                assert(occupied(self.slots@, order[k]));
                assert(block_at(self.slots@, order[k]).header.next == link(order, k));
                assert(order.take(k + 1) =~= order.take(k).push(order[k]));
            }
            list.push(GcPtr { index: i, marker: PhantomData });
            cur =
            match &self.slots[i] {
                Some(b) => b.header.next,
                None => None,
            };
            proof {
                k = k + 1;
            }
        }
        proof {
            assert(order.take(k) =~= order);
        }
        list
    }

    /// Moves `value` into a fresh block at the head of the allocation list
    /// and hands out the handle to it. Never collects.
    pub fn allocate(&mut self, value: T) -> (p: GcPtr<T>)
        requires
            old(self).wf(),
        ensures
            final(self).wf(),
            !old(self)@.contains(p),
            final(self)@ == old(self)@.allocated(p, value),
            final(self).limit() == old(self).limit(),
            final(self).slots() == if old(self)@.len() < old(self).slots() {
                old(self).slots()
            } else {
                old(self).slots() + 1
            },
            p.slot() < final(self).slots(),
            old(self)@.len() == old(self).slots() ==> p.slot() == old(self).slots(),
    {
        let mut block = Block::new(value);
        block.header.next = self.values;
        let index: usize = match self.free.pop() {
            Some(i) => {
                self.slots.set(i, Some(block));
                i
            },
            None => {
                self.slots.push(Some(block));
                self.slots.len() - 1
            },
        };
        assert(self.allocated_objects < self.slots.len());
        self.allocated_objects = self.allocated_objects + 1;
        self.values = Some(index);
        let p = GcPtr { index, marker: PhantomData };
        self.order = Ghost(seq![p] + self.order@);
        proof {
            lemma_link_in(old(self).slots@, old(self).order@, p, value, self.slots@);
            p.lemma_slot_is_index();
        }
        p
    }

    /// Empties the slot `index`, puts it on the free list and counts one
    /// object less. The payload in the slot is dropped.
    fn free(&mut self, index: usize)
        requires
            index < old(self).slots.len(),
            old(self).allocated_objects > 0,
        ensures
            final(self).slots@ == old(self).slots@.update(index as int, None),
            final(self).free@ == old(self).free@.push(index),
            final(self).allocated_objects == old(self).allocated_objects - 1,
            final(self).values == old(self).values,
            final(self).collect_limit == old(self).collect_limit,
            final(self).order@ == old(self).order@,
    {
        self.slots.set(index, None);
        self.free.push(index);
        self.allocated_objects = self.allocated_objects - 1;
    }

    /// Takes the block in slot `index`, the `m`-th of the allocation list,
    /// out of the list and frees it. `prev` is the slot of the block before
    /// it, `next` that of the block behind it.
    fn unlink(
        &mut self,
        prev: Option<usize>,
        index: usize,
        next: Option<usize>,
        Ghost(m): Ghost<int>,
    )
        requires
            old(self).linked(),
            0 <= m < old(self).order@.len(),
            old(self).order@[m].index == index,
            prev == (if m == 0 {
                None
            } else {
                Some(old(self).order@[m - 1].index)
            }),
            next == link(old(self).order@, m),
        ensures
            final(self).linked(),
            final(self).order@ == old(self).order@.remove(m),
            unlinked(old(self).slots@, old(self).order@, m, final(self).slots@),
            final(self).collect_limit == old(self).collect_limit,
    {
        let ghost slots = self.slots@;
        let ghost order = self.order@;
        proof {
            assert(occupied(slots, order[m]));
            if m > 0 {
                assert(occupied(slots, order[m - 1]));
            }
        }
        match prev {
            None => {
                self.values = next;
            },
            Some(j) => {
                match &mut self.slots[j] {
                    Some(b) => {
                        b.header.next = next;
                    },
                    None => {},
                }
            },
        }
        self.free(index);
        self.order = Ghost(order.remove(m));
        proof {
            let after = self.slots@;
            assert(unlinked(slots, order, m, after));
            lemma_unlink_listed(slots, order, m, after);
            lemma_unlink_complete(slots, order, m, after);
            lemma_unlink_threaded(slots, order, m, after);
            assert(link(order, m) == head(order.remove(m)) || m > 0);
        }
    }

    /// Sets the mark of the block in slot `index` to `mark`.
    fn set_mark(&mut self, index: usize, mark: bool)
        requires
            old(self).linked(),
            occupied(old(self).slots@, GcPtr::at(index)),
        ensures
            final(self).linked(),
            final(self).order@ == old(self).order@,
            remarked(old(self).slots@, GcPtr::at(index), mark, final(self).slots@),
            final(self).collect_limit == old(self).collect_limit,
    {
        match &mut self.slots[index] {
            Some(b) => {
                b.header.marked = mark;
            },
            None => {},
        }
        proof {
            let slots = old(self).slots@;
            let after = self.slots@;
            assert(remarked(slots, GcPtr::at(index), mark, after));
            lemma_remark_chained(slots, self.order@, GcPtr::at(index), mark, after);
        }
    }

    /// Walks the allocation list once. A block without the mark is taken out
    /// of the list and freed; a block with the mark stays and loses the mark.
    fn sweep(&mut self)
        requires
            old(self).linked(),
        ensures
            final(self).wf(),
            final(self)@ == old(self)@.retain(old(self).marks()),
            final(self).limit() == old(self).limit(),
            final(self).slots() == old(self).slots(),
    {
        let ghost keep = self.marks();
        let ghost old_slots = self.slots@;
        let ghost old_order = self.order@;
        let ghost mut k: int = 0;
        let ghost mut kept: Seq<GcPtr<T>> = Seq::empty();
        let mut prev: Option<usize> = None;
        let mut cur: Option<usize> = self.values;
        proof {
            assert(old_order.take(0) =~= Seq::empty());
            assert(kept =~= old_order.take(0).filter(|p: GcPtr<T>| keep.contains(p))) by {
                reveal(Seq::filter);
            }
            assert(self.order@ =~= kept + old_order.skip(0));
        }
        while cur.is_some()
            invariant
                self.linked(),
                sweeping(old_slots, old_order, keep, k, kept, self.slots@, self.order@),
                cur == (if k < old_order.len() {
                    Some(old_order[k].index)
                } else {
                    None
                }),
                prev == (if kept.len() == 0 {
                    None
                } else {
                    Some(kept.last().index)
                }),
                self.collect_limit == old(self).collect_limit,
                self.slots@.len() == old_slots.len(),
            decreases old_order.len() - k,
        {
            let i: usize = cur.unwrap();
            let ghost m: int = kept.len() as int;
            let ghost slots = self.slots@;
            let ghost order = self.order@;
            proof {
                assert(order[m] == old_order[k]);
                assert(occupied(slots, order[m]));
                assert(block_at(slots, order[m]).header.next == link(order, m));
                assert(link(order, m) == if k + 1 < old_order.len() {
                    Some(old_order[k + 1].index)
                } else {
                    None
                }) by {
                    if k + 1 < old_order.len() {
                        assert(order[m + 1] == old_order[k + 1]);
                    }
                }
                if m > 0 {
                    assert(order[m - 1] == kept[m - 1]);
                }
            }
            let (next, is_marked) = match &self.slots[i] {
                Some(b) => (b.header.next, b.header.marked),
                None => (None, false),
            };
            if !is_marked {
                self.unlink(prev, i, next, Ghost(m));
                proof {
                    let after = self.slots@;
                    lemma_sweep_drop(old_slots, old_order, keep, k, kept, slots, order, after);
                }
            } else {
                self.set_mark(i, false);
                prev = Some(i);
                proof {
                    let after = self.slots@;
                    lemma_sweep_keep(old_slots, old_order, keep, k, kept, slots, order, after);
                    kept = kept.push(old_order[k]);
                }
            }
            cur = next;
            proof {
                k = k + 1;
            }
        }
        proof {
            lemma_sweep_done(old_slots, old_order, keep, kept, self.slots@, self.order@);
        }
    }
}

impl<T: Traverseable<T>> Gc<T> {
    /// Looks at the handle `p`. If it names a live object without the mark,
    /// the object is marked and the handles it holds are handed back.
    fn visit(&mut self, p: GcPtr<T>) -> (found: Option<Vec<GcPtr<T>>>)
        requires
            old(self).linked(),
        ensures
            final(self).linked(),
            final(self).order@ == old(self).order@,
            final(self).collect_limit == old(self).collect_limit,
            match found {
                Some(kids) => {
                    &&& occupied(old(self).slots@, p)
                    &&& !marked(old(self).slots@, p)
                    &&& remarked(old(self).slots@, p, true, final(self).slots@)
                    &&& kids@ == block_at(old(self).slots@, p).value.children()
                },
                None => {
                    &&& !occupied(old(self).slots@, p) || marked(old(self).slots@, p)
                    &&& final(self).slots@ == old(self).slots@
                },
            },
    {
        if p.index >= self.slots.len() {
            return None;
        }
        let found = match &self.slots[p.index] {
            Some(b) => if b.header.marked {
                None
            } else {
                Some(b.value.traverse())
            },
            None => None,
        };
        if found.is_some() {
            self.set_mark(p.index, true);
        }
        found
    }

    /// Marks the object that `root` names and every object that can be
    /// reached from it. A marked object is not looked into again, so shared
    /// objects and cycles are walked once.
    fn mark(&mut self, root: GcPtr<T>)
        requires
            old(self).linked(),
            saturated(old(self)@, old(self).marks()),
        ensures
            final(self).linked(),
            final(self)@ == old(self)@,
            final(self).marks() == old(self).marks().union(old(self)@.reachable(seq![root])),
            saturated(final(self)@, final(self).marks()),
            final(self).limit() == old(self).limit(),
            final(self).slots() == old(self).slots(),
    {
        let ghost heap = self@;
        let ghost before = self.marks();
        let mut work: Vec<GcPtr<T>> = Vec::new();
        work.push(root);
        proof {
            assert(work@ =~= seq![root]);
            lemma_marking_begins(heap, root, before);
        }
        while work.len() > 0
            invariant
                self.linked(),
                self@ == heap,
                marking(heap, root, before, marks_of(self.slots@), work@),
                self.collect_limit == old(self).collect_limit,
                self.slots@.len() == old(self).slots@.len(),
            decreases unmarked(self.slots@, self.order@).len(), work.len(),
        {
            let ghost slots = self.slots@;
            let ghost order = self.order@;
            let ghost pending = work@;
            let p = work.pop().unwrap();
            proof {
                if order.contains(p) {
                    let k = choose|k: int| 0 <= k < order.len() && order[k] == p;
                    assert(occupied(slots, order[k]));
                }
                assert(heap.contains(p) == occupied(slots, p));
            }
            match self.visit(p) {
                Some(mut kids) => {
                    proof {
                        lemma_marking_visits(heap, root, before, marks_of(slots), pending);
                        lemma_mark_shrinks(slots, order, p, self.slots@);
                        lemma_remark_payloads(slots, order, p, true, self.slots@);
                        assert(marks_of(self.slots@) =~= marks_of(slots).insert(p));
                    }
                    work.append(&mut kids);
                },
                None => {
                    proof {
                        lemma_marking_skips(heap, root, before, marks_of(slots), pending);
                    }
                },
            }
        }
        proof {
            assert(work@ =~= Seq::empty());
            lemma_marking_ends(heap, root, before, marks_of(self.slots@));
        }
    }

    /// Reclaims every object that cannot be reached from `roots`: marks what
    /// the root handles reach, then sweeps the allocation list.
    pub fn collect<R: Traverseable<T>>(&mut self, roots: &R)
        requires
            old(self).wf(),
        ensures
            final(self).wf(),
            final(self)@ == old(self)@.collected(roots.children()),
            final(self).limit() == old(self).limit(),
            final(self).slots() == old(self).slots(),
    {
        let ghost heap = self@;
        let handles = roots.traverse();
        let mut i: usize = 0;
        proof {
            assert(marks_of(self.slots@) =~= heap.reachable(handles@.take(0)));
        }
        while i < handles.len()
            invariant
                i <= handles.len(),
                self.linked(),
                self@ == heap,
                saturated(heap, marks_of(self.slots@)),
                marks_of(self.slots@) == heap.reachable(handles@.take(i as int)),
                self.limit() == old(self).limit(),
                self.slots() == old(self).slots(),
            decreases handles.len() - i,
        {
            self.mark(handles[i]);
            proof {
                assert(handles@.take(i + 1) =~= handles@.take(i as int).push(handles@[i as int]));
                heap.lemma_reachable_push(handles@.take(i as int), handles@[i as int]);
            }
            i = i + 1;
        }
        proof {
            assert(handles@.take(i as int) =~= handles@);
        }
        self.sweep();
    }

    /// Allocates as [`Gc::allocate`] does, but collects with `roots` first
    /// when the number of live objects has reached the collect limit.
    pub fn alloc_and_collect<R: Traverseable<T>>(&mut self, roots: &R, value: T) -> (p: GcPtr<
        T,
    >)
        requires
            old(self).wf(),
        ensures
            final(self).wf(),
            final(self).limit() == old(self).limit(),
            ({
                let before = if old(self)@.len() >= old(self).limit() {
                    old(self)@.collected(roots.children())
                } else {
                    old(self)@
                };
                &&& !before.contains(p)
                &&& final(self)@ == before.allocated(p, value)
                &&& final(self).slots() == if before.len() < old(self).slots() {
                    old(self).slots()
                } else {
                    old(self).slots() + 1
                }
                &&& p.slot() < final(self).slots()
                &&& before.len() == old(self).slots() ==> p.slot() == old(self).slots()
            }),
    {
        if self.allocated_objects >= self.collect_limit {
            self.collect(roots);
        }
        self.allocate(value)
    }
}

} // verus!
