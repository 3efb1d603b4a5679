use tracing_gc::{Gc, GcPtr, Traverseable, DEFAULT_COLLECT_LIMIT};

#[derive(Clone, Copy, PartialEq, Debug)]
enum Value {
    Int(i64),
    Data(GcPtr<Fields>),
}

/// The element type of the collectors under test: a record of values, some
/// of which are handles to other records.
#[derive(PartialEq, Debug)]
struct Fields(Vec<Value>);

/// The root set of the collectors under test: an evaluation stack.
struct Stack(Vec<Value>);

fn data_handles(values: &[Value]) -> Vec<GcPtr<Fields>> {
    let mut out = Vec::new();
    for v in values {
        if let Value::Data(p) = v {
            out.push(*p);
        }
    }
    out
}

impl Traverseable<Fields> for Fields {
    // Stands in proofs for what `traverse` reports; nothing ever calls it.
    fn children(&self) -> vstd::seq::Seq<GcPtr<Fields>> {
        panic!("`children` exists in proofs only")
    }

    fn traverse(&self) -> Vec<GcPtr<Fields>> {
        data_handles(&self.0)
    }
}

impl Traverseable<Fields> for Stack {
    // Stands in proofs for what `traverse` reports; nothing ever calls it.
    fn children(&self) -> vstd::seq::Seq<GcPtr<Fields>> {
        panic!("`children` exists in proofs only")
    }

    fn traverse(&self) -> Vec<GcPtr<Fields>> {
        data_handles(&self.0)
    }
}

/// Counts the blocks on the allocation list.
fn num_objects(gc: &Gc<Fields>) -> usize {
    let n = gc.handles().len();
    assert_eq!(n, gc.allocated_objects());
    n
}

fn new_data(p: GcPtr<Fields>) -> Value {
    Value::Data(p)
}

fn record(gc: &mut Gc<Fields>, values: Vec<Value>) -> GcPtr<Fields> {
    gc.allocate(Fields(values))
}

fn no_roots() -> Stack {
    Stack(Vec::new())
}

#[test]
fn gc_header() {
    let mut gc: Gc<Fields> = Gc::new();
    let ptr = gc.allocate(Fields(Vec::new()));
    let head = gc.handles()[0];
    assert_eq!(head, ptr);
    let header = gc.gc_header(ptr).unwrap();
    let other = gc.gc_header(head).unwrap();
    assert!(std::ptr::eq(header, other));
}

#[test]
fn basic() {
    let mut gc: Gc<Fields> = Gc::new();
    let mut stack = Stack(Vec::new());
    stack.0.push(new_data(gc.allocate(Fields(vec![Value::Int(1)]))));
    let d2 = new_data(gc.allocate(Fields(vec![stack.0[0]])));
    stack.0.push(d2);
    assert_eq!(num_objects(&gc), 2);
    gc.collect(&stack);
    assert_eq!(num_objects(&gc), 2);
    match stack.0[0] {
        Value::Data(data) => assert_eq!(gc.get(data).unwrap().0[0], Value::Int(1)),
        _ => panic!(),
    }
    match stack.0[1] {
        Value::Data(data) => assert_eq!(gc.get(data).unwrap().0[0], stack.0[0]),
        _ => panic!(),
    }
    stack.0.pop();
    stack.0.pop();
    gc.collect(&stack);
    assert_eq!(num_objects(&gc), 0);
}

#[test]
fn new_collector_is_empty_with_default_limit() {
    let gc: Gc<Fields> = Gc::new();
    assert_eq!(gc.allocated_objects(), 0);
    assert!(gc.handles().is_empty());
    assert_eq!(gc.collect_limit(), 100);
    assert_eq!(DEFAULT_COLLECT_LIMIT, 100);
}

#[test]
fn collecting_an_empty_collector_does_nothing() {
    let mut gc: Gc<Fields> = Gc::new();
    gc.collect(&no_roots());
    assert_eq!(num_objects(&gc), 0);
}

fn rooted_objects_survive(n: usize) {
    let mut gc: Gc<Fields> = Gc::new();
    let mut stack = Stack(Vec::new());
    for i in 0..n {
        let p = record(&mut gc, vec![Value::Int(i as i64)]);
        stack.0.push(new_data(p));
    }
    assert_eq!(num_objects(&gc), n);
    gc.collect(&stack);
    assert_eq!(num_objects(&gc), n);
    for (i, v) in stack.0.iter().enumerate() {
        match v {
            Value::Data(p) => assert_eq!(gc.get(*p), Some(&Fields(vec![Value::Int(i as i64)]))),
            _ => panic!(),
        }
    }
}

#[test]
fn all_rooted_objects_survive_none() {
    rooted_objects_survive(0);
}

#[test]
fn all_rooted_objects_survive_one() {
    rooted_objects_survive(1);
}

#[test]
fn all_rooted_objects_survive_seven() {
    rooted_objects_survive(7);
}

#[test]
fn all_rooted_objects_survive_past_the_limit() {
    rooted_objects_survive(250);
}

#[test]
fn referenced_pair_lives_while_rooted_and_dies_unrooted() {
    let mut gc: Gc<Fields> = Gc::new();
    let a = record(&mut gc, vec![Value::Int(1)]);
    let b = record(&mut gc, vec![new_data(a)]);
    let mut stack = Stack(vec![new_data(a), new_data(b)]);
    gc.collect(&stack);
    assert_eq!(num_objects(&gc), 2);
    stack.0.clear();
    gc.collect(&stack);
    assert_eq!(num_objects(&gc), 0);
    assert_eq!(gc.get(a), None);
    assert_eq!(gc.get(b), None);
}

#[test]
fn child_lives_through_its_rooted_parent() {
    let mut gc: Gc<Fields> = Gc::new();
    let child = record(&mut gc, vec![Value::Int(5)]);
    let parent = record(&mut gc, vec![new_data(child)]);
    let stray = record(&mut gc, vec![Value::Int(6)]);
    gc.collect(&Stack(vec![new_data(parent)]));
    assert_eq!(gc.handles(), vec![parent, child]);
    assert!(gc.contains(child));
    assert!(gc.contains(parent));
    assert!(!gc.contains(stray));
}

#[test]
fn cycle_rooted_at_one_end_survives_whole() {
    let mut gc: Gc<Fields> = Gc::new();
    let a = record(&mut gc, Vec::new());
    let b = record(&mut gc, vec![new_data(a)]);
    gc.get_mut(a).unwrap().0.push(new_data(b));
    let stack = Stack(vec![new_data(a)]);
    gc.collect(&stack);
    assert_eq!(num_objects(&gc), 2);
    assert!(gc.contains(a));
    assert!(gc.contains(b));
    assert_eq!(gc.get(a).unwrap().0, vec![new_data(b)]);
    assert_eq!(gc.get(b).unwrap().0, vec![new_data(a)]);
}

#[test]
fn unrooted_cycle_is_reclaimed_once() {
    let mut gc: Gc<Fields> = Gc::new();
    let a = record(&mut gc, Vec::new());
    let b = record(&mut gc, vec![new_data(a)]);
    gc.get_mut(a).unwrap().0.push(new_data(b));
    gc.collect(&no_roots());
    assert_eq!(num_objects(&gc), 0);
    gc.collect(&no_roots());
    assert_eq!(num_objects(&gc), 0);
}

#[test]
fn object_that_holds_itself_is_walked_once() {
    let mut gc: Gc<Fields> = Gc::new();
    let a = record(&mut gc, Vec::new());
    gc.get_mut(a).unwrap().0.push(new_data(a));
    gc.get_mut(a).unwrap().0.push(new_data(a));
    gc.collect(&Stack(vec![new_data(a), new_data(a)]));
    assert_eq!(gc.handles(), vec![a]);
    gc.collect(&no_roots());
    assert_eq!(num_objects(&gc), 0);
}

#[test]
fn shared_child_lives_until_the_last_reference_goes() {
    let mut gc: Gc<Fields> = Gc::new();
    let c = record(&mut gc, vec![Value::Int(3)]);
    let a = record(&mut gc, vec![new_data(c)]);
    let b = record(&mut gc, vec![new_data(c)]);
    let stack = Stack(vec![new_data(a), new_data(b)]);
    gc.collect(&stack);
    assert_eq!(num_objects(&gc), 3);

    gc.get_mut(a).unwrap().0.clear();
    gc.collect(&stack);
    assert_eq!(num_objects(&gc), 3);
    assert_eq!(gc.get(c), Some(&Fields(vec![Value::Int(3)])));

    gc.get_mut(b).unwrap().0.clear();
    gc.collect(&stack);
    assert_eq!(num_objects(&gc), 2);
    assert_eq!(gc.get(c), None);
    assert!(gc.contains(a));
    assert!(gc.contains(b));
}

#[test]
fn marks_are_cleared_between_collections() {
    let mut gc: Gc<Fields> = Gc::new();
    let a = record(&mut gc, vec![Value::Int(1)]);
    let b = record(&mut gc, vec![new_data(a)]);
    let stray = record(&mut gc, Vec::new());
    let stack = Stack(vec![new_data(b)]);
    assert!(!gc.gc_header(a).unwrap().marked);
    gc.collect(&stack);
    assert_eq!(gc.handles(), vec![b, a]);
    assert!(!gc.gc_header(a).unwrap().marked);
    assert!(!gc.gc_header(b).unwrap().marked);
    assert!(gc.gc_header(stray).is_none());
    gc.collect(&stack);
    assert_eq!(gc.handles(), vec![b, a]);
    assert!(!gc.gc_header(a).unwrap().marked);
    assert!(!gc.gc_header(b).unwrap().marked);
    // With a mark left over, an object would outlive its last root.
    gc.collect(&no_roots());
    assert_eq!(num_objects(&gc), 0);
}

#[test]
fn low_limit_collects_once_before_the_allocation_is_counted() {
    let mut gc: Gc<Fields> = Gc::new();
    gc.set_collect_limit(3);
    assert_eq!(gc.collect_limit(), 3);
    let mut stack = Stack(Vec::new());
    let kept = gc.alloc_and_collect(&stack, Fields(vec![Value::Int(0)]));
    stack.0.push(new_data(kept));
    let lost1 = gc.alloc_and_collect(&stack, Fields(vec![Value::Int(1)]));
    let lost2 = gc.alloc_and_collect(&stack, Fields(vec![Value::Int(2)]));
    // Below the limit nothing was collected.
    assert_eq!(num_objects(&gc), 3);
    assert!(gc.contains(lost1) && gc.contains(lost2));
    // At the limit: the two unrooted objects go, then the new one is counted.
    let fresh = gc.alloc_and_collect(&stack, Fields(vec![Value::Int(3)]));
    assert_eq!(num_objects(&gc), 2);
    assert_eq!(gc.handles(), vec![fresh, kept]);
    assert_eq!(gc.get(kept), Some(&Fields(vec![Value::Int(0)])));
    assert_eq!(gc.get(fresh), Some(&Fields(vec![Value::Int(3)])));
    // Below the limit again: no second collection, the unrooted `fresh` stays.
    let next = gc.alloc_and_collect(&stack, Fields(vec![Value::Int(4)]));
    assert_eq!(gc.handles(), vec![next, fresh, kept]);
}

#[test]
fn limit_zero_collects_before_every_allocation() {
    let mut gc: Gc<Fields> = Gc::new();
    gc.set_collect_limit(0);
    let a = gc.alloc_and_collect(&no_roots(), Fields(Vec::new()));
    assert_eq!(gc.handles(), vec![a]);
    let b = gc.alloc_and_collect(&no_roots(), Fields(Vec::new()));
    assert_eq!(gc.handles(), vec![b]);
    assert_eq!(gc.collect_limit(), 0);
}

#[test]
fn default_limit_collects_at_one_hundred_objects() {
    let mut gc: Gc<Fields> = Gc::new();
    for i in 0..100 {
        gc.alloc_and_collect(&no_roots(), Fields(vec![Value::Int(i)]));
        assert_eq!(gc.allocated_objects(), i as usize + 1);
    }
    let last = gc.alloc_and_collect(&no_roots(), Fields(Vec::new()));
    assert_eq!(gc.handles(), vec![last]);
}

#[test]
fn arena_stays_at_the_high_water_mark() {
    let mut gc: Gc<Fields> = Gc::new();
    gc.set_collect_limit(4);
    for round in 0..50 {
        let p = gc.alloc_and_collect(&no_roots(), Fields(vec![Value::Int(round)]));
        assert!(p.index() < gc.slot_count());
        assert!(gc.allocated_objects() <= 4);
        assert!(gc.slot_count() <= 4);
    }
    gc.get_mut(gc.handles()[0]).unwrap().0.push(Value::Int(-1));
    assert_eq!(gc.slot_count(), 4);
}

#[test]
fn allocate_never_collects() {
    let mut gc: Gc<Fields> = Gc::new();
    gc.set_collect_limit(1);
    for _ in 0..10 {
        gc.allocate(Fields(Vec::new()));
    }
    assert_eq!(num_objects(&gc), 10);
}

#[test]
fn allocation_list_is_newest_first() {
    let mut gc: Gc<Fields> = Gc::new();
    let a = record(&mut gc, Vec::new());
    let b = record(&mut gc, Vec::new());
    let c = record(&mut gc, Vec::new());
    assert_eq!(gc.handles(), vec![c, b, a]);
    assert_eq!(gc.gc_header(c).unwrap().next, Some(b.index()));
    assert_eq!(gc.gc_header(b).unwrap().next, Some(a.index()));
    assert_eq!(gc.gc_header(a).unwrap().next, None);
    assert_eq!(gc.gc_header(a).unwrap().value_size, std::mem::size_of::<Fields>());
}

#[test]
fn sweep_keeps_the_order_across_runs_of_removals() {
    let mut gc: Gc<Fields> = Gc::new();
    let mut all = Vec::new();
    for i in 0..10 {
        all.push(record(&mut gc, vec![Value::Int(i)]));
    }
    // List order is 9, 8, .., 0. Keep 7, 3 and 2: runs of removals stand at
    // the head, in the middle and at the tail.
    let stack = Stack(vec![new_data(all[2]), new_data(all[7]), new_data(all[3])]);
    gc.collect(&stack);
    assert_eq!(gc.handles(), vec![all[7], all[3], all[2]]);
    assert_eq!(gc.gc_header(all[7]).unwrap().next, Some(all[3].index()));
    assert_eq!(gc.gc_header(all[3]).unwrap().next, Some(all[2].index()));
    assert_eq!(gc.gc_header(all[2]).unwrap().next, None);
    for i in [2usize, 3, 7] {
        assert_eq!(gc.get(all[i]), Some(&Fields(vec![Value::Int(i as i64)])));
    }
    for i in [0usize, 1, 4, 5, 6, 8, 9] {
        assert_eq!(gc.get(all[i]), None);
    }
}

#[test]
fn sweep_removes_only_the_head() {
    let mut gc: Gc<Fields> = Gc::new();
    let a = record(&mut gc, Vec::new());
    let b = record(&mut gc, Vec::new());
    let c = record(&mut gc, Vec::new());
    gc.collect(&Stack(vec![new_data(a), new_data(b)]));
    assert_eq!(gc.handles(), vec![b, a]);
    assert!(!gc.contains(c));
}

#[test]
fn sweep_removes_only_the_tail() {
    let mut gc: Gc<Fields> = Gc::new();
    let a = record(&mut gc, Vec::new());
    let b = record(&mut gc, Vec::new());
    let c = record(&mut gc, Vec::new());
    gc.collect(&Stack(vec![new_data(c), new_data(b)]));
    assert_eq!(gc.handles(), vec![c, b]);
    assert!(!gc.contains(a));
}

#[test]
fn freed_slots_are_given_out_again() {
    let mut gc: Gc<Fields> = Gc::new();
    assert_eq!(gc.slot_count(), 0);
    let a = record(&mut gc, vec![Value::Int(1)]);
    let b = record(&mut gc, vec![Value::Int(2)]);
    assert_eq!((a.index(), b.index()), (0, 1));
    assert_eq!(gc.slot_count(), 2);
    gc.collect(&Stack(vec![new_data(a)]));
    assert!(!gc.contains(b));
    assert_eq!(gc.slot_count(), 2);
    // One slot is empty: the arena does not grow.
    let c = record(&mut gc, vec![Value::Int(3)]);
    assert_eq!(gc.slot_count(), 2);
    assert!(c.index() < 2 && c != a);
    // Every slot is occupied: the arena grows by the slot behind it.
    let d = record(&mut gc, vec![Value::Int(4)]);
    assert_eq!(gc.slot_count(), 3);
    assert_eq!(d.index(), 2);
    assert_eq!(gc.handles(), vec![d, c, a]);
    assert_eq!(gc.get(a), Some(&Fields(vec![Value::Int(1)])));
    assert_eq!(gc.get(c), Some(&Fields(vec![Value::Int(3)])));
    assert_eq!(gc.get(d), Some(&Fields(vec![Value::Int(4)])));
}

#[test]
fn dangling_handles_name_nothing() {
    let mut gc: Gc<Fields> = Gc::new();
    let a = record(&mut gc, vec![Value::Int(1)]);
    let holder = record(&mut gc, vec![new_data(a)]);
    // `a` goes although `holder` is not rooted either: both are reclaimed.
    gc.collect(&no_roots());
    assert!(!gc.contains(a));
    assert_eq!(gc.get(a), None);
    assert!(gc.get_mut(a).is_none());
    assert!(gc.gc_header(holder).is_none());
    // A root and a child that dangle are passed over.
    let far = record(&mut gc, Vec::new());
    let b = record(&mut gc, Vec::new());
    let c = record(&mut gc, vec![new_data(b)]);
    gc.collect(&Stack(vec![new_data(c)]));
    assert_eq!(gc.handles(), vec![c, b]);
    gc.get_mut(b).unwrap().0.push(new_data(far));
    gc.collect(&Stack(vec![new_data(far), new_data(c)]));
    assert_eq!(gc.handles(), vec![c, b]);
}

#[test]
fn get_mut_changes_the_payload_in_place() {
    let mut gc: Gc<Fields> = Gc::new();
    let a = record(&mut gc, vec![Value::Int(1)]);
    let b = record(&mut gc, vec![Value::Int(2)]);
    *gc.get_mut(a).unwrap() = Fields(vec![Value::Int(10), new_data(b)]);
    assert_eq!(gc.get(a), Some(&Fields(vec![Value::Int(10), new_data(b)])));
    assert_eq!(gc.get(b), Some(&Fields(vec![Value::Int(2)])));
    assert_eq!(gc.handles(), vec![b, a]);
    gc.collect(&Stack(vec![new_data(a)]));
    assert_eq!(gc.handles(), vec![b, a]);
}

#[test]
fn plain_values_among_the_roots_are_no_roots() {
    let mut gc: Gc<Fields> = Gc::new();
    let a = record(&mut gc, Vec::new());
    gc.collect(&Stack(vec![Value::Int(a.index() as i64), Value::Int(0)]));
    assert_eq!(num_objects(&gc), 0);
}

#[test]
fn long_chain_is_marked_without_deep_recursion() {
    let mut gc: Gc<Fields> = Gc::new();
    let mut head = record(&mut gc, Vec::new());
    for _ in 0..200_000 {
        head = record(&mut gc, vec![new_data(head)]);
    }
    gc.collect(&Stack(vec![new_data(head)]));
    assert_eq!(gc.allocated_objects(), 200_001);
    gc.collect(&no_roots());
    assert_eq!(gc.allocated_objects(), 0);
}

#[test]
fn wide_shared_graph_is_kept_whole() {
    let mut gc: Gc<Fields> = Gc::new();
    let leaf = record(&mut gc, vec![Value::Int(9)]);
    let mut mids = Vec::new();
    for _ in 0..50 {
        mids.push(new_data(record(&mut gc, vec![new_data(leaf), new_data(leaf)])));
    }
    let top = record(&mut gc, mids);
    for _ in 0..20 {
        record(&mut gc, vec![new_data(leaf)]);
    }
    gc.collect(&Stack(vec![Value::Int(1), new_data(top)]));
    assert_eq!(num_objects(&gc), 52);
    assert!(gc.contains(leaf));
}

#[test]
fn list_of_handles_is_a_root_set() {
    let mut gc: Gc<Fields> = Gc::new();
    let a = record(&mut gc, Vec::new());
    let b = record(&mut gc, vec![new_data(a)]);
    let c = record(&mut gc, Vec::new());
    let roots: Vec<GcPtr<Fields>> = vec![b, b];
    assert_eq!(roots.traverse(), vec![b, b]);
    gc.collect(&roots);
    assert_eq!(gc.handles(), vec![b, a]);
    assert!(!gc.contains(c));
    let none: Vec<GcPtr<Fields>> = Vec::new();
    assert_eq!(none.traverse(), Vec::new());
    gc.collect(&none);
    assert_eq!(num_objects(&gc), 0);
}

#[test]
fn handles_compare_and_copy_by_slot() {
    let mut gc: Gc<Fields> = Gc::new();
    let a = record(&mut gc, Vec::new());
    let b = record(&mut gc, Vec::new());
    let a2 = a;
    assert_eq!(a, a2);
    assert_eq!(a.clone(), a);
    assert_ne!(a, b);
    assert_eq!(a.index(), 0);
    assert_eq!(b.index(), 1);
}
