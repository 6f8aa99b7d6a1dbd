//! Collecting what counted references cannot free.
use cove_runtime::heap::{
    Allocation, Heap, HeapStats, Item, Kind, Roots, Slot, Store,
    MIN_ALLOCATIONS_BETWEEN_COLLECTIONS, VALUE_BYTES, VECTOR_BYTES,
};

/// Registers a handle as a binding.
fn root(store: &mut Store, roots: &mut Roots, item: Item) -> usize {
    store.slots.push(Slot {
        readable: true,
        item,
    });
    roots.push(store.slots.len() - 1);
    store.slots.len() - 1
}

/// A second handle to an allocation, put into a vector.
fn push_shared(store: &mut Store, into: usize, at: usize) {
    store.share(at);
    store.cells[into].items.push((0, Item::Handle(at)));
}

/// A shared array of one element.
fn array_of(store: &mut Store, item: Item) -> usize {
    store.cells.push(Allocation {
        kind: Kind::Array,
        strong: 1,
        readable: true,
        items: vec![(0, item)],
    });
    store.cells.len() - 1
}

fn alive(store: &Store, at: usize) -> bool {
    store.cells[at].strong > 0
}

#[test]
fn an_unreachable_object_is_reclaimed() {
    let roots = Roots::new();
    let mut store = Store::new();
    let mut heap = Heap::new();
    let storage = heap.allocate(&mut store, vec![(0, Item::Leaf)]);
    store.release(storage);
    let collected = heap.collect(&mut store, &roots);
    assert_eq!(collected.live_objects, 0);
}

#[test]
fn a_reachable_object_survives() {
    let mut roots = Roots::new();
    let mut store = Store::new();
    let mut heap = Heap::new();
    let storage = heap.allocate(&mut store, vec![(0, Item::Leaf)]);
    root(&mut store, &mut roots, Item::Handle(storage));
    let collected = heap.collect(&mut store, &roots);
    assert_eq!(collected.live_objects, 1);
    assert_eq!(collected.freed_objects, 0);
}

/// Two objects that point at each other keep each other's count above nothing
/// forever.
#[test]
fn a_cycle_is_reclaimed() {
    let roots = Roots::new();
    let mut store = Store::new();
    let mut heap = Heap::new();
    let a = heap.allocate(&mut store, Vec::new());
    let b = heap.allocate(&mut store, Vec::new());
    push_shared(&mut store, a, b);
    push_shared(&mut store, b, a);
    store.release(a);
    store.release(b);

    assert!(alive(&store, a), "counting cannot free a cycle");
    let collected = heap.collect(&mut store, &roots);
    assert_eq!(collected.freed_objects, 2);
    assert_eq!(collected.live_objects, 0);
    assert!(!alive(&store, a), "the cycle was not freed");
}

#[test]
fn a_reachable_cycle_survives() {
    let mut roots = Roots::new();
    let mut store = Store::new();
    let mut heap = Heap::new();
    let a = heap.allocate(&mut store, Vec::new());
    push_shared(&mut store, a, a);
    store.share(a);
    root(&mut store, &mut roots, Item::Handle(a));
    store.release(a);
    let collected = heap.collect(&mut store, &roots);
    assert_eq!(collected.freed_objects, 0);
    assert_eq!(collected.live_objects, 1);
}

/// A cycle whose back edge runs through a struct field is still a cycle.
#[test]
fn a_cycle_through_a_struct_field_is_reclaimed() {
    let roots = Roots::new();
    let mut store = Store::new();
    let mut heap = Heap::new();
    let object = heap.allocate(&mut store, Vec::new());
    store.share(object);
    store.cells[object]
        .items
        .push((0, Item::Struct(vec![(4, Item::Handle(object))])));
    store.release(object);
    assert!(alive(&store, object));
    assert_eq!(heap.collect(&mut store, &roots).freed_objects, 1);
    assert!(!alive(&store, object));
}

/// An object held only by a value the collector cannot read is a root, found
/// by comparing the handles it can see with the count.
#[test]
fn an_object_held_only_by_a_temporary_is_a_root() {
    let roots = Roots::new();
    let mut store = Store::new();
    let mut heap = Heap::new();
    let held = heap.allocate(&mut store, vec![(0, Item::Leaf)]);
    let collected = heap.collect(&mut store, &roots);
    assert_eq!(collected.freed_objects, 0);
    assert_eq!(collected.live_objects, 1);
    assert_eq!(store.cells[held].items.len(), 1, "its contents survived");
}

/// The same rule, one level deeper: the temporary holds a container, and the
/// object is inside it.
#[test]
fn an_object_inside_a_temporary_container_is_a_root() {
    let roots = Roots::new();
    let mut store = Store::new();
    let mut heap = Heap::new();
    let inner = heap.allocate(&mut store, vec![(0, Item::Leaf)]);
    let temporary = array_of(&mut store, Item::Handle(inner));
    let collected = heap.collect(&mut store, &roots);
    assert_eq!(collected.freed_objects, 0);
    assert!(alive(&store, inner));
    store.release(temporary);
    assert!(!alive(&store, inner), "the container held the last handle");
}

/// A container is held by a garbage cycle and by a temporary the collector
/// cannot read. Counting only the object would find every handle to it
/// accounted for, by the garbage.
#[test]
fn an_object_reached_through_a_container_a_temporary_shares_with_garbage_survives() {
    let roots = Roots::new();
    let mut store = Store::new();
    let mut heap = Heap::new();
    let inner = heap.allocate(&mut store, vec![(0, Item::Leaf)]);
    let shared = array_of(&mut store, Item::Handle(inner));

    let a = heap.allocate(&mut store, Vec::new());
    let b = heap.allocate(&mut store, Vec::new());
    push_shared(&mut store, a, b);
    push_shared(&mut store, a, shared);
    push_shared(&mut store, b, a);
    store.release(a);
    store.release(b);

    let collected = heap.collect(&mut store, &roots);
    assert!(!alive(&store, a), "the garbage cycle should have gone");
    assert!(alive(&store, inner), "the temporary's array still holds it");
    assert_eq!(
        store.cells[inner].items.len(),
        1,
        "the sweep emptied a vector something still holds: {collected:?}"
    );
    assert_eq!(store.cells[shared].items.len(), 1);
    assert_eq!(store.cells[shared].strong, 1);
}

#[test]
fn a_binding_dropped_from_the_roots_is_reclaimed() {
    let mut roots = Roots::new();
    let mut store = Store::new();
    let mut heap = Heap::new();
    let object = heap.allocate(&mut store, Vec::new());
    push_shared(&mut store, object, object);
    store.release(object);
    let base = roots.len();
    root(&mut store, &mut roots, Item::Leaf);
    roots.truncate(base);
    assert_eq!(heap.collect(&mut store, &roots).freed_objects, 1);
}

#[test]
fn live_bytes_falls_when_a_cycle_is_reclaimed() {
    let roots = Roots::new();
    let mut store = Store::new();
    let mut heap = Heap::new();
    store.cells.push(Allocation {
        kind: Kind::Text("a fairly long string".len() as u64),
        strong: 1,
        readable: true,
        items: Vec::new(),
    });
    let a = heap.allocate(&mut store, vec![(0, Item::Handle(0))]);
    let b = heap.allocate(&mut store, Vec::new());
    push_shared(&mut store, a, b);
    push_shared(&mut store, b, a);

    // With both handles held, the cycle is rooted by the temporaries.
    let before = heap.collect(&mut store, &roots).live_bytes;
    store.release(a);
    store.release(b);
    let after = heap.collect(&mut store, &roots).live_bytes;
    assert!(before > 0);
    assert_eq!(before, 2 * VECTOR_BYTES + 3 * VALUE_BYTES + 20);
    assert_eq!(after, 0, "live bytes should fall to nothing: {before}");
}

#[test]
fn collections_are_spaced_by_allocation() {
    let mut store = Store::new();
    let mut heap = Heap::new();
    assert!(!heap.should_collect());
    for _ in 0..MIN_ALLOCATIONS_BETWEEN_COLLECTIONS {
        let at = heap.allocate(&mut store, Vec::new());
        store.release(at);
    }
    assert!(heap.should_collect());
}

#[test]
fn stats_accumulate_over_collections() {
    let roots = Roots::new();
    let mut store = Store::new();
    let mut heap = Heap::new();
    let object = heap.allocate(&mut store, Vec::new());
    push_shared(&mut store, object, object);
    store.release(object);
    heap.collect(&mut store, &roots);
    heap.collect(&mut store, &roots);
    let stats = heap.stats();
    assert_eq!(stats.allocated_objects, 1);
    assert_eq!(stats.collections, 2);
    assert_eq!(stats.freed_objects, 1);
}

/// What a collection frees is measured, and so is the pause.
#[test]
fn what_is_freed_is_measured() {
    let roots = Roots::new();
    let mut store = Store::new();
    let mut heap = Heap::new();
    let object = heap.allocate(&mut store, Vec::new());
    push_shared(&mut store, object, object);
    store.release(object);
    let collected = heap.collect(&mut store, &roots);
    assert_eq!(collected.allocated, 1);
    assert_eq!(collected.freed_bytes, VECTOR_BYTES + VALUE_BYTES);
    assert_eq!(collected.live_bytes, 0);
    assert_eq!(heap.stats().pause, collected.pause);
    assert_eq!(heap.live_bytes(), 0);
    assert!(heap.is_empty());
}

/// A binding being written cannot be read, so what it holds has a handle that
/// is not seen, and stays.
#[test]
fn what_a_binding_being_written_holds_stays() {
    let mut roots = Roots::new();
    let mut store = Store::new();
    let mut heap = Heap::new();
    let object = heap.allocate(&mut store, Vec::new());
    let slot = root(&mut store, &mut roots, Item::Handle(object));
    store.slots[slot].readable = false;
    assert_eq!(heap.collect(&mut store, &roots).live_objects, 1);
    assert!(!roots.is_empty());
}

/// The next collection is due at twice the live set, and never below the
/// floor.
#[test]
fn the_next_collection_follows_the_live_set() {
    let roots = Roots::new();
    let mut store = Store::new();
    let mut heap = Heap::new();
    for _ in 0..100 {
        heap.allocate(&mut store, Vec::new());
    }
    assert_eq!(heap.collect(&mut store, &roots).live_objects, 100);
    for due in [199, 200] {
        while heap.stats().allocated_objects < 100 + due {
            heap.allocate(&mut store, Vec::new());
        }
        assert_eq!(heap.should_collect(), due == 200);
    }
}

/// Taking the totals leaves what is live, and folding them counts each once.
#[test]
fn totals_are_taken_and_merged() {
    let roots = Roots::new();
    let mut store = Store::new();
    let mut heap = Heap::new();
    heap.allocate(&mut store, vec![(0, Item::Leaf)]);
    heap.collect(&mut store, &roots);
    let taken = heap.take_stats();
    assert_eq!(taken.allocated_objects, 1);
    assert_eq!(taken.allocated_bytes, VECTOR_BYTES + VALUE_BYTES);
    assert_eq!(heap.stats().allocated_objects, 0);
    assert_eq!(heap.stats().live_objects, 1);
    assert_eq!(heap.stats().peak_bytes, taken.peak_bytes);

    let mut total = HeapStats::empty();
    total.merge(&taken);
    total.merge(&taken);
    assert_eq!(total.allocated_objects, 2);
    assert_eq!(total.collections, 2);
    assert_eq!(total.pause, 2 * taken.pause);
    assert_eq!(total.live_objects, 0);
    assert_eq!(total.peak_bytes, taken.peak_bytes);
}

/// Dropping the last handle drops what is held, all the way down.
#[test]
fn the_last_handle_takes_everything_with_it() {
    let mut store = Store::new();
    let mut heap = Heap::new();
    let inner = heap.allocate(&mut store, Vec::new());
    let middle = array_of(&mut store, Item::Enum(vec![Item::Leaf, Item::Handle(inner)]));
    let outer = heap.allocate(&mut store, vec![(0, Item::Handle(middle))]);
    assert_eq!(store.release(outer), vec![true, true, true]);
    assert!(!alive(&store, inner) && !alive(&store, middle) && !alive(&store, outer));
}

/// Garbage goes whatever else is borrowed or bound where no root looks, and
/// what can still be reached keeps what it holds.
#[test]
fn garbage_goes_while_something_else_is_being_written() {
    let mut roots = Roots::new();
    let mut store = Store::new();
    let mut heap = Heap::new();
    let a = heap.allocate(&mut store, Vec::new());
    let b = heap.allocate(&mut store, Vec::new());
    push_shared(&mut store, a, b);
    push_shared(&mut store, b, a);
    store.release(a);
    store.release(b);
    let kept = heap.allocate(&mut store, Vec::new());
    let inner = heap.allocate(&mut store, Vec::new());
    push_shared(&mut store, kept, inner);
    store.release(inner);
    let slot = root(&mut store, &mut roots, Item::Handle(kept));
    store.slots[slot].readable = false;
    let written = heap.allocate(&mut store, Vec::new());
    store.cells[written].readable = false;

    let collected = heap.collect(&mut store, &roots);
    assert_eq!(collected.freed_objects, 2, "the cycle goes");
    assert_eq!(collected.live_objects, 3);
    assert_eq!(store.cells[kept].items.len(), 1, "and what is held stays");
    assert!(alive(&store, inner));
}

/// As many objects are freed as cannot be reached, and the totals of several
/// collections add up.
#[test]
fn totals_add_up() {
    let mut roots = Roots::new();
    let mut store = Store::new();
    let mut heap = Heap::new();
    let kept = heap.allocate(&mut store, vec![(0, Item::Leaf)]);
    root(&mut store, &mut roots, Item::Handle(kept));
    let mut freed = 0;
    let mut paused = 0;
    for round in 1..4 {
        for _ in 0..round {
            let object = heap.allocate(&mut store, Vec::new());
            push_shared(&mut store, object, object);
            store.release(object);
        }
        let collected = heap.collect(&mut store, &roots);
        assert_eq!(collected.freed_objects, round, "every one of the cycles of this round");
        assert_eq!(collected.live_objects, 1);
        freed += collected.freed_objects;
        paused += collected.pause;
    }
    let stats = heap.stats();
    assert_eq!(stats.collections, 3);
    assert_eq!(stats.freed_objects, freed);
    assert_eq!(stats.pause, paused);
    assert_eq!(stats.live_objects, 1);
    assert_eq!(stats.peak_bytes, stats.live_bytes);
}

/// A collection is due after the least number of allocations there is between
/// two, and not before.
#[test]
fn a_collection_is_due_after_so_many_allocations() {
    let mut store = Store::new();
    let mut heap = Heap::new();
    for count in 0..MIN_ALLOCATIONS_BETWEEN_COLLECTIONS {
        assert!(!heap.should_collect(), "{count} allocations are too few");
        heap.allocate(&mut store, Vec::new());
    }
    assert!(heap.should_collect());
}

/// What an array holds is counted once, though two bindings hold the array: the
/// handle the array has to the vector is the one handle there is to it, so a
/// second one, held where nothing looks, keeps the vector.
#[test]
fn what_is_shared_is_counted_once() {
    let mut roots = Roots::new();
    let mut store = Store::new();
    let mut heap = Heap::new();
    let inner = heap.allocate(&mut store, vec![(0, Item::Handle(0))]);
    store.share(inner);
    let array = array_of(&mut store, Item::Handle(inner));
    let first = root(&mut store, &mut roots, Item::Handle(array));
    store.share(array);
    let second = root(&mut store, &mut roots, Item::Handle(array));
    let collected = heap.collect(&mut store, &roots);
    assert_eq!((collected.live_objects, collected.freed_objects), (1, 0));

    store.share(inner);
    for slot in [first, second] {
        store.slots[slot].item = Item::Leaf;
        store.release(array);
    }
    assert!(!alive(&store, array));
    let collected = heap.collect(&mut store, &roots);
    assert_eq!((collected.live_objects, collected.freed_objects), (1, 0), "a handle is not seen");
    store.release(inner);
    let collected = heap.collect(&mut store, &roots);
    assert_eq!((collected.live_objects, collected.freed_objects), (0, 1), "only its own is left");
}
