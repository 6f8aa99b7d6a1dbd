//! The collector for what counted references cannot free.
//!
//! Every shared allocation counts the handles to it and goes when the last of
//! them does. Vectors alone can be made to hold themselves, so a heap tracks
//! vectors, and a collection finds those that nothing outside a cycle holds.
//!
//! The bindings a task has are registered as roots. A handle held anywhere
//! else, such as a value being evaluated, is found by counting: an allocation
//! with more handles to it than the collector can see has one it cannot see,
//! and is a root too.
use crate::budget::tally;
use vstd::prelude::*;

verus! {

/// The fewest objects a task may allocate between two collections.
pub const MIN_ALLOCATIONS_BETWEEN_COLLECTIONS: u64 = 64;

/// How much the object count may grow past the live set before the next
/// collection.
pub const GROWTH_FACTOR: u64 = 2;

/// The bytes one value takes where it stands.
pub const VALUE_BYTES: u64 = 16;

/// The bytes a vector takes beside its elements.
pub const VECTOR_BYTES: u64 = 32;

/// The bytes a struct takes beside its fields.
pub const STRUCT_BYTES: u64 = 48;

/// The bytes an enum case takes beside its payload.
pub const ENUM_BYTES: u64 = 56;

/// The bytes a closure takes beside what it captured.
pub const CLOSURE_BYTES: u64 = 64;

/// The bytes a trait object takes beside its value.
pub const DYN_BYTES: u64 = 40;

/// The bytes a task takes.
pub const TASK_BYTES: u64 = 96;

/// The bytes a task scope takes.
pub const SCOPE_BYTES: u64 = 32;

/// The bytes a key takes beside what it holds.
pub const KEY_BYTES: u64 = 32;

/// A value as the collector reads it.
#[derive(Debug)]
pub enum Item {
    /// Nothing to follow: a number, a flag, a cell shared between tasks.
    Leaf,
    /// A handle to a shared allocation.
    Handle(usize),
    /// A struct: the bytes of each field's name, and the field.
    Struct(Vec<(u64, Item)>),
    /// An enum case's payload.
    Enum(Vec<Item>),
}

/// What a shared allocation is.
#[derive(Clone, Copy, Debug, PartialEq, Eq, Structural)]
pub enum Kind {
    Vector,
    /// A text of so many bytes.
    Text(u64),
    Array,
    /// A map, each entry beside the bytes of its key.
    Table,
    /// A set, each entry the bytes of its key.
    Keys,
    Closure,
    Dyn,
    Task,
    Scope,
}

/// A shared allocation: what it is, how many handles to it there are, whether
/// it can be read now, and what it holds. Beside each item stand the bytes of
/// its name or key.
#[derive(Debug)]
pub struct Allocation {
    pub kind: Kind,
    pub strong: usize,
    pub readable: bool,
    pub items: Vec<(u64, Item)>,
}

/// One binding's storage.
#[derive(Debug)]
pub struct Slot {
    pub readable: bool,
    pub item: Item,
}

/// Every shared allocation and every binding of a task, by number.
#[derive(Debug)]
pub struct Store {
    pub cells: Vec<Allocation>,
    pub slots: Vec<Slot>,
}

/// What one collection did.
#[derive(Clone, Copy, Debug, PartialEq, Eq, Structural)]
pub struct Collection {
    /// Objects allocated since the previous collection.
    pub allocated: u64,
    /// Objects the sweep reclaimed.
    pub freed_objects: u64,
    /// Bytes held by what the sweep reclaimed, each shared allocation counted
    /// once and no edge followed into an object that survived.
    pub freed_bytes: u64,
    /// Objects still live after the sweep.
    pub live_objects: u64,
    /// Bytes the live set holds.
    pub live_bytes: u64,
    /// How long the program was stopped, in nanoseconds.
    pub pause: u64,
}

/// What a run's heaps did in total.
#[derive(Clone, Copy, Debug, PartialEq, Eq, Structural)]
pub struct HeapStats {
    /// Collectable objects allocated over the whole run.
    pub allocated_objects: u64,
    /// Bytes those allocations asked for, at the size each was born.
    pub allocated_bytes: u64,
    /// How many collections ran.
    pub collections: u64,
    /// Objects those collections reclaimed.
    pub freed_objects: u64,
    /// Bytes live at the most recent collection.
    pub live_bytes: u64,
    /// Objects live at the most recent collection.
    pub live_objects: u64,
    /// The largest live set any collection measured.
    pub peak_bytes: u64,
    /// How long the program was stopped for collections, in nanoseconds.
    pub pause: u64,
}

impl HeapStats {
    /// A heap that has done nothing.
    pub open spec fn none() -> HeapStats {
        HeapStats {
            allocated_objects: 0,
            allocated_bytes: 0,
            collections: 0,
            freed_objects: 0,
            live_bytes: 0,
            live_objects: 0,
            peak_bytes: 0,
            pause: 0,
        }
    }

    /// A heap that has done nothing.
    pub fn empty() -> (stats: HeapStats)
        ensures
            stats == HeapStats::none(),
    {
        HeapStats {
            allocated_objects: 0,
            allocated_bytes: 0,
            collections: 0,
            freed_objects: 0,
            live_bytes: 0,
            live_objects: 0,
            peak_bytes: 0,
            pause: 0,
        }
    }

    /// These totals with another heap's folded in. What is live stays this
    /// heap's own: the other's objects went with its task.
    pub open spec fn merged(self, other: HeapStats) -> HeapStats {
        HeapStats {
            allocated_objects: crate::budget::tallied(
                self.allocated_objects as int,
                other.allocated_objects as int,
            ) as u64,
            allocated_bytes: crate::budget::tallied(
                self.allocated_bytes as int,
                other.allocated_bytes as int,
            ) as u64,
            collections: crate::budget::tallied(
                self.collections as int,
                other.collections as int,
            ) as u64,
            freed_objects: crate::budget::tallied(
                self.freed_objects as int,
                other.freed_objects as int,
            ) as u64,
            peak_bytes: if self.peak_bytes >= other.peak_bytes {
                self.peak_bytes
            } else {
                other.peak_bytes
            },
            pause: crate::budget::tallied(self.pause as int, other.pause as int) as u64,
            ..self
        }
    }

    /// Folds another heap's totals into these, as when its task has ended.
    pub fn merge(&mut self, other: &HeapStats)
        ensures
            *final(self) == old(self).merged(*other),
    {
        self.allocated_objects = tally(self.allocated_objects, other.allocated_objects);
        self.allocated_bytes = tally(self.allocated_bytes, other.allocated_bytes);
        self.collections = tally(self.collections, other.collections);
        self.freed_objects = tally(self.freed_objects, other.freed_objects);
        if self.peak_bytes < other.peak_bytes {
            self.peak_bytes = other.peak_bytes;
        }
        self.pause = tally(self.pause, other.pause);
    }
}

/// Every binding a task currently has, the innermost last, by the number of
/// its slot.
#[derive(Debug)]
pub struct Roots {
    slots: Vec<usize>,
}

impl View for Roots {
    type V = Seq<usize>;

    closed spec fn view(&self) -> Seq<usize> {
        self.slots@
    }
}

impl Roots {
    /// No bindings.
    pub fn new() -> (roots: Roots)
        ensures
            roots@ == Seq::<usize>::empty(),
    {
        Roots { slots: Vec::new() }
    }

    /// How many bindings are registered.
    pub fn len(&self) -> (count: usize)
        ensures
            count == self@.len(),
    {
        self.slots.len()
    }

    /// Whether no binding is registered at all.
    pub fn is_empty(&self) -> (yes: bool)
        ensures
            yes == (self@.len() == 0),
    {
        self.slots.len() == 0
    }

    /// Registers one binding's slot.
    pub fn push(&mut self, slot: usize)
        ensures
            final(self)@ == old(self)@.push(slot),
    {
        self.slots.push(slot);
    }

    /// Drops every slot registered after `len`, as leaving a block does.
    pub fn truncate(&mut self, len: usize)
        ensures
            final(self)@ == (if len <= old(self)@.len() {
                old(self)@.take(len as int)
            } else {
                old(self)@
            }),
    {
        if len <= self.slots.len() {
            self.slots.truncate(len);
        }
    }
}

// ------------------------------------------------------------- handles

/// The handles among some labelled items.
pub open spec fn labelled_handles(items: Seq<(u64, Item)>) -> Seq<usize>
    decreases items,
{
    if items.len() == 0 {
        Seq::empty()
    } else {
        labelled_handles(items.drop_last()) + handles(items[items.len() - 1].1)
    }
}

/// The handles among some items.
pub open spec fn payload_handles(items: Seq<Item>) -> Seq<usize>
    decreases items,
{
    if items.len() == 0 {
        Seq::empty()
    } else {
        payload_handles(items.drop_last()) + handles(items[items.len() - 1])
    }
}

/// The handles a value holds itself, without following any.
pub open spec fn handles(item: Item) -> Seq<usize>
    decreases item,
{
    match item {
        Item::Leaf => Seq::empty(),
        Item::Handle(id) => seq![id],
        Item::Struct(fields) => labelled_handles(fields@),
        Item::Enum(payload) => payload_handles(payload@),
    }
}

/// Adds the handles a value holds.
fn add_handles(item: &Item, list: &mut Vec<usize>)
    ensures
        final(list)@ == old(list)@ + handles(*item),
    decreases item,
{
    match item {
        Item::Leaf => {
            proof {
                assert(list@ =~= old(list)@ + handles(*item));
            }
        },
        Item::Handle(id) => {
            list.push(*id);
            proof {
                assert(list@ =~= old(list)@ + handles(*item));
            }
        },
        Item::Struct(fields) => {
            add_labelled(fields, list);
        },
        Item::Enum(payload) => {
            let mut i: usize = 0;
            proof {
                assert(payload@.take(0) =~= Seq::<Item>::empty());
                assert(list@ =~= old(list)@ + payload_handles(payload@.take(0)));
            }
            while i < payload.len()
                invariant
                    i <= payload@.len(),
                    *item == Item::Enum(*payload),
                    list@ == old(list)@ + payload_handles(payload@.take(i as int)),
                decreases payload@.len() - i,
            {
                proof {
                    assert(item->Enum_0 == *payload);
                    assert(decreases_to!(item => item->Enum_0@[i as int]));
                }
                add_handles(&payload[i], list);
                proof {
                    assert(payload@.take(i + 1).drop_last() =~= payload@.take(i as int));
                    assert(list@ =~= old(list)@ + payload_handles(payload@.take(i + 1)));
                }
                i = i + 1;
            }
            proof {
                assert(payload@.take(i as int) =~= payload@);
            }
        },
    }
}

/// Adds the handles some labelled items hold.
fn add_labelled(items: &Vec<(u64, Item)>, list: &mut Vec<usize>)
    ensures
        final(list)@ == old(list)@ + labelled_handles(items@),
    decreases items,
{
    let mut i: usize = 0;
    proof {
        assert(items@.take(0) =~= Seq::<(u64, Item)>::empty());
        assert(list@ =~= old(list)@ + labelled_handles(items@.take(0)));
    }
    while i < items.len()
        invariant
            i <= items@.len(),
            list@ == old(list)@ + labelled_handles(items@.take(i as int)),
        decreases items@.len() - i,
    {
        proof {
            assert(decreases_to!(items => items@));
            assert(decreases_to!(items@ => items@[i as int]));
            assert(decreases_to!(items@[i as int] => items@[i as int].1));
        }
        add_handles(&items[i].1, list);
        proof {
            assert(items@.take(i + 1).drop_last() =~= items@.take(i as int));
            assert(list@ =~= old(list)@ + labelled_handles(items@.take(i + 1)));
        }
        i = i + 1;
    }
    proof {
        assert(items@.take(i as int) =~= items@);
    }
}

// --------------------------------------------------------------- bytes

/// A count held at the most a counter can show.
pub open spec fn capped(n: nat) -> u64 {
    if n > u64::MAX {
        u64::MAX
    } else {
        n as u64
    }
}

/// The bytes some labelled items take: so many each, the bytes of each label
/// where labels are counted, and what each holds in place.
pub open spec fn labelled_weight(items: Seq<(u64, Item)>, each: nat, labels: bool) -> nat
    decreases items,
{
    if items.len() == 0 {
        0
    } else {
        labelled_weight(items.drop_last(), each, labels) + each + (if labels {
            items[items.len() - 1].0 as nat
        } else {
            0
        }) + weight(items[items.len() - 1].1)
    }
}

/// The bytes a payload takes.
pub open spec fn payload_weight(items: Seq<Item>) -> nat
    decreases items,
{
    if items.len() == 0 {
        0
    } else {
        payload_weight(items.drop_last()) + VALUE_BYTES as nat + weight(items[items.len() - 1])
    }
}

/// The bytes a value holds in place, beyond the value itself.
pub open spec fn weight(item: Item) -> nat
    decreases item,
{
    match item {
        Item::Leaf => 0,
        Item::Handle(_) => 0,
        Item::Struct(fields) => STRUCT_BYTES as nat + labelled_weight(
            fields@,
            VALUE_BYTES as nat,
            true,
        ),
        Item::Enum(payload) => ENUM_BYTES as nat + payload_weight(payload@),
    }
}

/// The bytes a vector takes, at the size it has now.
pub open spec fn vector_weight(cell: Allocation) -> nat {
    VECTOR_BYTES as nat + (if cell.readable {
        cell.items@.len() * VALUE_BYTES as nat
    } else {
        0
    })
}

/// The bytes a shared allocation takes, what can be read of it.
pub open spec fn cell_weight(cell: Allocation) -> nat {
    let held = if cell.readable {
        cell.items@
    } else {
        Seq::empty()
    };
    match cell.kind {
        Kind::Vector => VECTOR_BYTES as nat + labelled_weight(held, VALUE_BYTES as nat, false),
        Kind::Text(length) => length as nat,
        Kind::Array => labelled_weight(held, VALUE_BYTES as nat, false),
        Kind::Table => labelled_weight(held, VALUE_BYTES as nat, true),
        Kind::Keys => labelled_weight(held, 0, true),
        Kind::Closure => CLOSURE_BYTES as nat + labelled_weight(held, VALUE_BYTES as nat, true),
        Kind::Dyn => DYN_BYTES as nat + labelled_weight(held, 0, false),
        Kind::Task => TASK_BYTES as nat + labelled_weight(held, 0, false),
        Kind::Scope => SCOPE_BYTES as nat + labelled_weight(held, 0, false),
    }
}

/// The bytes a value holds in place.
fn weigh(item: &Item) -> (bytes: u64)
    ensures
        bytes == capped(weight(*item)),
    decreases item,
{
    match item {
        Item::Leaf => 0,
        Item::Handle(_) => 0,
        Item::Struct(fields) => tally(STRUCT_BYTES, weigh_labelled(fields, VALUE_BYTES, true)),
        Item::Enum(payload) => {
            let mut bytes: u64 = ENUM_BYTES;
            let mut i: usize = 0;
            proof {
                assert(payload@.take(0) =~= Seq::<Item>::empty());
            }
            while i < payload.len()
                invariant
                    i <= payload@.len(),
                    *item == Item::Enum(*payload),
                    bytes == capped(
                        ENUM_BYTES as nat + payload_weight(payload@.take(i as int)),
                    ),
                decreases payload@.len() - i,
            {
                proof {
                    assert(item->Enum_0 == *payload);
                    assert(decreases_to!(item => item->Enum_0@[i as int]));
                    assert(payload@.take(i + 1).drop_last() =~= payload@.take(i as int));
                }
                bytes = tally(tally(bytes, VALUE_BYTES), weigh(&payload[i]));
                i = i + 1;
            }
            proof {
                assert(payload@.take(i as int) =~= payload@);
            }
            bytes
        },
    }
}

/// The bytes some labelled items take.
fn weigh_labelled(items: &Vec<(u64, Item)>, each: u64, labels: bool) -> (bytes: u64)
    ensures
        bytes == capped(labelled_weight(items@, each as nat, labels)),
    decreases items,
{
    let mut bytes: u64 = 0;
    let mut i: usize = 0;
    proof {
        assert(items@.take(0) =~= Seq::<(u64, Item)>::empty());
    }
    while i < items.len()
        invariant
            i <= items@.len(),
            bytes == capped(labelled_weight(items@.take(i as int), each as nat, labels)),
        decreases items@.len() - i,
    {
        proof {
            assert(decreases_to!(items => items@));
            assert(decreases_to!(items@ => items@[i as int]));
            assert(decreases_to!(items@[i as int] => items@[i as int].1));
            assert(items@.take(i + 1).drop_last() =~= items@.take(i as int));
        }
        let label: u64 = if labels {
            items[i].0
        } else {
            0
        };
        bytes = tally(tally(tally(bytes, each), label), weigh(&items[i].1));
        i = i + 1;
    }
    proof {
        assert(items@.take(i as int) =~= items@);
    }
    bytes
}

/// The bytes a shared allocation takes, what can be read of it.
fn weigh_cell(cell: &Allocation) -> (bytes: u64)
    ensures
        bytes == capped(cell_weight(*cell)),
{
    let none: Vec<(u64, Item)> = Vec::new();
    proof {
        assert(none@ =~= Seq::<(u64, Item)>::empty());
    }
    let held: &Vec<(u64, Item)> = if cell.readable {
        &cell.items
    } else {
        &none
    };
    match cell.kind {
        Kind::Vector => tally(VECTOR_BYTES, weigh_labelled(held, VALUE_BYTES, false)),
        Kind::Text(length) => length,
        Kind::Array => weigh_labelled(held, VALUE_BYTES, false),
        Kind::Table => weigh_labelled(held, VALUE_BYTES, true),
        Kind::Keys => weigh_labelled(held, 0, true),
        Kind::Closure => tally(CLOSURE_BYTES, weigh_labelled(held, VALUE_BYTES, true)),
        Kind::Dyn => tally(DYN_BYTES, weigh_labelled(held, 0, false)),
        Kind::Task => tally(TASK_BYTES, weigh_labelled(held, 0, false)),
        Kind::Scope => tally(SCOPE_BYTES, weigh_labelled(held, 0, false)),
    }
}

/// The bytes a vector takes, at the size it has now.
fn object_bytes(cell: &Allocation) -> (bytes: u64)
    ensures
        bytes == capped(vector_weight(*cell)),
{
    let count: u64 = if cell.readable {
        cell.items.len() as u64
    } else {
        0
    };
    if count <= (u64::MAX - VECTOR_BYTES) / VALUE_BYTES {
        VECTOR_BYTES + count * VALUE_BYTES
    } else {
        u64::MAX
    }
}

/// A key of a map or a set.
#[derive(Debug)]
pub enum MapKey {
    /// A number, a flag or the unit.
    Plain,
    /// A text of so many bytes.
    Str(u64),
    /// An enum case: the bytes of its type's and its own name, and its payload.
    EnumCase(u64, u64, Vec<MapKey>),
    /// A struct: the bytes of its type's name, and each field beside the bytes
    /// of the field's name.
    Struct(u64, Vec<(u64, MapKey)>),
    Array(Vec<MapKey>),
    Keys(Vec<MapKey>),
    Table(Vec<(MapKey, MapKey)>),
}

/// The bytes some keys take.
pub open spec fn keys_weight(keys: Seq<MapKey>) -> nat
    decreases keys,
{
    if keys.len() == 0 {
        0
    } else {
        keys_weight(keys.drop_last()) + key_weight(keys[keys.len() - 1])
    }
}

/// The bytes some named keys take.
pub open spec fn fields_weight(fields: Seq<(u64, MapKey)>) -> nat
    decreases fields,
{
    if fields.len() == 0 {
        0
    } else {
        fields_weight(fields.drop_last()) + fields[fields.len() - 1].0 as nat + key_weight(
            fields[fields.len() - 1].1,
        )
    }
}

/// The bytes some pairs of keys take.
pub open spec fn pairs_weight(pairs: Seq<(MapKey, MapKey)>) -> nat
    decreases pairs,
{
    if pairs.len() == 0 {
        0
    } else {
        pairs_weight(pairs.drop_last()) + key_weight(pairs[pairs.len() - 1].0) + key_weight(
            pairs[pairs.len() - 1].1,
        )
    }
}

/// The bytes a key takes, with all it holds.
pub open spec fn key_weight(key: MapKey) -> nat
    decreases key,
{
    KEY_BYTES as nat + (match key {
        MapKey::Plain => 0,
        MapKey::Str(length) => length as nat,
        MapKey::EnumCase(ty, case, payload) => ty as nat + case as nat + keys_weight(payload@),
        MapKey::Struct(ty, fields) => ty as nat + fields_weight(fields@),
        MapKey::Array(items) => keys_weight(items@),
        MapKey::Keys(items) => keys_weight(items@),
        MapKey::Table(pairs) => pairs_weight(pairs@),
    })
}

/// The bytes some keys take.
fn keys_bytes(keys: &Vec<MapKey>) -> (bytes: u64)
    ensures
        bytes == capped(keys_weight(keys@)),
    decreases keys,
{
    let mut bytes: u64 = 0;
    let mut i: usize = 0;
    proof {
        assert(keys@.take(0) =~= Seq::<MapKey>::empty());
    }
    while i < keys.len()
        invariant
            i <= keys@.len(),
            bytes == capped(keys_weight(keys@.take(i as int))),
        decreases keys@.len() - i,
    {
        proof {
            assert(decreases_to!(keys => keys@));
            assert(decreases_to!(keys@ => keys@[i as int]));
            assert(keys@.take(i + 1).drop_last() =~= keys@.take(i as int));
        }
        bytes = tally(bytes, key_bytes(&keys[i]));
        i = i + 1;
    }
    proof {
        assert(keys@.take(i as int) =~= keys@);
    }
    bytes
}

/// The bytes a key takes, with all it holds.
pub fn key_bytes(key: &MapKey) -> (bytes: u64)
    ensures
        bytes == capped(key_weight(*key)),
    decreases key,
{
    match key {
        MapKey::Plain => KEY_BYTES,
        MapKey::Str(length) => tally(KEY_BYTES, *length),
        MapKey::EnumCase(ty, case, payload) => tally(
            tally(tally(KEY_BYTES, *ty), *case),
            keys_bytes(payload),
        ),
        MapKey::Struct(ty, fields) => {
            let mut bytes: u64 = tally(KEY_BYTES, *ty);
            let mut i: usize = 0;
            proof {
                assert(fields@.take(0) =~= Seq::<(u64, MapKey)>::empty());
            }
            while i < fields.len()
                invariant
                    i <= fields@.len(),
                    *key == MapKey::Struct(*ty, *fields),
                    bytes == capped(
                        KEY_BYTES as nat + *ty as nat + fields_weight(fields@.take(i as int)),
                    ),
                decreases fields@.len() - i,
            {
                proof {
                    assert(key->Struct_1 == *fields);
                    assert(decreases_to!(key => key->Struct_1@));
                    assert(decreases_to!(fields@ => fields@[i as int]));
                    assert(decreases_to!(fields@[i as int] => fields@[i as int].1));
                    assert(fields@.take(i + 1).drop_last() =~= fields@.take(i as int));
                }
                bytes = tally(tally(bytes, fields[i].0), key_bytes(&fields[i].1));
                i = i + 1;
            }
            proof {
                assert(fields@.take(i as int) =~= fields@);
            }
            bytes
        },
        MapKey::Array(items) => tally(KEY_BYTES, keys_bytes(items)),
        MapKey::Keys(items) => tally(KEY_BYTES, keys_bytes(items)),
        MapKey::Table(pairs) => {
            let mut bytes: u64 = KEY_BYTES;
            let mut i: usize = 0;
            proof {
                assert(pairs@.take(0) =~= Seq::<(MapKey, MapKey)>::empty());
            }
            while i < pairs.len()
                invariant
                    i <= pairs@.len(),
                    *key == MapKey::Table(*pairs),
                    bytes == capped(KEY_BYTES as nat + pairs_weight(pairs@.take(i as int))),
                decreases pairs@.len() - i,
            {
                proof {
                    assert(key->Table_0 == *pairs);
                    assert(decreases_to!(key => key->Table_0@));
                    assert(decreases_to!(pairs@ => pairs@[i as int]));
                    assert(decreases_to!(pairs@[i as int] => pairs@[i as int].0));
                    assert(decreases_to!(pairs@[i as int] => pairs@[i as int].1));
                    assert(pairs@.take(i + 1).drop_last() =~= pairs@.take(i as int));
                }
                bytes = tally(tally(bytes, key_bytes(&pairs[i].0)), key_bytes(&pairs[i].1));
                i = i + 1;
            }
            proof {
                assert(pairs@.take(i as int) =~= pairs@);
            }
            bytes
        },
    }
}

// ------------------------------------------------------------- marking

/// A walk goes into this allocation. A vector is gone into only where the heap
/// manages it and it is not left out.
pub open spec fn followed(store: Store, managed: Seq<bool>, left_out: Seq<bool>, at: int) -> bool {
    0 <= at < store.cells@.len() && (store.cells@[at].kind is Vector ==> managed[at]
        && !left_out[at])
}

/// The handles that can be read out of an allocation.
pub open spec fn readable_handles(store: Store, at: int) -> Seq<usize> {
    if 0 <= at < store.cells@.len() && store.cells@[at].readable {
        labelled_handles(store.cells@[at].items@)
    } else {
        Seq::empty()
    }
}

/// A walk from allocation to allocation.
pub open spec fn walk(
    store: Store,
    managed: Seq<bool>,
    left_out: Seq<bool>,
    path: Seq<int>,
) -> bool {
    &&& path.len() > 0
    &&& forall|i: int| 0 <= i < path.len() ==> followed(store, managed, left_out, #[trigger] path[i])
    &&& forall|i: int|
        0 <= i < path.len() - 1 ==> readable_handles(store, #[trigger] path[i]).contains(
            path[i + 1] as usize,
        )
}

/// A walk from one of some handles comes to this allocation.
pub open spec fn traced(
    store: Store,
    managed: Seq<bool>,
    left_out: Seq<bool>,
    starts: Set<usize>,
    at: int,
) -> bool {
    exists|path: Seq<int>| #[trigger]
        walk(store, managed, left_out, path) && starts.contains(path[0] as usize) && path.last()
            == at
}

/// The bytes of the allocations that are marked, among the first `count`.
pub open spec fn marked_weight(store: Store, marked: Seq<bool>, count: int) -> nat
    decreases count,
{
    if count <= 0 {
        0
    } else {
        marked_weight(store, marked, count - 1) + (if marked[count - 1] {
            cell_weight(store.cells@[count - 1])
        } else {
            0
        })
    }
}

proof fn lemma_weight_of_one_more(store: Store, marked: Seq<bool>, at: int, count: int)
    requires
        0 <= at < marked.len(),
        count <= marked.len(),
        !marked[at],
    ensures
        marked_weight(store, marked.update(at, true), count) == marked_weight(store, marked, count)
            + (if at < count {
            cell_weight(store.cells@[at])
        } else {
            0
        }),
    decreases count,
{
    if count > 0 {
        lemma_weight_of_one_more(store, marked, at, count - 1);
    }
}

proof fn lemma_weight_of_none(store: Store, marked: Seq<bool>, count: int)
    requires
        count <= marked.len(),
        forall|i: int| 0 <= i < marked.len() ==> !(#[trigger] marked[i]),
    ensures
        marked_weight(store, marked, count) == 0,
    decreases count,
{
    if count > 0 {
        lemma_weight_of_none(store, marked, count - 1);
    }
}

spec fn unmarked(marked: Seq<bool>) -> nat
    decreases marked.len(),
{
    if marked.len() == 0 {
        0
    } else {
        unmarked(marked.drop_last()) + (if marked.last() {
            0nat
        } else {
            1
        })
    }
}

proof fn lemma_mark_one(marked: Seq<bool>, at: int)
    requires
        0 <= at < marked.len(),
        !marked[at],
    ensures
        unmarked(marked.update(at, true)) == unmarked(marked) - 1,
    decreases marked.len(),
{
    let next = marked.update(at, true);
    if at == marked.len() - 1 {
        assert(next.drop_last() =~= marked.drop_last());
    } else {
        assert(next.drop_last() =~= marked.drop_last().update(at, true));
        assert(next.last() == marked.last());
        lemma_mark_one(marked.drop_last(), at);
    }
}

proof fn lemma_walk_goes_on(
    store: Store,
    managed: Seq<bool>,
    left_out: Seq<bool>,
    starts: Set<usize>,
    from: int,
    to: int,
)
    requires
        traced(store, managed, left_out, starts, from),
        followed(store, managed, left_out, to),
        readable_handles(store, from).contains(to as usize),
    ensures
        traced(store, managed, left_out, starts, to),
{
    let path = choose|path: Seq<int>| #[trigger]
        walk(store, managed, left_out, path) && starts.contains(path[0] as usize) && path.last()
            == from;
    let longer = path.push(to);
    assert forall|i: int| 0 <= i < longer.len() implies followed(
        store,
        managed,
        left_out,
        #[trigger] longer[i],
    ) by {
        if i < path.len() {
            assert(longer[i] == path[i]);
        }
    }
    assert forall|i: int| 0 <= i < longer.len() - 1 implies readable_handles(
        store,
        #[trigger] longer[i],
    ).contains(longer[i + 1] as usize) by {
        assert(longer[i] == path[i]);
        if i < path.len() - 1 {
            assert(longer[i + 1] == path[i + 1]);
        }
    }
    assert(walk(store, managed, left_out, longer));
    assert(longer[0] == path[0]);
}

/// Marks that hold the starts, and hold what they lead to, hold all that is
/// traced.
proof fn lemma_trace_is_held(
    store: Store,
    managed: Seq<bool>,
    left_out: Seq<bool>,
    starts: Set<usize>,
    marked: Seq<bool>,
    path: Seq<int>,
)
    requires
        marked.len() == store.cells@.len(),
        store.cells@.len() <= usize::MAX,
        walk(store, managed, left_out, path),
        starts.contains(path[0] as usize),
        forall|s: int|
            #![trigger followed(store, managed, left_out, s)]
            followed(store, managed, left_out, s) && starts.contains(s as usize) ==> marked[s],
        forall|a: int, b: int|
            #![trigger marked[a], followed(store, managed, left_out, b)]
            0 <= a < marked.len() && marked[a] && followed(store, managed, left_out, b)
                && readable_handles(store, a).contains(b as usize) ==> marked[b],
    ensures
        marked[path.last()],
    decreases path.len(),
{
    assert(followed(store, managed, left_out, path[0]));
    if path.len() > 1 {
        let shorter = path.drop_last();
        assert forall|i: int| 0 <= i < shorter.len() implies followed(
            store,
            managed,
            left_out,
            #[trigger] shorter[i],
        ) by {
            assert(shorter[i] == path[i]);
        }
        assert forall|i: int| 0 <= i < shorter.len() - 1 implies readable_handles(
            store,
            #[trigger] shorter[i],
        ).contains(shorter[i + 1] as usize) by {
            assert(shorter[i] == path[i] && shorter[i + 1] == path[i + 1]);
        }
        lemma_trace_is_held(store, managed, left_out, starts, marked, shorter);
        assert(path[path.len() - 2] == shorter.last());
        assert(followed(store, managed, left_out, path[path.len() - 1]));
        assert(marked[shorter.last()]);
    }
}

/// A trace in progress.
spec fn tracing(
    store: Store,
    managed: Seq<bool>,
    left_out: Seq<bool>,
    starts: Set<usize>,
    marked: Seq<bool>,
    work: Seq<usize>,
    busy: int,
) -> bool {
    &&& marked.len() == store.cells@.len()
    &&& forall|i: int|
        0 <= i < marked.len() && #[trigger] marked[i] ==> traced(
            store,
            managed,
            left_out,
            starts,
            i,
        ) && followed(store, managed, left_out, i)
    &&& forall|k: int|
        0 <= k < work.len() ==> (#[trigger] work[k]) < marked.len() && marked[work[k] as int]
    &&& forall|a: int, b: int|
        #![trigger marked[a], followed(store, managed, left_out, b)]
        0 <= a < marked.len() && a != busy && marked[a] && !work.contains(a as usize) && followed(
            store,
            managed,
            left_out,
            b,
        ) && readable_handles(store, a).contains(b as usize) ==> marked[b]
}

/// The marker: what has been walked, what is still to be, and the bytes of it.
struct Marker {
    marked: Vec<bool>,
    work: Vec<usize>,
    bytes: u64,
}

impl Marker {
    spec fn counts(self, store: Store) -> bool {
        self.bytes == capped(
            marked_weight(store, self.marked@, self.marked@.len() as int),
        )
    }

    /// Goes into the allocation a handle names, if a walk goes there and has
    /// not been.
    fn visit(
        &mut self,
        store: &Store,
        managed: &Vec<bool>,
        left_out: &Vec<bool>,
        at: usize,
        Ghost(starts): Ghost<Set<usize>>,
        Ghost(busy): Ghost<int>,
    )
        requires
            managed@.len() == store.cells@.len(),
            left_out@.len() == store.cells@.len(),
            tracing(
                *store,
                managed@,
                left_out@,
                starts,
                old(self).marked@,
                old(self).work@,
                busy,
            ),
            old(self).counts(*store),
            followed(*store, managed@, left_out@, at as int) ==> traced(
                *store,
                managed@,
                left_out@,
                starts,
                at as int,
            ),
        ensures
            tracing(
                *store,
                managed@,
                left_out@,
                starts,
                final(self).marked@,
                final(self).work@,
                busy,
            ),
            final(self).counts(*store),
            followed(*store, managed@, left_out@, at as int) ==> final(self).marked@[at as int],
            !followed(*store, managed@, left_out@, at as int) || old(self).marked@[at as int]
                ==> *final(self) == *old(self),
            forall|j: int|
                0 <= j < old(self).marked@.len() && #[trigger] old(self).marked@[j]
                    ==> final(self).marked@[j],
            unmarked(final(self).marked@) + final(self).work@.len() == unmarked(old(self).marked@)
                + old(self).work@.len(),
    {
        if at >= store.cells.len() {
            return;
        }
        let vector: bool = match store.cells[at].kind {
            Kind::Vector => true,
            _ => false,
        };
        if vector && (!managed[at] || left_out[at]) {
            return;
        }
        if self.marked[at] {
            return;
        }
        let ghost before = self.marked@;
        let ghost asked = self.work@;
        proof {
            lemma_mark_one(before, at as int);
            lemma_weight_of_one_more(*store, before, at as int, before.len() as int);
        }
        self.marked.set(at, true);
        self.work.push(at);
        self.bytes = tally(self.bytes, weigh_cell(&store.cells[at]));
        proof {
            assert(self.work@[asked.len() as int] == at);
            assert forall|k: int| 0 <= k < self.work@.len() implies (#[trigger] self.work@[k])
                < self.marked@.len() && self.marked@[self.work@[k] as int] by {
                if k < asked.len() {
                    assert(self.work@[k] == asked[k]);
                }
            }
            assert forall|i: int|
                0 <= i < self.marked@.len() && #[trigger] self.marked@[i] implies traced(
                *store,
                managed@,
                left_out@,
                starts,
                i,
            ) && followed(*store, managed@, left_out@, i) by {
                if i != at {
                    assert(before[i]);
                }
            }
            assert forall|a: int, b: int|
                #![trigger self.marked@[a], followed(*store, managed@, left_out@, b)]
                0 <= a < self.marked@.len() && a != busy && self.marked@[a]
                    && !self.work@.contains(a as usize) && followed(
                    *store,
                    managed@,
                    left_out@,
                    b,
                ) && readable_handles(*store, a).contains(b as usize) implies self.marked@[b] by {
                if a == at {
                    assert(self.work@[asked.len() as int] == a as usize);
                } else {
                    assert(before[a]);
                    if asked.contains(a as usize) {
                        let k = choose|k: int| 0 <= k < asked.len() && asked[k] == a as usize;
                        assert(self.work@[k] == a as usize);
                    }
                    assert(before[b]);
                }
            }
        }
    }

    /// Goes into everything that waits, and all it leads to.
    fn drain(
        &mut self,
        store: &Store,
        managed: &Vec<bool>,
        left_out: &Vec<bool>,
        Ghost(starts): Ghost<Set<usize>>,
    )
        requires
            managed@.len() == store.cells@.len(),
            left_out@.len() == store.cells@.len(),
            tracing(
                *store,
                managed@,
                left_out@,
                starts,
                old(self).marked@,
                old(self).work@,
                -1,
            ),
            old(self).counts(*store),
        ensures
            tracing(
                *store,
                managed@,
                left_out@,
                starts,
                final(self).marked@,
                Seq::empty(),
                -1,
            ),
            final(self).counts(*store),
            forall|j: int|
                0 <= j < old(self).marked@.len() && #[trigger] old(self).marked@[j]
                    ==> final(self).marked@[j],
    {
        while self.work.len() > 0
            invariant
                managed@.len() == store.cells@.len(),
                left_out@.len() == store.cells@.len(),
                tracing(*store, managed@, left_out@, starts, self.marked@, self.work@, -1),
                self.counts(*store),
                old(self).marked@.len() == self.marked@.len(),
                forall|j: int|
                    0 <= j < old(self).marked@.len() && #[trigger] old(self).marked@[j]
                        ==> self.marked@[j],
            decreases unmarked(self.marked@) + self.work@.len(), self.work@.len(),
        {
            let last: usize = self.work.len() - 1;
            let at: usize = self.work[last];
            let ghost before = self.work@;
            let ghost were = self.marked@;
            let count: usize = self.marked.len();
            self.work.truncate(last);
            proof {
                assert(self.marked@.len() == count);
                assert(before[last as int] == at);
                assert forall|k: int| 0 <= k < self.work@.len() implies (#[trigger] self.work@[k])
                    < self.marked@.len() && self.marked@[self.work@[k] as int] by {
                    assert(self.work@[k] == before[k]);
                }
                assert forall|a: int, b: int|
                    #![trigger self.marked@[a], followed(*store, managed@, left_out@, b)]
                    0 <= a < self.marked@.len() && a != at && self.marked@[a]
                        && !self.work@.contains(a as usize) && followed(
                        *store,
                        managed@,
                        left_out@,
                        b,
                    ) && readable_handles(*store, a).contains(b as usize) implies self.marked@[b] by {
                    if before.contains(a as usize) {
                        let k = choose|k: int| 0 <= k < before.len() && before[k] == a as usize;
                        assert(self.work@[k] == a as usize);
                    }
                }
                assert(tracing(
                    *store,
                    managed@,
                    left_out@,
                    starts,
                    self.marked@,
                    self.work@,
                    at as int,
                ));
            }
            let mut list: Vec<usize> = Vec::new();
            if store.cells[at].readable {
                add_labelled(&store.cells[at].items, &mut list);
            }
            proof {
                assert(list@ =~= readable_handles(*store, at as int));
            }
            let mut i: usize = 0;
            while i < list.len()
                invariant
                    managed@.len() == store.cells@.len(),
                    left_out@.len() == store.cells@.len(),
                    at < store.cells@.len(),
                    list@ == readable_handles(*store, at as int),
                    i <= list@.len(),
                    tracing(
                        *store,
                        managed@,
                        left_out@,
                        starts,
                        self.marked@,
                        self.work@,
                        at as int,
                    ),
                    self.counts(*store),
                    self.marked@[at as int],
                    were.len() == self.marked@.len(),
                    forall|j: int| 0 <= j < were.len() && #[trigger] were[j] ==> self.marked@[j],
                    forall|k: int|
                        0 <= k < i && followed(
                            *store,
                            managed@,
                            left_out@,
                            #[trigger] list@[k] as int,
                        ) ==> self.marked@[list@[k] as int],
                    unmarked(self.marked@) + self.work@.len() < unmarked(were) + before.len(),
                decreases list@.len() - i,
            {
                let to: usize = list[i];
                let ghost middle = self.marked@;
                proof {
                    assert(list@.contains(to));
                    if followed(*store, managed@, left_out@, to as int) {
                        lemma_walk_goes_on(
                            *store,
                            managed@,
                            left_out@,
                            starts,
                            at as int,
                            to as int,
                        );
                    }
                }
                self.visit(store, managed, left_out, to, Ghost(starts), Ghost(at as int));
                proof {
                    assert forall|j: int|
                        0 <= j < were.len() && #[trigger] were[j] implies self.marked@[j] by {
                        assert(middle[j]);
                    }
                    assert forall|k: int|
                        0 <= k < i + 1 && followed(
                            *store,
                            managed@,
                            left_out@,
                            #[trigger] list@[k] as int,
                        ) implies self.marked@[list@[k] as int] by {
                        if k < i {
                            assert(middle[list@[k] as int]);
                        }
                    }
                }
                i = i + 1;
            }
            proof {
                assert forall|a: int, b: int|
                    #![trigger self.marked@[a], followed(*store, managed@, left_out@, b)]
                    0 <= a < self.marked@.len() && a != -1 && self.marked@[a]
                        && !self.work@.contains(a as usize) && followed(
                        *store,
                        managed@,
                        left_out@,
                        b,
                    ) && readable_handles(*store, a).contains(b as usize) implies self.marked@[b] by {
                    if a == at {
                        let k = choose|k: int| 0 <= k < list@.len() && list@[k] == b as usize;
                        assert(followed(*store, managed@, left_out@, list@[k] as int));
                    }
                }
            }
        }
        proof {
            assert(self.work@ =~= Seq::<usize>::empty());
        }
    }
}

/// Everything a walk from some handles comes to, and the bytes of it.
fn trace(store: &Store, managed: &Vec<bool>, left_out: &Vec<bool>, starts: &Vec<usize>) -> (result:
    (Vec<bool>, u64))
    requires
        managed@.len() == store.cells@.len(),
        left_out@.len() == store.cells@.len(),
    ensures
        result.0@.len() == store.cells@.len(),
        forall|at: int|
            0 <= at < store.cells@.len() ==> (#[trigger] result.0@[at] <==> traced(
                *store,
                managed@,
                left_out@,
                starts@.to_set(),
                at,
            )),
        result.1 == capped(marked_weight(*store, result.0@, result.0@.len() as int)),
{
    let mut marked: Vec<bool> = Vec::new();
    while marked.len() < store.cells.len()
        invariant
            marked@.len() <= store.cells@.len(),
            forall|i: int| 0 <= i < marked@.len() ==> !(#[trigger] marked@[i]),
        decreases store.cells@.len() - marked@.len(),
    {
        marked.push(false);
    }
    proof {
        lemma_weight_of_none(*store, marked@, marked@.len() as int);
    }
    let mut marker = Marker { marked, work: Vec::new(), bytes: 0 };
    let mut i: usize = 0;
    while i < starts.len()
        invariant
            managed@.len() == store.cells@.len(),
            left_out@.len() == store.cells@.len(),
            i <= starts@.len(),
            tracing(*store, managed@, left_out@, starts@.to_set(), marker.marked@, marker.work@, -1),
            marker.counts(*store),
            forall|k: int|
                0 <= k < i && followed(*store, managed@, left_out@, #[trigger] starts@[k] as int)
                    ==> marker.marked@[starts@[k] as int],
        decreases starts@.len() - i,
    {
        let at: usize = starts[i];
        let ghost middle = marker.marked@;
        proof {
            assert(starts@.contains(at));
            if followed(*store, managed@, left_out@, at as int) {
                let path = seq![at as int];
                assert(walk(*store, managed@, left_out@, path));
                assert(path.last() == at);
            }
        }
        marker.visit(store, managed, left_out, at, Ghost(starts@.to_set()), Ghost(-1));
        proof {
            assert forall|k: int|
                0 <= k < i + 1 && followed(
                    *store,
                    managed@,
                    left_out@,
                    #[trigger] starts@[k] as int,
                ) implies marker.marked@[starts@[k] as int] by {
                if k < i {
                    assert(middle[starts@[k] as int]);
                }
            }
        }
        i = i + 1;
    }
    let ghost begun = marker.marked@;
    marker.drain(store, managed, left_out, Ghost(starts@.to_set()));
    let count: usize = store.cells.len();
    proof {
        let done = marker.marked@;
        assert(store.cells@.len() == count);
        assert forall|s: int|
            #![trigger followed(*store, managed@, left_out@, s)]
            followed(*store, managed@, left_out@, s) && starts@.to_set().contains(s as usize) implies done[s] by {
            let k = choose|k: int| 0 <= k < starts@.len() && starts@[k] == s as usize;
            assert(followed(*store, managed@, left_out@, starts@[k] as int));
            assert(begun[starts@[k] as int]);
        }
        assert forall|at: int| 0 <= at < store.cells@.len() implies (#[trigger] done[at]
            <==> traced(*store, managed@, left_out@, starts@.to_set(), at)) by {
            if traced(*store, managed@, left_out@, starts@.to_set(), at) {
                let path = choose|path: Seq<int>| #[trigger]
                    walk(*store, managed@, left_out@, path) && starts@.to_set().contains(
                        path[0] as usize,
                    ) && path.last() == at;
                assert forall|a: int, b: int|
                    #![trigger done[a], followed(*store, managed@, left_out@, b)]
                    0 <= a < done.len() && done[a] && followed(*store, managed@, left_out@, b)
                        && readable_handles(*store, a).contains(b as usize) implies done[b] by {
                    assert(!Seq::<usize>::empty().contains(a as usize));
                }
                lemma_trace_is_held(*store, managed@, left_out@, starts@.to_set(), done, path);
            }
        }
    }
    (marker.marked, marker.bytes)
}

// ------------------------------------------------------------ counting

/// How often a number stands in a list.
pub open spec fn times(list: Seq<usize>, x: usize) -> nat
    decreases list.len(),
{
    if list.len() == 0 {
        0
    } else {
        times(list.drop_last(), x) + (if list.last() == x {
            1nat
        } else {
            0
        })
    }
}

proof fn lemma_times_of_one(list: Seq<usize>, x: usize)
    ensures
        times(list, x) > 0 <==> list.contains(x),
    decreases list.len(),
{
    if list.len() > 0 {
        lemma_times_of_one(list.drop_last(), x);
        if list.contains(x) {
            let k = choose|k: int| 0 <= k < list.len() && list[k] == x;
            if k < list.len() - 1 {
                assert(list.drop_last()[k] == x);
            }
        }
        if list.drop_last().contains(x) {
            let k = choose|k: int|
                0 <= k < list.drop_last().len() && list.drop_last()[k] == x;
            assert(list[k] == x);
        }
        if list.last() == x {
            assert(list[list.len() - 1] == x);
        }
    }
}

/// How often some of several lists hold a number, among the first `count`.
pub open spec fn references(
    lists: Seq<Seq<usize>>,
    chosen: Seq<bool>,
    x: usize,
    count: int,
) -> nat
    decreases count,
{
    if count <= 0 {
        0
    } else {
        references(lists, chosen, x, count - 1) + (if chosen[count - 1] {
            times(lists[count - 1], x)
        } else {
            0
        })
    }
}

proof fn lemma_references_of_one_more(
    lists: Seq<Seq<usize>>,
    chosen: Seq<bool>,
    at: int,
    x: usize,
    count: int,
)
    requires
        0 <= at < chosen.len(),
        count <= chosen.len(),
        !chosen[at],
    ensures
        references(lists, chosen.update(at, true), x, count) == references(
            lists,
            chosen,
            x,
            count,
        ) + (if at < count {
            times(lists[at], x)
        } else {
            0
        }),
    decreases count,
{
    if count > 0 {
        lemma_references_of_one_more(lists, chosen, at, x, count - 1);
    }
}

proof fn lemma_references_of_none(lists: Seq<Seq<usize>>, chosen: Seq<bool>, x: usize, count: int)
    requires
        count <= chosen.len(),
        forall|i: int| 0 <= i < chosen.len() ==> !(#[trigger] chosen[i]),
    ensures
        references(lists, chosen, x, count) == 0,
    decreases count,
{
    if count > 0 {
        lemma_references_of_none(lists, chosen, x, count - 1);
    }
}

proof fn lemma_more_lists_more_references(
    lists: Seq<Seq<usize>>,
    fewer: Seq<bool>,
    more: Seq<bool>,
    x: usize,
    count: int,
)
    requires
        count <= fewer.len(),
        fewer.len() == more.len(),
        forall|i: int| 0 <= i < fewer.len() && #[trigger] fewer[i] ==> more[i],
    ensures
        references(lists, fewer, x, count) <= references(lists, more, x, count),
    decreases count,
{
    if count > 0 {
        lemma_more_lists_more_references(lists, fewer, more, x, count - 1);
    }
}

/// The handles of every allocation.
pub open spec fn all_handles(store: Store) -> Seq<Seq<usize>> {
    Seq::new(store.cells@.len(), |i: int| labelled_handles(store.cells@[i].items@))
}

/// The handles that can be read, of every allocation.
pub open spec fn all_readable_handles(store: Store) -> Seq<Seq<usize>> {
    Seq::new(store.cells@.len(), |i: int| readable_handles(store, i))
}

/// The handles of every binding.
pub open spec fn all_slot_handles(store: Store) -> Seq<Seq<usize>> {
    Seq::new(store.slots@.len(), |i: int| handles(store.slots@[i].item))
}

// ----------------------------------------------------------- releasing

/// Some handles go: an allocation with no handle left goes with them, and its
/// own handles after it.
pub open spec fn goes(before: Store, gone: Seq<bool>, x: int) -> bool {
    before.cells@[x].strong > 0 && references(
        all_handles(before),
        gone,
        x as usize,
        before.cells@.len() as int,
    ) >= before.cells@[x].strong
}

/// These are the allocations that go when some are emptied: the emptied ones,
/// and everything left with no handle.
pub open spec fn all_gone(before: Store, emptied: Seq<bool>, gone: Seq<bool>) -> bool {
    &&& gone.len() == before.cells@.len()
    &&& forall|x: int|
        0 <= x < gone.len() && #[trigger] emptied[x] ==> gone[x]
    &&& forall|x: int| 0 <= x < gone.len() && goes(before, gone, x) ==> #[trigger] gone[x]
}

/// The fewest allocations that go when some are emptied.
pub open spec fn just_gone(before: Store, emptied: Seq<bool>, gone: Seq<bool>) -> bool {
    &&& all_gone(before, emptied, gone)
    &&& forall|other: Seq<bool>, x: int|
        #![trigger all_gone(before, emptied, other), other[x]]
        all_gone(before, emptied, other) && 0 <= x < gone.len() && gone[x] ==> other[x]
}

/// A store after some allocations went.
pub open spec fn without(before: Store, gone: Seq<bool>, after: Store) -> bool {
    &&& after.slots == before.slots
    &&& after.cells@.len() == before.cells@.len()
    &&& forall|x: int|
        #![trigger after.cells@[x]]
        0 <= x < before.cells@.len() ==> {
            let lost = references(
                all_handles(before),
                gone,
                x as usize,
                before.cells@.len() as int,
            );
            &&& after.cells@[x].kind == before.cells@[x].kind
            &&& after.cells@[x].readable == before.cells@[x].readable
            &&& after.cells@[x].strong == (if lost >= before.cells@[x].strong {
                0
            } else {
                before.cells@[x].strong - lost
            })
            &&& gone[x] ==> after.cells@[x].items@ == Seq::<(u64, Item)>::empty()
            &&& !gone[x] ==> after.cells@[x].items == before.cells@[x].items
        }
}

/// A release in progress: what has gone, what of that is still to be emptied,
/// which one is being emptied, and those of its handles already dropped.
spec fn releasing(
    before: Store,
    emptied: Seq<bool>,
    now: Store,
    gone: Seq<bool>,
    done: Seq<bool>,
    work: Seq<usize>,
    busy: int,
    extra: Seq<usize>,
) -> bool {
    let n = before.cells@.len() as int;
    &&& now.slots == before.slots
    &&& now.cells@.len() == n
    &&& gone.len() == n
    &&& done.len() == n
    &&& forall|k: int|
        0 <= k < work.len() ==> (#[trigger] work[k]) < n && gone[work[k] as int]
            && !done[work[k] as int] && work[k] != busy
    &&& forall|i: int, j: int|
        0 <= i < j < work.len() ==> #[trigger] work[i] != #[trigger] work[j]
    &&& forall|x: int|
        0 <= x < n && #[trigger] gone[x] && !done[x] && x != busy ==> work.contains(x as usize)
    &&& forall|x: int| 0 <= x < n && #[trigger] done[x] ==> gone[x]
    &&& forall|x: int| 0 <= x < n && #[trigger] emptied[x] ==> gone[x]
    &&& forall|x: int| #![trigger now.cells@[x]] 0 <= x < n ==> partly(before, now, done, extra, x)
    &&& forall|x: int|
        0 <= x < n && before.cells@[x].strong > 0 && now.cells@[x].strong == 0
            ==> #[trigger] gone[x]
    &&& forall|other: Seq<bool>, x: int|
        #![trigger all_gone(before, emptied, other), gone[x]]
        all_gone(before, emptied, other) && 0 <= x < n && gone[x] ==> other[x]
}

/// An allocation while some are being emptied.
spec fn partly(before: Store, now: Store, done: Seq<bool>, extra: Seq<usize>, x: int) -> bool {
    let lost = references(
        all_handles(before),
        done,
        x as usize,
        before.cells@.len() as int,
    ) + times(extra, x as usize);
    &&& now.cells@[x].kind == before.cells@[x].kind
    &&& now.cells@[x].readable == before.cells@[x].readable
    &&& now.cells@[x].strong == (if lost >= before.cells@[x].strong {
        0
    } else {
        before.cells@[x].strong - lost
    })
    &&& done[x] ==> now.cells@[x].items@ == Seq::<(u64, Item)>::empty()
    &&& !done[x] ==> now.cells@[x].items == before.cells@[x].items
}

proof fn lemma_times_of_prefix(list: Seq<usize>, k: int, x: usize)
    requires
        0 <= k <= list.len(),
    ensures
        times(list.take(k), x) <= times(list, x),
    decreases list.len(),
{
    if k < list.len() {
        lemma_times_of_prefix(list.drop_last(), k, x);
        assert(list.drop_last().take(k) =~= list.take(k));
    } else {
        assert(list.take(k) =~= list);
    }
}

proof fn lemma_goes_in_every(
    before: Store,
    emptied: Seq<bool>,
    now: Store,
    gone: Seq<bool>,
    done: Seq<bool>,
    work: Seq<usize>,
    busy: int,
    k: int,
    other: Seq<bool>,
    x: int,
)
    requires
        0 <= busy < before.cells@.len(),
        0 <= k < all_handles(before)[busy].len(),
        releasing(
            before,
            emptied,
            now,
            gone,
            done,
            work,
            busy,
            all_handles(before)[busy].take(k),
        ),
        !done[busy],
        gone[busy],
        all_gone(before, emptied, other),
        0 <= x < before.cells@.len(),
        before.cells@[x].strong > 0,
        references(
            all_handles(before),
            done,
            x as usize,
            before.cells@.len() as int,
        ) + times(all_handles(before)[busy].take(k + 1), x as usize) >= before.cells@[x].strong,
    ensures
        other[x],
{
    let n = before.cells@.len() as int;
    let lists = all_handles(before);
    let next = done.update(busy, true);
    assert forall|i: int| 0 <= i < next.len() && #[trigger] next[i] implies other[i] by {
        assert(gone[i]);
    }
    lemma_more_lists_more_references(lists, next, other, x as usize, n);
    lemma_references_of_one_more(lists, done, busy, x as usize, n);
    lemma_times_of_prefix(lists[busy], k + 1, x as usize);
    assert(goes(before, other, x));
}

impl Store {
    /// Drops one handle, and puts the allocation up for emptying if that was
    /// the last.
    fn drop_one(
        &mut self,
        at: usize,
        gone: &mut Vec<bool>,
        work: &mut Vec<usize>,
        Ghost(before): Ghost<Store>,
        Ghost(emptied): Ghost<Seq<bool>>,
        Ghost(done): Ghost<Seq<bool>>,
        Ghost(busy): Ghost<int>,
        Ghost(k): Ghost<int>,
    )
        requires
            0 <= busy < before.cells@.len() <= usize::MAX,
            0 <= k < all_handles(before)[busy].len(),
            all_handles(before)[busy][k] == at,
            releasing(
                before,
                emptied,
                *old(self),
                old(gone)@,
                done,
                old(work)@,
                busy,
                all_handles(before)[busy].take(k),
            ),
            !done[busy],
            old(gone)@[busy],
        ensures
            releasing(
                before,
                emptied,
                *final(self),
                final(gone)@,
                done,
                final(work)@,
                busy,
                all_handles(before)[busy].take(k + 1),
            ),
            unmarked(final(gone)@) + final(work)@.len() == unmarked(old(gone)@) + old(work)@.len(),
            final(gone)@[busy],
    {
        let ghost list = all_handles(before)[busy];
        let ghost n = before.cells@.len() as int;
        let ghost were = self.cells@;
        let ghost marks = gone@;
        let ghost asked = work@;
        proof {
            assert(list.take(k + 1).drop_last() =~= list.take(k));
            let sooner = list.take(k);
            let later = list.take(k + 1);
            assert(later.last() == at);
            assert forall|y: usize| #[trigger]
                times(later, y) == times(sooner, y) + (if y == at {
                    1nat
                } else {
                    0
                }) by {}
        }
        if at >= self.cells.len() {
            proof {
                assert forall|x: int| #![trigger self.cells@[x]] 0 <= x < n implies partly(
                    before,
                    *self,
                    done,
                    list.take(k + 1),
                    x,
                ) by {
                    assert(partly(before, *self, done, list.take(k), x));
                }
            }
            return;
        }
        let strong: usize = self.cells[at].strong;
        proof {
            assert(partly(before, *self, done, list.take(k), at as int));
        }
        if strong == 0 {
            proof {
                assert forall|x: int| #![trigger self.cells@[x]] 0 <= x < n implies partly(
                    before,
                    *self,
                    done,
                    list.take(k + 1),
                    x,
                ) by {
                    assert(partly(before, *self, done, list.take(k), x));
                }
            }
            return;
        }
        self.cells[at].strong = strong - 1;
        let ghost fewer = self.cells@;
        proof {
            assert forall|x: int| #![trigger self.cells@[x]] 0 <= x < n implies partly(
                before,
                *self,
                done,
                list.take(k + 1),
                x,
            ) by {
                assert(partly(before, *old(self), done, list.take(k), x));
            }
        }
        if strong == 1 && !gone[at] {
            proof {
                lemma_mark_one(marks, at as int);
            }
            gone.set(at, true);
            work.push(at);
            proof {
                assert(work@[asked.len() as int] == at);
                assert forall|x: int|
                    0 <= x < n && #[trigger] gone@[x] && !done[x] && x
                        != busy implies work@.contains(x as usize) by {
                    if x == at {
                        assert(work@[asked.len() as int] == x as usize);
                    } else {
                        assert(marks[x]);
                        let j = choose|j: int| 0 <= j < asked.len() && asked[j] == x as usize;
                        assert(work@[j] == x as usize);
                    }
                }
                assert forall|j: int| 0 <= j < work@.len() implies (#[trigger] work@[j]) < n
                    && gone@[work@[j] as int] && !done[work@[j] as int] && work@[j] != busy by {
                    if j < asked.len() {
                        assert(work@[j] == asked[j]);
                    }
                }
                assert forall|i: int, j: int|
                    0 <= i < j < work@.len() implies #[trigger] work@[i] != #[trigger] work@[j] by {
                    assert(work@[i] == asked[i]);
                    assert(marks[asked[i] as int]);
                    if j < asked.len() {
                        assert(work@[j] == asked[j]);
                    }
                }
                assert forall|other: Seq<bool>, x: int|
                    #![trigger all_gone(before, emptied, other), gone@[x]]
                    all_gone(before, emptied, other) && 0 <= x < n && gone@[x] implies other[x] by {
                    if x == at {
                        lemma_goes_in_every(
                            before,
                            emptied,
                            *old(self),
                            marks,
                            done,
                            asked,
                            busy,
                            k,
                            other,
                            x,
                        );
                    } else {
                        assert(marks[x]);
                    }
                }
                assert forall|x: int|
                    0 <= x < n && before.cells@[x].strong > 0 && self.cells@[x].strong
                        == 0 implies #[trigger] gone@[x] by {
                    if x != at {
                        assert(self.cells@[x] == were[x]);
                        assert(marks[x]);
                    }
                }
            }
        } else {
            proof {
                assert forall|x: int|
                    0 <= x < n && before.cells@[x].strong > 0 && self.cells@[x].strong
                        == 0 implies #[trigger] gone@[x] by {
                    if x != at {
                        assert(self.cells@[x] == were[x]);
                    }
                }
            }
        }
    }

    /// Empties every allocation that waits for it, and whatever that leaves
    /// without a handle.
    fn settle(
        &mut self,
        gone: &mut Vec<bool>,
        work: &mut Vec<usize>,
        Ghost(before): Ghost<Store>,
        Ghost(emptied): Ghost<Seq<bool>>,
    )
        requires
            *old(self) == before,
            before.cells@.len() <= usize::MAX,
            releasing(
                before,
                emptied,
                before,
                old(gone)@,
                Seq::new(before.cells@.len(), |i: int| false),
                old(work)@,
                -1,
                Seq::empty(),
            ),
        ensures
            just_gone(before, emptied, final(gone)@),
            without(before, final(gone)@, *final(self)),
    {
        let ghost n = before.cells@.len() as int;
        let ghost mut done: Seq<bool> = Seq::new(before.cells@.len(), |i: int| false);
        while work.len() > 0
            invariant
                n == before.cells@.len() <= usize::MAX,
                releasing(before, emptied, *self, gone@, done, work@, -1, Seq::empty()),
            decreases unmarked(gone@) + work@.len(),
        {
            let last: usize = work.len() - 1;
            let at: usize = work[last];
            let ghost asked = work@;
            let ghost marks = gone@;
            work.truncate(last);
            let mut list: Vec<usize> = Vec::new();
            proof {
                assert(self.cells@[at as int].items == before.cells@[at as int].items) by {
                    assert(partly(before, *self, done, Seq::empty(), at as int));
                }
            }
            add_labelled(&self.cells[at].items, &mut list);
            proof {
                assert(list@ =~= all_handles(before)[at as int]);
                assert(list@.take(0) =~= Seq::<usize>::empty());
                assert forall|j: int| 0 <= j < work@.len() implies (#[trigger] work@[j]) < n
                    && gone@[work@[j] as int] && !done[work@[j] as int] && work@[j] != at by {
                    assert(work@[j] == asked[j]);
                    assert(asked[j] != asked[last as int]);
                }
                assert forall|i: int, j: int|
                    0 <= i < j < work@.len() implies #[trigger] work@[i] != #[trigger] work@[j] by {
                    assert(work@[i] == asked[i] && work@[j] == asked[j]);
                }
                assert forall|x: int|
                    0 <= x < n && #[trigger] gone@[x] && !done[x] && x
                        != at implies work@.contains(x as usize) by {
                    let j = choose|j: int| 0 <= j < asked.len() && asked[j] == x as usize;
                    assert(asked[j] != at);
                    assert(work@[j] == x as usize);
                }
                assert(releasing(
                    before,
                    emptied,
                    *self,
                    gone@,
                    done,
                    work@,
                    at as int,
                    list@.take(0),
                ));
            }
            let mut i: usize = 0;
            while i < list.len()
                invariant
                    n == before.cells@.len() <= usize::MAX,
                    at < n,
                    i <= list@.len(),
                    list@ == all_handles(before)[at as int],
                    !done[at as int],
                    gone@[at as int],
                    releasing(
                        before,
                        emptied,
                        *self,
                        gone@,
                        done,
                        work@,
                        at as int,
                        list@.take(i as int),
                    ),
                    unmarked(gone@) + work@.len() < unmarked(marks) + asked.len(),
                decreases list@.len() - i,
            {
                let to: usize = list[i];
                self.drop_one(
                    to,
                    gone,
                    work,
                    Ghost(before),
                    Ghost(emptied),
                    Ghost(done),
                    Ghost(at as int),
                    Ghost(i as int),
                );
                i = i + 1;
            }
            let ghost were = *self;
            let ghost last_done = done;
            self.cells[at].items = Vec::new();
            proof {
                assert(list@.take(i as int) =~= list@);
                done = done.update(at as int, true);
                assert forall|x: int| #![trigger self.cells@[x]] 0 <= x < n implies partly(
                    before,
                    *self,
                    done,
                    Seq::empty(),
                    x,
                ) by {
                    assert(partly(before, were, last_done, list@, x));
                    assert(were.cells@[x].strong == self.cells@[x].strong);
                    lemma_references_of_one_more(
                        all_handles(before),
                        last_done,
                        at as int,
                        x as usize,
                        n,
                    );
                }
                assert forall|x: int|
                    0 <= x < n && before.cells@[x].strong > 0 && self.cells@[x].strong
                        == 0 implies #[trigger] gone@[x] by {
                    assert(were.cells@[x].strong == self.cells@[x].strong);
                }
                assert forall|x: int|
                    0 <= x < n && #[trigger] gone@[x] && !done[x] && x
                        != -1 implies work@.contains(x as usize) by {
                    assert(!last_done[x]);
                }
                assert forall|j: int| 0 <= j < work@.len() implies (#[trigger] work@[j]) < n
                    && gone@[work@[j] as int] && !done[work@[j] as int] && work@[j] != -1 by {
                    assert(work@[j] != at);
                }
                assert forall|x: int| 0 <= x < n && #[trigger] done[x] implies gone@[x] by {
                    if x != at {
                        assert(last_done[x]);
                    }
                }
            }
        }
        proof {
            assert forall|x: int| 0 <= x < n implies done[x] == gone@[x] by {
                if gone@[x] && !done[x] {
                    assert(work@.contains(x as usize));
                }
            }
            assert(done =~= gone@);
            assert forall|x: int| 0 <= x < gone@.len() && goes(
                before,
                gone@,
                x,
            ) implies #[trigger] gone@[x] by {
                assert(partly(before, *self, done, Seq::empty(), x)) by {
                    let _ = self.cells@[x];
                }
            }
            assert forall|x: int| #![trigger self.cells@[x]] 0 <= x < n implies partly(
                before,
                *self,
                gone@,
                Seq::empty(),
                x,
            ) by {}
            assert forall|other: Seq<bool>, x: int|
                #![trigger all_gone(before, emptied, other), other[x]]
                all_gone(before, emptied, other) && 0 <= x < gone@.len() && gone@[x] implies other[x] by {
                assert(gone@[x]);
            }
        }
    }
}

// ---------------------------------------------------------- the live set

/// No allocation at all.
pub open spec fn nothing(store: Store) -> Seq<bool> {
    Seq::new(store.cells@.len(), |i: int| false)
}

/// The bindings a collection can read: those registered and not being written.
pub open spec fn known(store: Store, roots: Seq<usize>) -> Seq<bool> {
    Seq::new(
        store.slots@.len(),
        |i: int| roots.contains(i as usize) && store.slots@[i].readable,
    )
}

/// A binding that can be read holds this handle.
pub open spec fn bound(store: Store, roots: Seq<usize>, handle: usize) -> bool {
    exists|i: int|
        #![trigger store.slots@[i]]
        0 <= i < store.slots@.len() && known(store, roots)[i] && handles(
            store.slots@[i].item,
        ).contains(handle)
}

/// A vector the heap manages, and that can be read, holds this handle.
pub open spec fn kept_by_managed(store: Store, managed: Seq<bool>, handle: usize) -> bool {
    exists|i: int|
        0 <= i < store.cells@.len() && #[trigger] managed[i] && readable_handles(
            store,
            i,
        ).contains(handle)
}

/// Every handle counting starts from.
pub open spec fn sources(store: Store, roots: Seq<usize>, managed: Seq<bool>) -> Set<usize> {
    Set::new(|h: usize| bound(store, roots, h) || kept_by_managed(store, managed, h))
}

/// The allocations whose handles are counted: the vectors the heap manages,
/// and everything else that can be found from them and from the bindings
/// without going through a vector.
pub open spec fn counted(store: Store, roots: Seq<usize>, managed: Seq<bool>) -> Seq<bool> {
    Seq::new(
        store.cells@.len(),
        |i: int|
            if store.cells@[i].kind is Vector {
                managed[i]
            } else {
                traced(
                    store,
                    nothing(store),
                    nothing(store),
                    sources(store, roots, managed),
                    i,
                )
            },
    )
}

/// How many handles to an allocation can be seen.
pub open spec fn sighted(store: Store, roots: Seq<usize>, managed: Seq<bool>, at: usize) -> nat {
    references(
        all_slot_handles(store),
        known(store, roots),
        at,
        store.slots@.len() as int,
    ) + references(
        all_readable_handles(store),
        counted(store, roots, managed),
        at,
        store.cells@.len() as int,
    )
}

/// An allocation with handles that cannot be seen. A text and a set are not
/// counted: nothing can be reached through either.
pub open spec fn short(store: Store, roots: Seq<usize>, managed: Seq<bool>, at: int) -> bool {
    let seen = sighted(store, roots, managed, at as usize);
    &&& store.cells@[at].strong > seen
    &&& managed[at] || (seen > 0 && !(store.cells@[at].kind is Text) && !(
    store.cells@[at].kind is Keys))
}

/// Every handle marking starts from: what the bindings hold, what has handles
/// that cannot be seen, and every managed vector being written.
pub open spec fn starts(store: Store, roots: Seq<usize>, managed: Seq<bool>) -> Set<usize> {
    Set::new(
        |h: usize|
            bound(store, roots, h) || (h < store.cells@.len() && (short(
                store,
                roots,
                managed,
                h as int,
            ) || (managed[h as int] && !store.cells@[h as int].readable))),
    )
}

/// The live set.
pub open spec fn live(store: Store, roots: Seq<usize>, managed: Seq<bool>) -> Seq<bool> {
    Seq::new(
        store.cells@.len(),
        |i: int|
            traced(store, managed, nothing(store), starts(store, roots, managed), i),
    )
}

/// What a collection reclaims: what the heap manages and is not live.
pub open spec fn doomed(store: Store, roots: Seq<usize>, managed: Seq<bool>) -> Seq<bool> {
    Seq::new(
        store.cells@.len(),
        |i: int| managed[i] && !live(store, roots, managed)[i],
    )
}

/// Everything found from what is reclaimed without going into a live vector.
pub open spec fn lost(store: Store, roots: Seq<usize>, managed: Seq<bool>) -> Seq<bool> {
    Seq::new(
        store.cells@.len(),
        |i: int|
            traced(
                store,
                managed,
                live(store, roots, managed),
                Set::new(
                    |h: usize|
                        h < store.cells@.len() && doomed(store, roots, managed)[h as int],
                ),
                i,
            ),
    )
}

/// The bytes the bindings hold in place, among the first `count`.
pub open spec fn bound_weight(store: Store, known: Seq<bool>, count: int) -> nat
    decreases count,
{
    if count <= 0 {
        0
    } else {
        bound_weight(store, known, count - 1) + (if known[count - 1] {
            weight(store.slots@[count - 1].item)
        } else {
            0
        })
    }
}

/// The bytes the live set holds.
pub open spec fn live_weight(store: Store, roots: Seq<usize>, managed: Seq<bool>) -> nat {
    bound_weight(store, known(store, roots), store.slots@.len() as int) + marked_weight(
        store,
        live(store, roots, managed),
        store.cells@.len() as int,
    )
}

/// How many of these hold.
pub open spec fn how_many(flags: Seq<bool>) -> nat
    decreases flags.len(),
{
    if flags.len() == 0 {
        0
    } else {
        how_many(flags.drop_last()) + (if flags.last() {
            1nat
        } else {
            0
        })
    }
}

/// A count held at the most a number of handles can be.
spec fn held(n: nat) -> usize {
    if n > usize::MAX {
        usize::MAX
    } else {
        n as usize
    }
}

/// The handles the collector can see: how many to each allocation.
struct Scan {
    sighted: Vec<usize>,
}

impl Scan {
    /// Counts one more handle.
    fn sight(&mut self, at: usize)
        ensures
            final(self).sighted@.len() == old(self).sighted@.len(),
            forall|z: int|
                #![trigger final(self).sighted@[z]]
                0 <= z < old(self).sighted@.len() ==> final(self).sighted@[z] == held(
                    (old(self).sighted@[z] + if z == at {
                        1int
                    } else {
                        0
                    }) as nat,
                ),
    {
        if at < self.sighted.len() {
            let seen: usize = self.sighted[at];
            if seen < usize::MAX {
                self.sighted.set(at, seen + 1);
            }
        }
    }

    /// Counts every handle of a list.
    fn count(&mut self, list: &Vec<usize>)
        ensures
            final(self).sighted@.len() == old(self).sighted@.len(),
            forall|z: int|
                #![trigger final(self).sighted@[z]]
                0 <= z < old(self).sighted@.len() && z <= usize::MAX ==> final(self).sighted@[z]
                    == held((old(self).sighted@[z] + times(list@, z as usize)) as nat),
    {
        let mut i: usize = 0;
        proof {
            assert(list@.take(0) =~= Seq::<usize>::empty());
        }
        while i < list.len()
            invariant
                i <= list@.len(),
                self.sighted@.len() == old(self).sighted@.len(),
                forall|z: int|
                    #![trigger self.sighted@[z]]
                    0 <= z < old(self).sighted@.len() && z <= usize::MAX ==> self.sighted@[z]
                        == held(
                        (old(self).sighted@[z] + times(list@.take(i as int), z as usize)) as nat,
                    ),
            decreases list@.len() - i,
        {
            let ghost middle = self.sighted@;
            self.sight(list[i]);
            proof {
                assert(list@.take(i + 1).drop_last() =~= list@.take(i as int));
                assert forall|z: int|
                    #![trigger self.sighted@[z]]
                    0 <= z < old(self).sighted@.len() && z <= usize::MAX implies self.sighted@[z]
                    == held(
                    (old(self).sighted@[z] + times(list@.take(i + 1), z as usize)) as nat,
                ) by {
                    assert(middle[z] == held(
                        (old(self).sighted@[z] + times(
                            list@.take(i as int),
                            z as usize,
                        )) as nat,
                    ));
                }
            }
            i = i + 1;
        }
        proof {
            assert(list@.take(i as int) =~= list@);
        }
    }
}

/// The bindings that can be read.
fn known_slots(store: &Store, roots: &Roots) -> (flags: Vec<bool>)
    ensures
        flags@ == known(*store, roots@),
{
    let mut flags: Vec<bool> = Vec::new();
    let mut i: usize = 0;
    while i < store.slots.len()
        invariant
            i <= store.slots@.len(),
            flags@.len() == i,
            forall|s: int| 0 <= s < i ==> !(#[trigger] flags@[s]),
        decreases store.slots@.len() - i,
    {
        flags.push(false);
        i = i + 1;
    }
    let mut k: usize = 0;
    while k < roots.slots.len()
        invariant
            k <= roots@.len(),
            flags@.len() == store.slots@.len(),
            store.slots@.len() <= usize::MAX,
            forall|s: int|
                #![trigger flags@[s]]
                0 <= s < flags@.len() ==> flags@[s] == (roots@.take(k as int).contains(s as usize)
                    && store.slots@[s].readable),
        decreases roots@.len() - k,
    {
        let slot: usize = roots.slots[k];
        let ghost were = flags@;
        if slot < store.slots.len() {
            flags.set(slot, store.slots[slot].readable);
        }
        proof {
            let fewer = roots@.take(k as int);
            let more = roots@.take(k + 1);
            assert(more =~= fewer.push(slot));
            assert forall|s: int|
                #![trigger flags@[s]]
                0 <= s < flags@.len() implies flags@[s] == (more.contains(s as usize)
                && store.slots@[s].readable) by {
                if s == slot {
                    assert(more[k as int] == s as usize);
                } else {
                    assert(flags@[s] == were[s]);
                    if fewer.contains(s as usize) {
                        let j = choose|j: int| 0 <= j < fewer.len() && fewer[j] == s as usize;
                        assert(more[j] == s as usize);
                    }
                    if more.contains(s as usize) {
                        let j = choose|j: int| 0 <= j < more.len() && more[j] == s as usize;
                        assert(fewer[j] == s as usize);
                    }
                }
            }
        }
        k = k + 1;
    }
    proof {
        assert(roots@.take(k as int) =~= roots@);
        assert(flags@ =~= known(*store, roots@));
    }
    flags
}

/// The handles the bindings hold, and the bytes they hold in place.
fn bound_handles(store: &Store, roots: &Roots, flags: &Vec<bool>) -> (result: (Vec<usize>, u64))
    requires
        flags@ == known(*store, roots@),
    ensures
        forall|h: usize| #[trigger]
            result.0@.contains(h) <==> bound(*store, roots@, h),
        result.1 == capped(
            bound_weight(*store, known(*store, roots@), store.slots@.len() as int),
        ),
{
    let mut list: Vec<usize> = Vec::new();
    let mut bytes: u64 = 0;
    let mut i: usize = 0;
    while i < store.slots.len()
        invariant
            i <= store.slots@.len(),
            flags@ == known(*store, roots@),
            forall|h: usize| #[trigger]
                list@.contains(h) <==> exists|s: int|
                    #![trigger store.slots@[s]]
                    0 <= s < i && flags@[s] && handles(store.slots@[s].item).contains(h),
            bytes == capped(bound_weight(*store, flags@, i as int)),
        decreases store.slots@.len() - i,
    {
        let ghost were = list@;
        if flags[i] {
            add_handles(&store.slots[i].item, &mut list);
            bytes = tally(bytes, weigh(&store.slots[i].item));
            proof {
                assert forall|h: usize| #[trigger] list@.contains(h) <==> exists|s: int|
                    #![trigger store.slots@[s]]
                    0 <= s < i + 1 && flags@[s] && handles(store.slots@[s].item).contains(h) by {
                    let more = handles(store.slots@[i as int].item);
                    lemma_in_both(were, more, h);
                    if were.contains(h) {
                        let s = choose|s: int|
                            #![trigger store.slots@[s]]
                            0 <= s < i && flags@[s] && handles(store.slots@[s].item).contains(h);
                        assert(0 <= s < i + 1 && flags@[s] && handles(
                            store.slots@[s].item,
                        ).contains(h));
                    }
                    if more.contains(h) {
                        let s = i as int;
                        assert(0 <= s < i + 1 && flags@[s] && handles(
                            store.slots@[s].item,
                        ).contains(h));
                    }
                }
            }
        } else {
            proof {
                assert forall|h: usize| #[trigger] list@.contains(h) <==> exists|s: int|
                    #![trigger store.slots@[s]]
                    0 <= s < i + 1 && flags@[s] && handles(store.slots@[s].item).contains(h) by {
                    if list@.contains(h) {
                        let s = choose|s: int|
                            #![trigger store.slots@[s]]
                            0 <= s < i && flags@[s] && handles(store.slots@[s].item).contains(h);
                        assert(0 <= s < i + 1 && flags@[s] && handles(
                            store.slots@[s].item,
                        ).contains(h));
                    }
                }
            }
        }
        i = i + 1;
    }
    (list, bytes)
}

proof fn lemma_in_both(a: Seq<usize>, b: Seq<usize>, h: usize)
    ensures
        (a + b).contains(h) <==> a.contains(h) || b.contains(h),
{
    let both = a + b;
    if a.contains(h) {
        let k = choose|k: int| 0 <= k < a.len() && a[k] == h;
        assert(both[k] == h);
    }
    if b.contains(h) {
        let k = choose|k: int| 0 <= k < b.len() && b[k] == h;
        assert(both[a.len() + k] == h);
    }
    if both.contains(h) {
        let k = choose|k: int| 0 <= k < both.len() && both[k] == h;
        if k < a.len() {
            assert(a[k] == h);
        } else {
            assert(b[k - a.len()] == h);
        }
    }
}

/// As many flags as there are allocations, none of them set.
fn no_marks(store: &Store) -> (flags: Vec<bool>)
    ensures
        flags@ == nothing(*store),
{
    let mut flags: Vec<bool> = Vec::new();
    while flags.len() < store.cells.len()
        invariant
            flags@.len() <= store.cells@.len(),
            forall|i: int| 0 <= i < flags@.len() ==> !(#[trigger] flags@[i]),
        decreases store.cells@.len() - flags@.len(),
    {
        flags.push(false);
    }
    proof {
        assert(flags@ =~= nothing(*store));
    }
    flags
}

/// Every handle counting starts from.
fn all_sources(store: &Store, roots: &Roots, managed: &Vec<bool>, bound_list: &Vec<usize>) -> (list:
    Vec<usize>)
    requires
        managed@.len() == store.cells@.len(),
        forall|h: usize| #[trigger]
            bound_list@.contains(h) <==> bound(*store, roots@, h),
    ensures
        list@.to_set() == sources(*store, roots@, managed@),
{
    let mut list: Vec<usize> = Vec::new();
    let mut k: usize = 0;
    while k < bound_list.len()
        invariant
            k <= bound_list@.len(),
            list@ == bound_list@.take(k as int),
        decreases bound_list@.len() - k,
    {
        list.push(bound_list[k]);
        proof {
            assert(list@ =~= bound_list@.take(k + 1));
        }
        k = k + 1;
    }
    proof {
        assert(bound_list@.take(k as int) =~= bound_list@);
    }
    let mut i: usize = 0;
    while i < store.cells.len()
        invariant
            i <= store.cells@.len(),
            managed@.len() == store.cells@.len(),
            forall|h: usize| #[trigger]
                list@.contains(h) <==> bound(*store, roots@, h) || exists|c: int|
                    0 <= c < i && #[trigger] managed@[c] && readable_handles(*store, c).contains(h),
        decreases store.cells@.len() - i,
    {
        let ghost were = list@;
        if managed[i] && store.cells[i].readable {
            add_labelled(&store.cells[i].items, &mut list);
        }
        proof {
            let more = readable_handles(*store, i as int);
            assert(managed@[i as int] ==> list@ =~= were + more);
            assert forall|h: usize| #[trigger] list@.contains(h) <==> bound(*store, roots@, h)
                || exists|c: int|
                0 <= c < i + 1 && #[trigger] managed@[c] && readable_handles(*store, c).contains(
                    h,
                ) by {
                lemma_in_both(were, more, h);
                if exists|c: int|
                    0 <= c < i && #[trigger] managed@[c] && readable_handles(*store, c).contains(
                        h,
                    ) {
                    let c = choose|c: int|
                        0 <= c < i && #[trigger] managed@[c] && readable_handles(
                            *store,
                            c,
                        ).contains(h);
                    assert(0 <= c < i + 1 && managed@[c]);
                }
                if managed@[i as int] && more.contains(h) {
                    let c = i as int;
                    assert(0 <= c < i + 1 && managed@[c] && readable_handles(*store, c).contains(
                        h,
                    ));
                }
            }
        }
        i = i + 1;
    }
    proof {
        assert(list@.to_set() =~= sources(*store, roots@, managed@));
    }
    list
}

/// Counts the handles that can be seen.
fn count_visible_references(
    store: &Store,
    roots: &Roots,
    managed: &Vec<bool>,
    flags: &Vec<bool>,
    bound_list: &Vec<usize>,
) -> (scan: Scan)
    requires
        managed@.len() == store.cells@.len(),
        flags@ == known(*store, roots@),
        forall|h: usize| #[trigger]
            bound_list@.contains(h) <==> bound(*store, roots@, h),
    ensures
        scan.sighted@.len() == store.cells@.len(),
        forall|z: int|
            #![trigger scan.sighted@[z]]
            0 <= z < store.cells@.len() ==> scan.sighted@[z] == held(
                sighted(*store, roots@, managed@, z as usize),
            ),
{
    let from: Vec<usize> = all_sources(store, roots, managed, bound_list);
    let none: Vec<bool> = no_marks(store);
    let (found, _) = trace(store, &none, &none, &from);
    let ghost chosen = counted(*store, roots@, managed@);
    let n: usize = store.cells.len();
    let mut scan = Scan { sighted: Vec::new() };
    while scan.sighted.len() < n
        invariant
            scan.sighted@.len() <= n,
            forall|z: int| 0 <= z < scan.sighted@.len() ==> #[trigger] scan.sighted@[z] == 0,
        decreases n - scan.sighted@.len(),
    {
        scan.sighted.push(0);
    }
    let mut s: usize = 0;
    while s < store.slots.len()
        invariant
            s <= store.slots@.len(),
            n == store.cells@.len(),
            flags@ == known(*store, roots@),
            scan.sighted@.len() == n,
            forall|z: int|
                #![trigger scan.sighted@[z]]
                0 <= z < n ==> scan.sighted@[z] == held(
                    references(all_slot_handles(*store), flags@, z as usize, s as int),
                ),
        decreases store.slots@.len() - s,
    {
        let ghost middle = scan.sighted@;
        if flags[s] {
            let mut list: Vec<usize> = Vec::new();
            add_handles(&store.slots[s].item, &mut list);
            proof {
                assert(list@ =~= all_slot_handles(*store)[s as int]);
            }
            scan.count(&list);
        }
        proof {
            assert forall|z: int|
                #![trigger scan.sighted@[z]]
                0 <= z < n implies scan.sighted@[z] == held(
                references(all_slot_handles(*store), flags@, z as usize, s + 1),
            ) by {
                assert(middle[z] == held(
                    references(all_slot_handles(*store), flags@, z as usize, s as int),
                ));
            }
        }
        s = s + 1;
    }
    let mut c: usize = 0;
    while c < store.cells.len()
        invariant
            c <= store.cells@.len(),
            n == store.cells@.len(),
            managed@.len() == n,
            found@.len() == n,
            chosen == counted(*store, roots@, managed@),
            none@ == nothing(*store),
            from@.to_set() == sources(*store, roots@, managed@),
            forall|at: int|
                0 <= at < n ==> (#[trigger] found@[at] <==> traced(
                    *store,
                    none@,
                    none@,
                    from@.to_set(),
                    at,
                )),
            scan.sighted@.len() == n,
            forall|z: int|
                #![trigger scan.sighted@[z]]
                0 <= z < n ==> scan.sighted@[z] == held(
                    references(
                        all_slot_handles(*store),
                        known(*store, roots@),
                        z as usize,
                        store.slots@.len() as int,
                    ) + references(all_readable_handles(*store), chosen, z as usize, c as int),
                ),
        decreases store.cells@.len() - c,
    {
        let ghost middle = scan.sighted@;
        let pick: bool = match store.cells[c].kind {
            Kind::Vector => managed[c],
            _ => found[c],
        };
        proof {
            assert(pick == chosen[c as int]);
        }
        if pick {
            let mut list: Vec<usize> = Vec::new();
            if store.cells[c].readable {
                add_labelled(&store.cells[c].items, &mut list);
            }
            proof {
                assert(list@ =~= all_readable_handles(*store)[c as int]);
            }
            scan.count(&list);
        }
        proof {
            assert forall|z: int|
                #![trigger scan.sighted@[z]]
                0 <= z < n implies scan.sighted@[z] == held(
                references(
                    all_slot_handles(*store),
                    known(*store, roots@),
                    z as usize,
                    store.slots@.len() as int,
                ) + references(all_readable_handles(*store), chosen, z as usize, c + 1),
            ) by {
                assert(middle[z] == held(
                    references(
                        all_slot_handles(*store),
                        known(*store, roots@),
                        z as usize,
                        store.slots@.len() as int,
                    ) + references(all_readable_handles(*store), chosen, z as usize, c as int),
                ));
            }
        }
        c = c + 1;
    }
    scan
}

/// Marks what is live, and measures it.
fn mark(store: &Store, roots: &Roots, managed: &Vec<bool>) -> (result: (Vec<bool>, u64))
    requires
        managed@.len() == store.cells@.len(),
    ensures
        result.0@ == live(*store, roots@, managed@),
        result.1 == capped(live_weight(*store, roots@, managed@)),
{
    let flags: Vec<bool> = known_slots(store, roots);
    let (mut list, slot_bytes) = bound_handles(store, roots, &flags);
    let scan = count_visible_references(store, roots, managed, &flags, &list);
    let n: usize = store.cells.len();
    let mut i: usize = 0;
    while i < n
        invariant
            i <= n == store.cells@.len(),
            managed@.len() == store.cells@.len(),
            scan.sighted@.len() == store.cells@.len(),
            forall|z: int|
                #![trigger scan.sighted@[z]]
                0 <= z < store.cells@.len() ==> scan.sighted@[z] == held(
                    sighted(*store, roots@, managed@, z as usize),
                ),
            forall|h: usize| #[trigger]
                list@.contains(h) <==> bound(*store, roots@, h) || (h < i && (short(
                    *store,
                    roots@,
                    managed@,
                    h as int,
                ) || (managed@[h as int] && !store.cells@[h as int].readable))),
        decreases n - i,
    {
        let ghost were = list@;
        let seen: usize = scan.sighted[i];
        let countable: bool = match store.cells[i].kind {
            Kind::Text(_) => false,
            Kind::Keys => false,
            _ => true,
        };
        let unseen: bool = store.cells[i].strong > seen && (managed[i] || (seen > 0 && countable));
        let writing: bool = managed[i] && !store.cells[i].readable;
        proof {
            assert(unseen == short(*store, roots@, managed@, i as int));
        }
        if unseen || writing {
            list.push(i);
        }
        proof {
            assert forall|h: usize| #[trigger] list@.contains(h) <==> bound(*store, roots@, h) || (h
                < i + 1 && (short(*store, roots@, managed@, h as int) || (managed@[h as int]
                && !store.cells@[h as int].readable))) by {
                lemma_in_both(were, seq![i], h);
                assert(seq![i].contains(h) <==> h == i) by {
                    assert(seq![i][0] == i);
                }
                if unseen || writing {
                    assert(list@ =~= were + seq![i]);
                }
            }
        }
        i = i + 1;
    }
    let none: Vec<bool> = no_marks(store);
    let (marked, bytes) = trace(store, managed, &none, &list);
    proof {
        assert(list@.to_set() =~= starts(*store, roots@, managed@));
        assert(marked@ =~= live(*store, roots@, managed@));
    }
    (marked, tally(slot_bytes, bytes))
}

// ------------------------------------------------------------ the heap

/// A store with one handle to an allocation fewer.
pub open spec fn one_fewer(before: Store, at: int, after: Store) -> bool {
    &&& after.slots == before.slots
    &&& after.cells@ == before.cells@.update(
        at,
        Allocation { strong: (before.cells@[at].strong - 1) as usize, ..before.cells@[at] },
    )
}

impl Store {
    /// A store with nothing in it.
    pub fn new() -> (store: Store)
        ensures
            store.cells@.len() == 0,
            store.slots@.len() == 0,
    {
        Store { cells: Vec::new(), slots: Vec::new() }
    }

    /// Empties some allocations, and says everything that went.
    fn empty_out(&mut self, emptied: &Vec<bool>) -> (gone: Vec<bool>)
        requires
            emptied@.len() == old(self).cells@.len(),
        ensures
            just_gone(*old(self), emptied@, gone@),
            without(*old(self), gone@, *final(self)),
    {
        let ghost before = *self;
        let n: usize = self.cells.len();
        let mut gone: Vec<bool> = Vec::new();
        let mut work: Vec<usize> = Vec::new();
        let mut i: usize = 0;
        while i < n
            invariant
                i <= n == emptied@.len(),
                gone@ == emptied@.take(i as int),
                forall|k: int|
                    0 <= k < work@.len() ==> (#[trigger] work@[k]) < i && emptied@[work@[k] as int],
                forall|a: int, b: int|
                    0 <= a < b < work@.len() ==> #[trigger] work@[a] != #[trigger] work@[b],
                forall|x: int|
                    0 <= x < i && #[trigger] emptied@[x] ==> work@.contains(x as usize),
            decreases n - i,
        {
            let ghost asked = work@;
            if emptied[i] {
                work.push(i);
                proof {
                    assert(work@[asked.len() as int] == i);
                }
            }
            gone.push(emptied[i]);
            proof {
                assert(gone@ =~= emptied@.take(i + 1));
                assert forall|x: int| 0 <= x < i + 1 && #[trigger] emptied@[x] implies work@.contains(
                    x as usize,
                ) by {
                    if x < i {
                        let j = choose|j: int| 0 <= j < asked.len() && asked[j] == x as usize;
                        assert(work@[j] == x as usize);
                    }
                }
            }
            i = i + 1;
        }
        proof {
            assert(gone@ =~= emptied@);
            let none = nothing(before);
            assert forall|x: int| #![trigger before.cells@[x]] 0 <= x < n implies partly(
                before,
                before,
                none,
                Seq::empty(),
                x,
            ) by {
                lemma_references_of_none(all_handles(before), none, x as usize, n as int);
            }
            assert(releasing(
                before,
                emptied@,
                before,
                gone@,
                none,
                work@,
                -1,
                Seq::empty(),
            ));
        }
        self.settle(&mut gone, &mut work, Ghost(before), Ghost(emptied@));
        gone
    }

    /// Takes one more handle to an allocation.
    pub fn share(&mut self, at: usize)
        requires
            at < old(self).cells@.len(),
            old(self).cells@[at as int].strong < usize::MAX,
        ensures
            final(self).slots == old(self).slots,
            final(self).cells@ == old(self).cells@.update(
                at as int,
                Allocation {
                    strong: (old(self).cells@[at as int].strong + 1) as usize,
                    ..old(self).cells@[at as int]
                },
            ),
    {
        let strong: usize = self.cells[at].strong;
        self.cells[at].strong = strong + 1;
    }

    /// Drops one handle to an allocation. With the last of them what it holds
    /// is dropped too, and so on. The flags say which allocations went.
    pub fn release(&mut self, at: usize) -> (gone: Vec<bool>)
        requires
            at < old(self).cells@.len(),
            old(self).cells@[at as int].strong > 0,
        ensures
            exists|fewer: Store|
                one_fewer(*old(self), at as int, fewer) && just_gone(
                    fewer,
                    nothing(fewer).update(at as int, fewer.cells@[at as int].strong == 0),
                    gone@,
                ) && #[trigger] without(fewer, gone@, *final(self)),
    {
        let strong: usize = self.cells[at].strong;
        self.cells[at].strong = strong - 1;
        let ghost fewer = *self;
        let mut emptied: Vec<bool> = no_marks(self);
        emptied.set(at, strong == 1);
        proof {
            assert(one_fewer(*old(self), at as int, fewer));
        }
        self.empty_out(&emptied)
    }
}

/// When the next collection is worth its cost: at so many allocations.
pub open spec fn next_due(live_objects: nat) -> u64 {
    if live_objects * GROWTH_FACTOR as nat > MIN_ALLOCATIONS_BETWEEN_COLLECTIONS {
        capped(live_objects * GROWTH_FACTOR as nat)
    } else {
        MIN_ALLOCATIONS_BETWEEN_COLLECTIONS
    }
}

/// The totals after one more collection.
pub open spec fn having_collected(stats: HeapStats, collection: Collection) -> HeapStats {
    HeapStats {
        collections: crate::budget::tallied(stats.collections as int, 1) as u64,
        freed_objects: crate::budget::tallied(
            stats.freed_objects as int,
            collection.freed_objects as int,
        ) as u64,
        live_bytes: collection.live_bytes,
        live_objects: collection.live_objects,
        peak_bytes: if stats.peak_bytes >= collection.live_bytes {
            stats.peak_bytes
        } else {
            collection.live_bytes
        },
        pause: crate::budget::tallied(stats.pause as int, collection.pause as int) as u64,
        ..stats
    }
}

/// What a collection of a store finds and does.
pub open spec fn collection_of(
    store: Store,
    roots: Seq<usize>,
    managed: Seq<bool>,
    allocated: u64,
    pause: u64,
) -> Collection {
    Collection {
        allocated,
        freed_objects: how_many(doomed(store, roots, managed)) as u64,
        freed_bytes: capped(
            marked_weight(store, lost(store, roots, managed), store.cells@.len() as int),
        ),
        live_objects: how_many(surviving(store, roots, managed)) as u64,
        live_bytes: capped(live_weight(store, roots, managed)),
        pause,
    }
}

/// What the heap manages and is live.
pub open spec fn surviving(store: Store, roots: Seq<usize>, managed: Seq<bool>) -> Seq<bool> {
    Seq::new(
        store.cells@.len(),
        |i: int| managed[i] && live(store, roots, managed)[i],
    )
}

/// One task's heap: the vectors it tracks, by number, and its totals. It holds
/// no handle of its own to any of them.
#[derive(Debug)]
pub struct Heap {
    objects: Vec<bool>,
    allocations_since_collection: u64,
    next_collection_at: u64,
    stats: HeapStats,
}

impl Heap {
    /// The heap tracks this allocation.
    pub closed spec fn tracks(self, at: int) -> bool {
        0 <= at < self.objects@.len() && self.objects@[at]
    }

    /// How many objects were allocated since the last collection.
    pub closed spec fn since(self) -> u64 {
        self.allocations_since_collection
    }

    /// How many allocations make the next collection worth its cost.
    pub closed spec fn due(self) -> u64 {
        self.next_collection_at
    }

    /// The totals so far.
    pub closed spec fn totals(self) -> HeapStats {
        self.stats
    }

    /// Whatever the heap tracks is a vector of the store.
    pub open spec fn wf(self, store: Store) -> bool {
        forall|at: int| #[trigger]
            self.tracks(at) ==> at < store.cells@.len() && store.cells@[at].kind is Vector
    }

    /// What the heap tracks and counted references have not freed.
    pub open spec fn managed(self, store: Store) -> Seq<bool> {
        Seq::new(
            store.cells@.len(),
            |i: int| self.tracks(i) && store.cells@[i].strong > 0,
        )
    }

    /// An empty heap.
    pub fn new() -> (heap: Heap)
        ensures
            forall|at: int| !(#[trigger] heap.tracks(at)),
            heap.since() == 0,
            heap.due() == MIN_ALLOCATIONS_BETWEEN_COLLECTIONS,
            heap.totals() == HeapStats::none(),
    {
        Heap {
            objects: Vec::new(),
            allocations_since_collection: 0,
            next_collection_at: MIN_ALLOCATIONS_BETWEEN_COLLECTIONS,
            stats: HeapStats::empty(),
        }
    }

    /// This heap's totals so far.
    pub fn stats(&self) -> (stats: HeapStats)
        ensures
            stats == self.totals(),
    {
        self.stats
    }

    /// Whether the heap is tracking no object at all.
    pub fn is_empty(&self) -> (yes: bool)
        ensures
            yes == (forall|at: int| !(#[trigger] self.tracks(at))),
    {
        let mut i: usize = 0;
        while i < self.objects.len()
            invariant
                i <= self.objects@.len(),
                forall|at: int| 0 <= at < i ==> !(#[trigger] self.objects@[at]),
            decreases self.objects@.len() - i,
        {
            if self.objects[i] {
                proof {
                    assert(self.tracks(i as int));
                }
                return false;
            }
            i = i + 1;
        }
        true
    }

    /// This heap's totals so far, and the counters back at nothing. What is
    /// live is no counter and stays.
    pub fn take_stats(&mut self) -> (taken: HeapStats)
        ensures
            taken == old(self).totals(),
            final(self).totals() == (HeapStats {
                live_bytes: taken.live_bytes,
                live_objects: taken.live_objects,
                peak_bytes: taken.peak_bytes,
                ..HeapStats::none()
            }),
            final(self).since() == old(self).since(),
            final(self).due() == old(self).due(),
            forall|at: int| final(self).tracks(at) == #[trigger] old(self).tracks(at),
    {
        let taken = self.stats;
        let mut cleared = HeapStats::empty();
        cleared.live_bytes = taken.live_bytes;
        cleared.live_objects = taken.live_objects;
        cleared.peak_bytes = taken.peak_bytes;
        self.stats = cleared;
        taken
    }

    /// Allocates a vector, and hands out the one handle to it.
    pub fn allocate(&mut self, store: &mut Store, elements: Vec<(u64, Item)>) -> (at: usize)
        requires
            old(self).wf(*old(store)),
        ensures
            at == old(store).cells@.len(),
            final(store).slots == old(store).slots,
            final(store).cells@.len() == at + 1,
            final(store).cells@.take(at as int) == old(store).cells@,
            final(store).cells@[at as int] == (Allocation {
                kind: Kind::Vector,
                strong: 1,
                readable: true,
                items: elements,
            }),
            final(self).wf(*final(store)),
            forall|i: int| #[trigger]
                final(self).tracks(i) <==> old(self).tracks(i) || i == at,
            final(self).due() == old(self).due(),
            final(self).since() == crate::budget::tallied(old(self).since() as int, 1),
            final(self).totals() == (HeapStats {
                allocated_objects: crate::budget::tallied(
                    old(self).totals().allocated_objects as int,
                    1,
                ) as u64,
                allocated_bytes: crate::budget::tallied(
                    old(self).totals().allocated_bytes as int,
                    capped(vector_weight(final(store).cells@[at as int])) as int,
                ) as u64,
                ..old(self).totals()
            }),
    {
        let at: usize = store.cells.len();
        let cell = Allocation { kind: Kind::Vector, strong: 1, readable: true, items: elements };
        self.stats.allocated_objects = tally(self.stats.allocated_objects, 1);
        self.stats.allocated_bytes = tally(self.stats.allocated_bytes, object_bytes(&cell));
        self.allocations_since_collection = tally(self.allocations_since_collection, 1);
        store.cells.push(cell);
        let ghost were = self.objects@;
        let ghost stats = self.stats;
        let ghost since = self.allocations_since_collection;
        while self.objects.len() <= at
            invariant
                were.len() <= self.objects@.len(),
                self.objects@.take(were.len() as int) == were,
                forall|i: int| were.len() <= i < self.objects@.len() ==> !(#[trigger] self.objects@[i]),
                self.stats == stats,
                self.next_collection_at == old(self).next_collection_at,
                self.allocations_since_collection == since,
            decreases at + 1 - self.objects@.len(),
        {
            let ghost middle = self.objects@;
            self.objects.push(false);
            proof {
                assert(self.objects@.take(were.len() as int) =~= middle.take(were.len() as int));
            }
        }
        proof {
            assert forall|i: int| 0 <= i < were.len() implies self.objects@[i] == were[i] by {
                assert(self.objects@.take(were.len() as int)[i] == were[i]);
            }
        }
        self.objects.set(at, true);
        proof {
            assert(store.cells@.take(at as int) =~= old(store).cells@);
            assert forall|i: int| #[trigger] self.tracks(i) implies i < store.cells@.len()
                && store.cells@[i].kind is Vector by {
                if i != at {
                    assert(old(self).tracks(i));
                    assert(store.cells@.take(at as int)[i] == store.cells@[i]);
                }
            }
        }
        at
    }

    /// Whether enough has been allocated since the last collection to be worth
    /// another one.
    pub fn should_collect(&self) -> (yes: bool)
        ensures
            yes == (self.since() >= self.due()),
    {
        self.allocations_since_collection >= self.next_collection_at
    }

    /// Bytes live as of the most recent collection: everything the bindings
    /// and the live objects reach, each shared allocation counted once.
    pub fn live_bytes(&self) -> (bytes: u64)
        ensures
            bytes == self.totals().live_bytes,
    {
        self.stats.live_bytes
    }

    /// What the heap tracks and counted references have not freed.
    fn present(&self, store: &Store) -> (managed: Vec<bool>)
        ensures
            managed@ == self.managed(*store),
    {
        let mut managed: Vec<bool> = Vec::new();
        let mut i: usize = 0;
        while i < store.cells.len()
            invariant
                i <= store.cells@.len(),
                managed@.len() == i,
                forall|k: int|
                    0 <= k < i ==> #[trigger] managed@[k] == (self.tracks(k)
                        && store.cells@[k].strong > 0),
            decreases store.cells@.len() - i,
        {
            managed.push(i < self.objects.len() && self.objects[i] && store.cells[i].strong > 0);
            i = i + 1;
        }
        proof {
            assert(managed@ =~= self.managed(*store));
        }
        managed
    }

    /// Reclaims everything the marks leave out: says how many objects, and how
    /// many bytes they held.
    fn sweep(
        &mut self,
        store: &mut Store,
        managed: &Vec<bool>,
        marked: &Vec<bool>,
        Ghost(roots): Ghost<Seq<usize>>,
    ) -> (result: (u64, u64, u64))
        requires
            managed@ == old(self).managed(*old(store)),
            marked@ == live(*old(store), roots, managed@),
            old(self).wf(*old(store)),
        ensures
            result.0 == how_many(doomed(*old(store), roots, managed@)),
            result.1 == capped(
                marked_weight(
                    *old(store),
                    lost(*old(store), roots, managed@),
                    old(store).cells@.len() as int,
                ),
            ),
            result.2 == how_many(surviving(*old(store), roots, managed@)),
            final(self).stats == old(self).stats,
            final(self).allocations_since_collection == old(self).allocations_since_collection,
            final(self).next_collection_at == old(self).next_collection_at,
            final(self).wf(*final(store)),
            forall|at: int| #[trigger]
                final(self).tracks(at) <==> 0 <= at < old(store).cells@.len() && managed@[at]
                    && marked@[at],
            exists|gone: Seq<bool>|
                just_gone(*old(store), doomed(*old(store), roots, managed@), gone)
                    && #[trigger] without(*old(store), gone, *final(store)),
    {
        let ghost before = *store;
        let n: usize = store.cells.len();
        let mut kept: Vec<bool> = Vec::new();
        let mut freed: Vec<bool> = Vec::new();
        let mut list: Vec<usize> = Vec::new();
        let mut freed_objects: u64 = 0;
        let mut live_objects: u64 = 0;
        let mut i: usize = 0;
        proof {
            assert(surviving(before, roots, managed@).take(0) =~= Seq::<bool>::empty());
            assert(doomed(before, roots, managed@).take(0) =~= Seq::<bool>::empty());
        }
        while i < n
            invariant
                i <= n == before.cells@.len(),
                managed@.len() == n,
                marked@ == live(before, roots, managed@),
                kept@ == surviving(before, roots, managed@).take(i as int),
                freed@ == doomed(before, roots, managed@).take(i as int),
                freed_objects == how_many(freed@) <= i,
                live_objects == how_many(kept@) <= i,
                forall|h: usize| #[trigger]
                    list@.contains(h) <==> h < i && doomed(before, roots, managed@)[h as int],
            decreases n - i,
        {
            let ghost were = list@;
            let keep: bool = managed[i] && marked[i];
            let free: bool = managed[i] && !marked[i];
            proof {
                assert(kept@.push(keep) =~= surviving(before, roots, managed@).take(i + 1));
                assert(freed@.push(free) =~= doomed(before, roots, managed@).take(i + 1));
                assert(kept@.push(keep).drop_last() =~= kept@);
                assert(freed@.push(free).drop_last() =~= freed@);
            }
            kept.push(keep);
            freed.push(free);
            if keep {
                live_objects = live_objects + 1;
            }
            if free {
                freed_objects = freed_objects + 1;
                list.push(i);
            }
            proof {
                assert forall|h: usize| #[trigger] list@.contains(h) <==> h < i + 1 && doomed(
                    before,
                    roots,
                    managed@,
                )[h as int] by {
                    lemma_in_both(were, seq![i], h);
                    assert(seq![i].contains(h) <==> h == i) by {
                        assert(seq![i][0] == i);
                    }
                    if free {
                        assert(list@ =~= were + seq![i]);
                    }
                }
            }
            i = i + 1;
        }
        let (gone_flags, freed_bytes) = trace(store, managed, marked, &list);
        proof {
            assert(surviving(before, roots, managed@).take(n as int) =~= surviving(
                before,
                roots,
                managed@,
            ));
            assert(doomed(before, roots, managed@).take(n as int) =~= doomed(
                before,
                roots,
                managed@,
            ));
            let from = Set::new(
                |h: usize|
                    h < before.cells@.len() && doomed(before, roots, managed@)[h as int],
            );
            assert(list@.to_set() =~= from);
            assert(gone_flags@ =~= lost(before, roots, managed@));
        }
        self.objects = kept;
        let gone = store.empty_out(&freed);
        proof {
            assert(without(before, gone@, *store));
            assert forall|at: int| #[trigger] self.tracks(at) implies at < store.cells@.len()
                && store.cells@[at].kind is Vector by {
                assert(managed@[at]);
                assert(old(self).tracks(at));
            }
        }
        (freed_objects, freed_bytes, live_objects)
    }

    /// Marks from the bindings and from whatever has handles that cannot be
    /// seen, and reclaims what is not marked. How long the program stands still
    /// for it is measured, and added to the totals.
    pub fn collect(&mut self, store: &mut Store, roots: &Roots) -> (collection: Collection)
        requires
            old(self).wf(*old(store)),
        ensures
            collection == collection_of(
                *old(store),
                roots@,
                old(self).managed(*old(store)),
                old(self).since(),
                collection.pause,
            ),
            final(self).wf(*final(store)),
            forall|at: int| #[trigger]
                final(self).tracks(at) <==> 0 <= at < old(store).cells@.len() && surviving(
                    *old(store),
                    roots@,
                    old(self).managed(*old(store)),
                )[at],
            final(self).since() == 0,
            final(self).due() == next_due(
                how_many(surviving(*old(store), roots@, old(self).managed(*old(store)))),
            ),
            final(self).totals() == having_collected(old(self).totals(), collection),
            exists|gone: Seq<bool>|
                just_gone(
                    *old(store),
                    doomed(*old(store), roots@, old(self).managed(*old(store))),
                    gone,
                ) && #[trigger] without(*old(store), gone, *final(store)),
    {
        let ghost before = *store;
        let began = crate::host::now();
        let managed: Vec<bool> = self.present(store);
        let (marked, live_bytes) = mark(store, roots, &managed);
        let (freed_objects, freed_bytes, live_objects) = self.sweep(
            store,
            &managed,
            &marked,
            Ghost(roots@),
        );
        let ghost swept = *self;
        let pause: u64 = crate::host::nanoseconds_since(&began);
        let collection = Collection {
            allocated: self.allocations_since_collection,
            freed_objects,
            freed_bytes,
            live_objects,
            live_bytes,
            pause,
        };
        self.allocations_since_collection = 0;
        let twice: u64 = if live_objects > u64::MAX / GROWTH_FACTOR {
            u64::MAX
        } else {
            live_objects * GROWTH_FACTOR
        };
        self.next_collection_at = if twice > MIN_ALLOCATIONS_BETWEEN_COLLECTIONS {
            twice
        } else {
            MIN_ALLOCATIONS_BETWEEN_COLLECTIONS
        };
        self.stats.collections = tally(self.stats.collections, 1);
        self.stats.freed_objects = tally(self.stats.freed_objects, freed_objects);
        self.stats.live_bytes = live_bytes;
        self.stats.live_objects = live_objects;
        if self.stats.peak_bytes < live_bytes {
            self.stats.peak_bytes = live_bytes;
        }
        self.stats.pause = tally(self.stats.pause, pause);
        proof {
            assert forall|at: int| #[trigger] self.tracks(at) <==> 0 <= at < before.cells@.len()
                && surviving(before, roots@, managed@)[at] by {
                assert(self.tracks(at) == swept.tracks(at));
            }
            assert forall|at: int| #[trigger] self.tracks(at) implies at < store.cells@.len()
                && store.cells@[at].kind is Vector by {
                assert(swept.tracks(at));
            }
        }
        collection
    }
}

// ---------------------------------------------------------------- laws

/// All of so many.
pub open spec fn every(count: nat) -> Seq<bool> {
    Seq::new(count, |i: int| true)
}

/// Every count is right: the handles in the store, and those held by something
/// outside it, such as a value being evaluated.
pub open spec fn counts_add_up(store: Store, outside: Seq<nat>) -> bool {
    let n = store.cells@.len();
    let m = store.slots@.len();
    &&& outside.len() == n
    &&& forall|x: int|
        #![trigger store.cells@[x]]
        0 <= x < n ==> store.cells@[x].strong == references(
            all_handles(store),
            every(n),
            x as usize,
            n as int,
        ) + references(all_slot_handles(store), every(m), x as usize, m as int) + outside[x]
}

/// A text and a set hold no handles.
pub open spec fn leaves_hold_nothing(store: Store) -> bool {
    forall|i: int|
        #![trigger store.cells@[i]]
        0 <= i < store.cells@.len() && (store.cells@[i].kind is Text
            || store.cells@[i].kind is Keys) ==> all_handles(store)[i].len() == 0
}

/// A heap manages nothing but vectors.
pub open spec fn manages_vectors(store: Store, managed: Seq<bool>) -> bool {
    &&& managed.len() == store.cells@.len()
    &&& forall|i: int| 0 <= i < managed.len() && #[trigger] managed[i] ==> store.cells@[i].kind is Vector
}

/// A binding holds this handle.
pub open spec fn in_a_slot(store: Store, handle: usize) -> bool {
    exists|i: int|
        #![trigger store.slots@[i]]
        0 <= i < store.slots@.len() && handles(store.slots@[i].item).contains(handle)
}

/// Handles lead from each of these to the next.
pub open spec fn trail(store: Store, path: Seq<int>) -> bool {
    &&& path.len() > 0
    &&& forall|i: int| 0 <= i < path.len() ==> 0 <= #[trigger] path[i] < store.cells@.len()
    &&& forall|i: int|
        0 <= i < path.len() - 1 ==> all_handles(store)[#[trigger] path[i]].contains(
            path[i + 1] as usize,
        )
}

/// The program can still reach this allocation, from a binding or from a
/// handle held outside the store.
pub open spec fn reachable(store: Store, outside: Seq<nat>, at: int) -> bool {
    exists|path: Seq<int>| #[trigger]
        trail(store, path) && path.last() == at && (outside[path[0]] > 0 || in_a_slot(
            store,
            path[0] as usize,
        ))
}

/// A managed vector or a counted allocation that is not live.
spec fn dead(store: Store, roots: Seq<usize>, managed: Seq<bool>, at: int) -> bool {
    &&& followed(store, managed, nothing(store), at)
    &&& managed[at] || (sighted(store, roots, managed, at as usize) > 0 && !(
    store.cells@[at].kind is Text) && !(store.cells@[at].kind is Keys))
    &&& !live(store, roots, managed)[at]
}

/// Lists that hold no more than others hold no number more often.
proof fn lemma_no_more_than(
    few: Seq<Seq<usize>>,
    chosen: Seq<bool>,
    all: Seq<Seq<usize>>,
    x: usize,
    at: int,
    count: int,
)
    requires
        count <= all.len(),
        few.len() == all.len(),
        chosen.len() == all.len(),
        0 <= at < count,
        forall|i: int| 0 <= i < all.len() ==> #[trigger] few[i] == all[i] || few[i].len() == 0,
    ensures
        references(few, chosen, x, count) + times(all[at], x) <= references(
            all,
            every(all.len()),
            x,
            count,
        ) + (if chosen[at] {
            times(few[at], x)
        } else {
            0
        }),
    decreases count,
{
    lemma_none_more(few, chosen, all, x, count - 1);
    assert(few[count - 1] == all[count - 1] || few[count - 1].len() == 0);
    if at < count - 1 {
        lemma_no_more_than(few, chosen, all, x, at, count - 1);
    }
}

proof fn lemma_none_more(
    few: Seq<Seq<usize>>,
    chosen: Seq<bool>,
    all: Seq<Seq<usize>>,
    x: usize,
    count: int,
)
    requires
        count <= all.len(),
        few.len() == all.len(),
        chosen.len() == all.len(),
        forall|i: int| 0 <= i < all.len() ==> #[trigger] few[i] == all[i] || few[i].len() == 0,
    ensures
        references(few, chosen, x, count) <= references(all, every(all.len()), x, count),
    decreases count,
{
    if count > 0 {
        lemma_none_more(few, chosen, all, x, count - 1);
        assert(few[count - 1] == all[count - 1] || few[count - 1].len() == 0);
    }
}

/// A chosen list that holds a number adds to the count of it.
proof fn lemma_one_is_counted(
    lists: Seq<Seq<usize>>,
    chosen: Seq<bool>,
    x: usize,
    at: int,
    count: int,
)
    requires
        0 <= at < count,
        chosen[at],
        lists[at].contains(x),
    ensures
        references(lists, chosen, x, count) > 0,
    decreases count,
{
    lemma_times_of_one(lists[at], x);
    if at < count - 1 {
        lemma_one_is_counted(lists, chosen, x, at, count - 1);
    }
}

/// A count that is not nothing comes from some chosen list.
proof fn lemma_some_list(lists: Seq<Seq<usize>>, chosen: Seq<bool>, x: usize, count: int) -> (at:
    int)
    requires
        references(lists, chosen, x, count) > 0,
    ensures
        0 <= at < count,
        chosen[at],
        lists[at].contains(x),
    decreases count,
{
    lemma_times_of_one(lists[count - 1], x);
    if chosen[count - 1] && times(lists[count - 1], x) > 0 {
        count - 1
    } else {
        lemma_some_list(lists, chosen, x, count - 1)
    }
}

/// Whatever counting reaches has a handle that was counted.
proof fn lemma_reached_is_sighted(store: Store, roots: Seq<usize>, managed: Seq<bool>, at: int)
    requires
        manages_vectors(store, managed),
        0 <= at < store.cells@.len() <= usize::MAX,
        !(store.cells@[at].kind is Vector),
        counted(store, roots, managed)[at],
    ensures
        sighted(store, roots, managed, at as usize) > 0,
{
    let none = nothing(store);
    let from = sources(store, roots, managed);
    let chosen = counted(store, roots, managed);
    let n = store.cells@.len() as int;
    let path = choose|path: Seq<int>| #[trigger]
        walk(store, none, none, path) && from.contains(path[0] as usize) && path.last() == at;
    if path.len() == 1 {
        if bound(store, roots, at as usize) {
            let s = choose|s: int|
                #![trigger store.slots@[s]]
                0 <= s < store.slots@.len() && known(store, roots)[s] && handles(
                    store.slots@[s].item,
                ).contains(at as usize);
            lemma_one_is_counted(
                all_slot_handles(store),
                known(store, roots),
                at as usize,
                s,
                store.slots@.len() as int,
            );
        } else {
            let c = choose|c: int|
                0 <= c < store.cells@.len() && #[trigger] managed[c] && readable_handles(
                    store,
                    c,
                ).contains(at as usize);
            assert(chosen[c]);
            lemma_one_is_counted(all_readable_handles(store), chosen, at as usize, c, n);
        }
    } else {
        let c = path[path.len() - 2];
        let shorter = path.drop_last();
        assert(followed(store, none, none, c));
        assert(readable_handles(store, c).contains(path[path.len() - 2 + 1] as usize));
        assert forall|i: int| 0 <= i < shorter.len() implies followed(
            store,
            none,
            none,
            #[trigger] shorter[i],
        ) by {
            assert(shorter[i] == path[i]);
        }
        assert forall|i: int| 0 <= i < shorter.len() - 1 implies readable_handles(
            store,
            #[trigger] shorter[i],
        ).contains(shorter[i + 1] as usize) by {
            assert(shorter[i] == path[i] && shorter[i + 1] == path[i + 1]);
        }
        assert(walk(store, none, none, shorter));
        assert(shorter[0] == path[0] && shorter.last() == c);
        assert(traced(store, none, none, from, c));
        assert(chosen[c]);
        lemma_one_is_counted(all_readable_handles(store), chosen, at as usize, c, n);
    }
}

/// A start that marking goes into is live.
proof fn lemma_start_is_live(store: Store, roots: Seq<usize>, managed: Seq<bool>, at: int)
    requires
        followed(store, managed, nothing(store), at),
        starts(store, roots, managed).contains(at as usize),
    ensures
        live(store, roots, managed)[at],
{
    let path = seq![at];
    assert(walk(store, managed, nothing(store), path));
    assert(path.last() == at);
}

/// Nothing outside the store and no binding holds what is dead, and only the
/// dead hold it.
proof fn lemma_the_dead_are_held_by_the_dead(
    store: Store,
    roots: Seq<usize>,
    managed: Seq<bool>,
    outside: Seq<nat>,
    at: int,
)
    requires
        manages_vectors(store, managed),
        counts_add_up(store, outside),
        leaves_hold_nothing(store),
        store.cells@.len() <= usize::MAX,
        dead(store, roots, managed, at),
    ensures
        outside[at] == 0,
        !in_a_slot(store, at as usize),
        forall|c: int|
            #![trigger all_handles(store)[c]]
            0 <= c < store.cells@.len() && all_handles(store)[c].contains(at as usize) ==> dead(
                store,
                roots,
                managed,
                c,
            ),
{
    let n = store.cells@.len() as int;
    let m = store.slots@.len() as int;
    let x = at as usize;
    let chosen = counted(store, roots, managed);
    let reads = known(store, roots);
    if starts(store, roots, managed).contains(x) {
        lemma_start_is_live(store, roots, managed, at);
    }
    assert(!short(store, roots, managed, at));
    assert(!bound(store, roots, x));
    assert(store.cells@[at].strong <= sighted(store, roots, managed, x));
    assert forall|i: int| 0 <= i < n implies #[trigger] all_readable_handles(store)[i]
        == all_handles(store)[i] || all_readable_handles(store)[i].len() == 0 by {}
    lemma_none_more(all_readable_handles(store), chosen, all_handles(store), x, n);
    lemma_none_more(all_slot_handles(store), reads, all_slot_handles(store), x, m);
    if in_a_slot(store, x) {
        let s = choose|s: int|
            #![trigger store.slots@[s]]
            0 <= s < store.slots@.len() && handles(store.slots@[s].item).contains(x);
        lemma_no_more_than(all_slot_handles(store), reads, all_slot_handles(store), x, s, m);
        lemma_times_of_one(all_slot_handles(store)[s], x);
        assert(reads[s]);
    }
    assert forall|c: int|
        #![trigger all_handles(store)[c]]
        0 <= c < n && all_handles(store)[c].contains(x) implies dead(store, roots, managed, c) by {
        lemma_no_more_than(all_readable_handles(store), chosen, all_handles(store), x, c, n);
        lemma_times_of_one(all_handles(store)[c], x);
        assert(chosen[c]);
        lemma_times_of_one(all_readable_handles(store)[c], x);
        assert(readable_handles(store, c).contains(x));
        if !(store.cells@[c].kind is Vector) {
            lemma_reached_is_sighted(store, roots, managed, c);
            assert(all_handles(store)[c].len() > 0);
        }
        if live(store, roots, managed)[c] {
            lemma_walk_goes_on(
                store,
                managed,
                nothing(store),
                starts(store, roots, managed),
                c,
                at,
            );
        }
    }
}

proof fn lemma_no_trail_to_the_dead(
    store: Store,
    roots: Seq<usize>,
    managed: Seq<bool>,
    outside: Seq<nat>,
    path: Seq<int>,
)
    requires
        manages_vectors(store, managed),
        counts_add_up(store, outside),
        leaves_hold_nothing(store),
        store.cells@.len() <= usize::MAX,
        trail(store, path),
        dead(store, roots, managed, path.last()),
    ensures
        dead(store, roots, managed, path[0]),
    decreases path.len(),
{
    if path.len() > 1 {
        let shorter = path.drop_last();
        assert forall|i: int| 0 <= i < shorter.len() implies 0 <= #[trigger] shorter[i]
            < store.cells@.len() by {
            assert(shorter[i] == path[i]);
        }
        assert forall|i: int| 0 <= i < shorter.len() - 1 implies all_handles(
            store,
        )[#[trigger] shorter[i]].contains(shorter[i + 1] as usize) by {
            assert(shorter[i] == path[i] && shorter[i + 1] == path[i + 1]);
        }
        lemma_the_dead_are_held_by_the_dead(store, roots, managed, outside, path.last());
        let c = path[path.len() - 2];
        assert(all_handles(store)[c].contains(path[path.len() - 2 + 1] as usize));
        assert(shorter.last() == c);
        lemma_no_trail_to_the_dead(store, roots, managed, outside, shorter);
    }
}

/// A collection reclaims nothing the program can still reach, whether from a
/// binding, registered or not, readable or not, or from a handle held where
/// the collector cannot look.
pub proof fn nothing_reachable_is_reclaimed(
    store: Store,
    roots: Seq<usize>,
    managed: Seq<bool>,
    outside: Seq<nat>,
    at: int,
)
    requires
        manages_vectors(store, managed),
        counts_add_up(store, outside),
        leaves_hold_nothing(store),
        0 <= at < store.cells@.len(),
        doomed(store, roots, managed)[at],
    ensures
        !reachable(store, outside, at),
{
    let count: usize = store.cells.len();
    assert(count == store.cells@.len());
    if reachable(store, outside, at) {
        let path = choose|path: Seq<int>| #[trigger]
            trail(store, path) && path.last() == at && (outside[path[0]] > 0 || in_a_slot(
                store,
                path[0] as usize,
            ));
        assert(dead(store, roots, managed, at));
        lemma_no_trail_to_the_dead(store, roots, managed, outside, path);
        lemma_the_dead_are_held_by_the_dead(store, roots, managed, outside, path[0]);
    }
}

/// Where a list that holds a number is not chosen, not all of them are counted.
proof fn lemma_one_holder_left_out(
    lists: Seq<Seq<usize>>,
    chosen: Seq<bool>,
    x: usize,
    count: int,
    left: int,
)
    requires
        0 <= count <= lists.len(),
        0 <= left < lists.len(),
        lists[left].contains(x),
        !chosen[left],
    ensures
        references(lists, chosen, x, count) <= references(lists, every(lists.len()), x, count),
        left < count ==> references(lists, chosen, x, count) < references(
            lists,
            every(lists.len()),
            x,
            count,
        ),
    decreases count,
{
    if count > 0 {
        lemma_one_holder_left_out(lists, chosen, x, count - 1, left);
        lemma_times_of_one(lists[left], x);
    }
}

/// What the program can reach does not go when what it cannot reach does.
proof fn lemma_the_reachable_stay(
    store: Store,
    roots: Seq<usize>,
    managed: Seq<bool>,
    outside: Seq<nat>,
)
    requires
        manages_vectors(store, managed),
        counts_add_up(store, outside),
        leaves_hold_nothing(store),
        store.cells@.len() <= usize::MAX,
    ensures
        all_gone(
            store,
            doomed(store, roots, managed),
            Seq::new(store.cells@.len(), |x: int| !reachable(store, outside, x)),
        ),
{
    let n = store.cells@.len() as int;
    let m = store.slots@.len() as int;
    let others = Seq::new(store.cells@.len(), |x: int| !reachable(store, outside, x));
    assert forall|x: int| 0 <= x < others.len() && #[trigger] doomed(
        store,
        roots,
        managed,
    )[x] implies others[x] by {
        nothing_reachable_is_reclaimed(store, roots, managed, outside, x);
    }
    assert forall|x: int| 0 <= x < others.len() && goes(store, others, x) implies #[trigger] others[x] by {
        if reachable(store, outside, x) {
            let path = choose|path: Seq<int>| #[trigger]
                trail(store, path) && path.last() == x && (outside[path[0]] > 0 || in_a_slot(
                    store,
                    path[0] as usize,
                ));
            let h = x as usize;
            assert(store.cells@[x].strong > 0);
            if path.len() == 1 {
                assert(path[0] == x);
                if in_a_slot(store, h) {
                    let s = choose|s: int|
                        #![trigger store.slots@[s]]
                        0 <= s < store.slots@.len() && handles(store.slots@[s].item).contains(h);
                    let none = Seq::new(store.slots@.len(), |i: int| false);
                    assert(all_slot_handles(store)[s].contains(h));
                    lemma_one_holder_left_out(all_slot_handles(store), none, h, m, s);
                }
                lemma_none_more(all_handles(store), others, all_handles(store), h, n);
            } else {
                let shorter = path.drop_last();
                let c = path[path.len() - 2];
                assert forall|i: int| 0 <= i < shorter.len() implies 0 <= #[trigger] shorter[i]
                    < store.cells@.len() by {
                    assert(shorter[i] == path[i]);
                }
                assert forall|i: int| 0 <= i < shorter.len() - 1 implies all_handles(
                    store,
                )[#[trigger] shorter[i]].contains(shorter[i + 1] as usize) by {
                    assert(shorter[i] == path[i] && shorter[i + 1] == path[i + 1]);
                }
                assert(trail(store, shorter));
                assert(shorter.last() == c && shorter[0] == path[0]);
                assert(reachable(store, outside, c));
                assert(all_handles(store)[path[path.len() - 2]].contains(
                    path[path.len() - 2 + 1] as usize,
                ));
                assert(!others[c]);
                lemma_one_holder_left_out(all_handles(store), others, h, n, c);
            }
        }
    }
}

/// A collection takes nothing from what the program can still reach: it keeps
/// its elements. Nor does it reclaim a vector that is being written.
pub proof fn the_reachable_keep_their_elements(
    store: Store,
    roots: Seq<usize>,
    managed: Seq<bool>,
    outside: Seq<nat>,
    gone: Seq<bool>,
    after: Store,
    at: int,
)
    requires
        manages_vectors(store, managed),
        counts_add_up(store, outside),
        leaves_hold_nothing(store),
        just_gone(store, doomed(store, roots, managed), gone),
        without(store, gone, after),
        0 <= at < store.cells@.len(),
    ensures
        reachable(store, outside, at) ==> after.cells@[at].items == store.cells@[at].items,
        !store.cells@[at].readable ==> !doomed(store, roots, managed)[at],
{
    let count: usize = store.cells.len();
    assert(count == store.cells@.len());
    let others = Seq::new(store.cells@.len(), |x: int| !reachable(store, outside, x));
    lemma_the_reachable_stay(store, roots, managed, outside);
    if reachable(store, outside, at) {
        assert(!others[at]);
        assert(!gone[at]);
    }
    assert(after.cells@[at].kind == store.cells@[at].kind);
    if !store.cells@[at].readable && managed[at] {
        let path = seq![at];
        assert(starts(store, roots, managed).contains(at as usize));
        assert(followed(store, managed, nothing(store), at));
        assert(walk(store, managed, nothing(store), path));
        assert(path.last() == at);
        assert(live(store, roots, managed)[at]);
    }
}

/// Handle by handle, one allocation leads to another.
pub open spec fn leads(store: Store, from: int, to: int) -> bool {
    exists|path: Seq<int>| #[trigger] trail(store, path) && path[0] == from && path.last() == to
}

/// Whatever leads to this allocation, itself included, can be read, and is
/// managed if it is a vector that exists; and what has no handle holds none.
/// What does not lead to it may be borrowed or unmanaged, and a binding may be
/// borrowed or not registered.
pub open spec fn in_view(store: Store, managed: Seq<bool>, at: int) -> bool {
    forall|c: int|
        #![trigger store.cells@[c]]
        leads(store, c, at) ==> store.cells@[c].readable && (store.cells@[c].strong == 0
            ==> all_handles(store)[c].len() == 0) && (store.cells@[c].kind is Vector
            && store.cells@[c].strong > 0 ==> managed[c])
}

proof fn lemma_leads_from_before(store: Store, before: int, from: int, to: int)
    requires
        leads(store, from, to),
        0 <= before < store.cells@.len(),
        all_handles(store)[before].contains(from as usize),
    ensures
        leads(store, before, to),
{
    let path = choose|path: Seq<int>| #[trigger]
        trail(store, path) && path[0] == from && path.last() == to;
    let longer = seq![before] + path;
    assert forall|i: int| 0 <= i < longer.len() implies 0 <= #[trigger] longer[i]
        < store.cells@.len() by {
        if i > 0 {
            assert(longer[i] == path[i - 1]);
        }
    }
    assert forall|i: int| 0 <= i < longer.len() - 1 implies all_handles(
        store,
    )[#[trigger] longer[i]].contains(longer[i + 1] as usize) by {
        if i > 0 {
            assert(longer[i] == path[i - 1] && longer[i + 1] == path[i - 1 + 1]);
        } else {
            assert(longer[1] == path[0]);
        }
    }
    assert(trail(store, longer));
    assert(longer.last() == path.last());
}

/// Nothing but a vector can be made to hold what was built after it: whatever
/// else holds a handle to another of its sort was built later.
pub open spec fn built_in_order(store: Store, built: Seq<nat>, newest: nat) -> bool {
    &&& built.len() == store.cells@.len()
    &&& forall|i: int| 0 <= i < built.len() ==> #[trigger] built[i] <= newest
    &&& forall|i: int, j: int|
        #![trigger built[i], built[j]]
        0 <= i < built.len() && 0 <= j < built.len() && !(store.cells@[i].kind is Vector) && !(
        store.cells@[j].kind is Vector) && all_handles(store)[i].contains(j as usize) ==> built[j]
            < built[i]
}

proof fn lemma_reachable_goes_on(store: Store, outside: Seq<nat>, from: int, to: int)
    requires
        reachable(store, outside, from),
        0 <= to < store.cells@.len(),
        all_handles(store)[from].contains(to as usize),
    ensures
        reachable(store, outside, to),
{
    let path = choose|path: Seq<int>| #[trigger]
        trail(store, path) && path.last() == from && (outside[path[0]] > 0 || in_a_slot(
            store,
            path[0] as usize,
        ));
    let longer = path.push(to);
    assert forall|i: int| 0 <= i < longer.len() implies 0 <= #[trigger] longer[i]
        < store.cells@.len() by {
        if i < path.len() {
            assert(longer[i] == path[i]);
        }
    }
    assert forall|i: int| 0 <= i < longer.len() - 1 implies all_handles(
        store,
    )[#[trigger] longer[i]].contains(longer[i + 1] as usize) by {
        assert(longer[i] == path[i]);
        if i < path.len() - 1 {
            assert(longer[i + 1] == path[i + 1]);
        }
    }
    assert(trail(store, longer));
    assert(longer[0] == path[0]);
}

/// Something the program can reach, or something counted, holds a handle.
proof fn lemma_a_holder(store: Store, outside: Seq<nat>, at: int)
    requires
        0 <= at < store.cells@.len() <= usize::MAX,
        outside.len() == store.cells@.len(),
        outside[at] > 0 || in_a_slot(store, at as usize),
    ensures
        reachable(store, outside, at),
{
    let path = seq![at];
    assert(trail(store, path));
    assert(path.last() == at);
}

/// What counting missed of what leads to garbage in view is reachable.
proof fn lemma_uncounted_is_reachable(
    store: Store,
    roots: Seq<usize>,
    managed: Seq<bool>,
    outside: Seq<nat>,
    built: Seq<nat>,
    newest: nat,
    at: int,
    goal: int,
)
    requires
        manages_vectors(store, managed),
        counts_add_up(store, outside),
        in_view(store, managed, goal),
        leads(store, at, goal),
        built_in_order(store, built, newest),
        store.cells@.len() <= usize::MAX,
        0 <= at < store.cells@.len(),
        !counted(store, roots, managed)[at],
        store.cells@[at].strong > 0,
    ensures
        reachable(store, outside, at),
    decreases newest - built[at],
{
    let n = store.cells@.len() as int;
    let m = store.slots@.len() as int;
    let x = at as usize;
    let none = nothing(store);
    let from = sources(store, roots, managed);
    let chosen = counted(store, roots, managed);
    assert(!(store.cells@[at].kind is Vector));
    assert(followed(store, none, none, at));
    if outside[at] > 0 || in_a_slot(store, x) {
        lemma_a_holder(store, outside, at);
    } else {
        if references(all_slot_handles(store), every(store.slots@.len()), x, m) > 0 {
            let s = lemma_some_list(all_slot_handles(store), every(store.slots@.len()), x, m);
            assert(handles(store.slots@[s].item).contains(x));
            assert(in_a_slot(store, x));
        }
        let c = lemma_some_list(all_handles(store), every(store.cells@.len()), x, n);
        lemma_leads_from_before(store, c, at, goal);
        assert(store.cells@[c].readable);
        assert(readable_handles(store, c).contains(x));
        assert(all_handles(store)[c].len() > 0);
        if chosen[c] {
            if store.cells@[c].kind is Vector {
                assert(managed[c]);
                assert(kept_by_managed(store, managed, x));
                let path = seq![at];
                assert(walk(store, none, none, path));
                assert(path.last() == at);
            } else {
                lemma_walk_goes_on(store, none, none, from, c, at);
            }
            assert(chosen[at]);
        } else {
            assert(store.cells@[c].strong > 0);
            assert(built[c] <= newest && built[at] < built[c]);
            lemma_uncounted_is_reachable(
                store,
                roots,
                managed,
                outside,
                built,
                newest,
                c,
                goal,
            );
            lemma_reachable_goes_on(store, outside, c, at);
        }
    }
}

/// What marking starts from is reachable, where it leads to what is in view.
proof fn lemma_starts_are_reachable(
    store: Store,
    roots: Seq<usize>,
    managed: Seq<bool>,
    outside: Seq<nat>,
    built: Seq<nat>,
    newest: nat,
    at: int,
    goal: int,
)
    requires
        manages_vectors(store, managed),
        counts_add_up(store, outside),
        in_view(store, managed, goal),
        leads(store, at, goal),
        built_in_order(store, built, newest),
        0 <= at < store.cells@.len() <= usize::MAX,
        starts(store, roots, managed).contains(at as usize),
    ensures
        reachable(store, outside, at),
{
    let n = store.cells@.len() as int;
    let m = store.slots@.len() as int;
    let x = at as usize;
    let chosen = counted(store, roots, managed);
    if bound(store, roots, x) {
        let s = choose|s: int|
            #![trigger store.slots@[s]]
            0 <= s < store.slots@.len() && known(store, roots)[s] && handles(
                store.slots@[s].item,
            ).contains(x);
        assert(in_a_slot(store, x));
        lemma_a_holder(store, outside, at);
    } else {
        assert(store.cells@[at].readable);
        assert(short(store, roots, managed, at));
        if outside[at] > 0 || in_a_slot(store, x) {
            lemma_a_holder(store, outside, at);
        } else {
            if references(all_slot_handles(store), every(store.slots@.len()), x, m) > 0 {
                let s = lemma_some_list(all_slot_handles(store), every(store.slots@.len()), x, m);
                assert(handles(store.slots@[s].item).contains(x));
                assert(in_a_slot(store, x));
            }
            assert forall|i: int|
                #![trigger store.cells@[i]]
                0 <= i < n && all_handles(store)[i].contains(x) implies store.cells@[i].readable by {
                lemma_leads_from_before(store, i, at, goal);
            }
            let c = lemma_missed(store, chosen, x, n);
            lemma_leads_from_before(store, c, at, goal);
            assert(all_handles(store)[c].len() > 0);
            assert(store.cells@[c].strong > 0);
            assert(!(store.cells@[c].kind is Vector));
            lemma_uncounted_is_reachable(
                store,
                roots,
                managed,
                outside,
                built,
                newest,
                c,
                goal,
            );
            lemma_reachable_goes_on(store, outside, c, at);
        }
    }
}

/// Where some handles go uncounted, an allocation left out holds one.
proof fn lemma_missed(store: Store, chosen: Seq<bool>, x: usize, count: int) -> (at: int)
    requires
        0 <= count <= store.cells@.len(),
        chosen.len() == store.cells@.len(),
        forall|i: int|
            #![trigger store.cells@[i]]
            0 <= i < store.cells@.len() && all_handles(store)[i].contains(x)
                ==> store.cells@[i].readable,
        references(all_handles(store), every(store.cells@.len()), x, count) > references(
            all_readable_handles(store),
            chosen,
            x,
            count,
        ),
    ensures
        0 <= at < count,
        !chosen[at],
        all_handles(store)[at].contains(x),
    decreases count,
{
    let last = count - 1;
    lemma_times_of_one(all_handles(store)[last], x);
    if store.cells@[last].readable {
        assert(all_readable_handles(store)[last] == all_handles(store)[last]);
    }
    if !chosen[last] && times(all_handles(store)[last], x) > 0 {
        last
    } else {
        lemma_missed(store, chosen, x, last)
    }
}

/// A collection reclaims every vector the program can no longer reach, cycles
/// among them, where what leads to it is in view: whatever else is borrowed,
/// unmanaged or not registered does not save it.
pub proof fn everything_unreachable_is_reclaimed(
    store: Store,
    roots: Seq<usize>,
    managed: Seq<bool>,
    outside: Seq<nat>,
    built: Seq<nat>,
    newest: nat,
    at: int,
)
    requires
        manages_vectors(store, managed),
        counts_add_up(store, outside),
        in_view(store, managed, at),
        built_in_order(store, built, newest),
        0 <= at < store.cells@.len(),
        managed[at],
        !reachable(store, outside, at),
    ensures
        doomed(store, roots, managed)[at],
{
    let count: usize = store.cells.len();
    assert(count == store.cells@.len());
    if live(store, roots, managed)[at] {
        let from = starts(store, roots, managed);
        let path = choose|path: Seq<int>| #[trigger]
            walk(store, managed, nothing(store), path) && from.contains(path[0] as usize)
                && path.last() == at;
        assert(followed(store, managed, nothing(store), path[0]));
        assert forall|i: int| 0 <= i < path.len() - 1 implies all_handles(
            store,
        )[#[trigger] path[i]].contains(path[i + 1] as usize) by {
            assert(followed(store, managed, nothing(store), path[i]));
            assert(readable_handles(store, path[i]).contains(path[i + 1] as usize));
        }
        assert forall|i: int| 0 <= i < path.len() implies 0 <= #[trigger] path[i]
            < store.cells@.len() by {
            assert(followed(store, managed, nothing(store), path[i]));
        }
        assert(trail(store, path));
        assert(leads(store, path[0], at));
        lemma_starts_are_reachable(
            store,
            roots,
            managed,
            outside,
            built,
            newest,
            path[0],
            at,
        );
        lemma_reachable_along(store, managed, outside, path, path.len() - 1);
    }
}

proof fn lemma_reachable_along(
    store: Store,
    managed: Seq<bool>,
    outside: Seq<nat>,
    path: Seq<int>,
    at: int,
)
    requires
        walk(store, managed, nothing(store), path),
        reachable(store, outside, path[0]),
        0 <= at < path.len(),
    ensures
        reachable(store, outside, path[at]),
    decreases at,
{
    if at > 0 {
        lemma_reachable_along(store, managed, outside, path, at - 1);
        assert(followed(store, managed, nothing(store), path[at - 1]));
        assert(followed(store, managed, nothing(store), path[at]));
        assert(readable_handles(store, path[at - 1]).contains(path[at - 1 + 1] as usize));
        lemma_reachable_goes_on(store, outside, path[at - 1], path[at]);
    }
}

/// Where every list that holds a number is chosen, all of them are counted.
proof fn lemma_all_holders_chosen(
    lists: Seq<Seq<usize>>,
    chosen: Seq<bool>,
    x: usize,
    count: int,
)
    requires
        count <= lists.len(),
        forall|i: int|
            #![trigger lists[i]]
            0 <= i < lists.len() && lists[i].contains(x) ==> chosen[i],
    ensures
        references(lists, chosen, x, count) == references(lists, every(lists.len()), x, count),
    decreases count,
{
    if count > 0 {
        lemma_all_holders_chosen(lists, chosen, x, count - 1);
        lemma_times_of_one(lists[count - 1], x);
    }
}

/// Where only the dead hold it and all of them go, nothing is left of it.
proof fn lemma_every_handle_goes(
    store: Store,
    roots: Seq<usize>,
    managed: Seq<bool>,
    outside: Seq<nat>,
    gone: Seq<bool>,
    at: int,
)
    requires
        manages_vectors(store, managed),
        counts_add_up(store, outside),
        leaves_hold_nothing(store),
        0 <= at < store.cells@.len() <= usize::MAX,
        dead(store, roots, managed, at),
        forall|c: int|
            #![trigger all_handles(store)[c]]
            0 <= c < store.cells@.len() && all_handles(store)[c].contains(at as usize) ==> gone[c],
    ensures
        references(all_handles(store), gone, at as usize, store.cells@.len() as int)
            == store.cells@[at].strong,
{
    let m = store.slots@.len() as int;
    let x = at as usize;
    lemma_the_dead_are_held_by_the_dead(store, roots, managed, outside, at);
    lemma_all_holders_chosen(all_handles(store), gone, x, store.cells@.len() as int);
    if references(all_slot_handles(store), every(store.slots@.len()), x, m) > 0 {
        let s = lemma_some_list(all_slot_handles(store), every(store.slots@.len()), x, m);
        assert(handles(store.slots@[s].item).contains(x));
        assert(in_a_slot(store, x));
    }
}

/// The dead all go with the vectors among them.
proof fn lemma_the_dead_go(
    store: Store,
    roots: Seq<usize>,
    managed: Seq<bool>,
    outside: Seq<nat>,
    built: Seq<nat>,
    newest: nat,
    gone: Seq<bool>,
    at: int,
)
    requires
        manages_vectors(store, managed),
        counts_add_up(store, outside),
        leaves_hold_nothing(store),
        built_in_order(store, built, newest),
        all_gone(store, doomed(store, roots, managed), gone),
        0 <= at < store.cells@.len() <= usize::MAX,
        dead(store, roots, managed, at),
    ensures
        gone[at],
    decreases newest - built[at],
{
    let n = store.cells@.len() as int;
    let x = at as usize;
    if store.cells@[at].kind is Vector {
        assert(doomed(store, roots, managed)[at]);
    } else {
        lemma_the_dead_are_held_by_the_dead(store, roots, managed, outside, at);
        assert forall|c: int|
            #![trigger all_handles(store)[c]]
            0 <= c < n && all_handles(store)[c].contains(x) implies gone[c] by {
            if store.cells@[c].kind is Vector {
                assert(doomed(store, roots, managed)[c]);
            } else {
                assert(built[c] <= newest && built[at] < built[c]);
                lemma_the_dead_go(
                    store,
                    roots,
                    managed,
                    outside,
                    built,
                    newest,
                    gone,
                    c,
                );
            }
        }
        lemma_every_handle_goes(store, roots, managed, outside, gone, at);
        let chosen = counted(store, roots, managed);
        assert forall|i: int| 0 <= i < n implies #[trigger] all_readable_handles(store)[i]
            == all_handles(store)[i] || all_readable_handles(store)[i].len() == 0 by {}
        lemma_none_more(all_readable_handles(store), chosen, all_handles(store), x, n);
        lemma_none_more(
            all_slot_handles(store),
            known(store, roots),
            all_slot_handles(store),
            x,
            store.slots@.len() as int,
        );
        assert(store.cells@[at].strong > 0);
        assert(goes(store, gone, at));
    }
}

/// What a collection reclaims is freed: its contents go, and with them the
/// last handle to it, a cycle's included.
pub proof fn what_is_reclaimed_is_freed(
    store: Store,
    roots: Seq<usize>,
    managed: Seq<bool>,
    outside: Seq<nat>,
    built: Seq<nat>,
    newest: nat,
    gone: Seq<bool>,
    after: Store,
    at: int,
)
    requires
        manages_vectors(store, managed),
        counts_add_up(store, outside),
        leaves_hold_nothing(store),
        built_in_order(store, built, newest),
        just_gone(store, doomed(store, roots, managed), gone),
        without(store, gone, after),
        0 <= at < store.cells@.len(),
        doomed(store, roots, managed)[at],
    ensures
        after.cells@[at].strong == 0,
        after.cells@[at].items@.len() == 0,
{
    let count: usize = store.cells.len();
    assert(count == store.cells@.len());
    assert(dead(store, roots, managed, at));
    lemma_the_dead_are_held_by_the_dead(store, roots, managed, outside, at);
    assert forall|c: int|
        #![trigger all_handles(store)[c]]
        0 <= c < store.cells@.len() && all_handles(store)[c].contains(
            at as usize,
        ) implies gone[c] by {
        lemma_the_dead_go(store, roots, managed, outside, built, newest, gone, c);
    }
    lemma_every_handle_goes(store, roots, managed, outside, gone, at);
    assert(gone[at]);
}

proof fn lemma_fewer_handles(before: Store, gone: Seq<bool>, after: Store, x: usize, count: int)
    requires
        gone.len() == before.cells@.len(),
        without(before, gone, after),
        count <= before.cells@.len(),
    ensures
        references(all_handles(after), every(after.cells@.len()), x, count) + references(
            all_handles(before),
            gone,
            x,
            count,
        ) == references(all_handles(before), every(before.cells@.len()), x, count),
    decreases count,
{
    if count > 0 {
        lemma_fewer_handles(before, gone, after, x, count - 1);
        let last = after.cells@[count - 1];
        assert(gone[count - 1] ==> all_handles(after)[count - 1] =~= Seq::<usize>::empty());
    }
}

/// A collection leaves every count right, so that the next one can rely on
/// them.
pub proof fn a_collection_keeps_the_counts_right(
    before: Store,
    outside: Seq<nat>,
    gone: Seq<bool>,
    after: Store,
)
    requires
        counts_add_up(before, outside),
        gone.len() == before.cells@.len(),
        without(before, gone, after),
    ensures
        counts_add_up(after, outside),
{
    let n = before.cells@.len() as int;
    assert(all_slot_handles(after) =~= all_slot_handles(before));
    assert forall|x: int| #![trigger after.cells@[x]] 0 <= x < n implies after.cells@[x].strong
        == references(
        all_handles(after),
        every(after.cells@.len()),
        x as usize,
        n,
    ) + references(
        all_slot_handles(after),
        every(after.slots@.len()),
        x as usize,
        after.slots@.len() as int,
    ) + outside[x] by {
        lemma_fewer_handles(before, gone, after, x as usize, n);
        let same = before.cells@[x];
    }
}

/// The vectors the heap manages that the program can no longer reach.
pub open spec fn garbage(store: Store, managed: Seq<bool>, outside: Seq<nat>) -> Set<int> {
    Set::new(
        |at: int| 0 <= at < store.cells@.len() && managed[at] && !reachable(store, outside, at),
    )
}

/// Which of some flags are raised.
spec fn raised(flags: Seq<bool>) -> Set<int> {
    Set::new(|i: int| 0 <= i < flags.len() && flags[i])
}

proof fn lemma_raised(flags: Seq<bool>)
    ensures
        raised(flags).finite(),
        raised(flags).len() == how_many(flags),
        how_many(flags) <= flags.len(),
    decreases flags.len(),
{
    if flags.len() == 0 {
        assert(raised(flags) =~= Set::empty());
    } else {
        let fewer = flags.drop_last();
        let last = flags.len() - 1;
        lemma_raised(fewer);
        if flags.last() {
            assert(raised(flags) =~= raised(fewer).insert(last));
        } else {
            assert(raised(flags) =~= raised(fewer));
        }
    }
}

/// A collection frees as many objects as the program can no longer reach: each
/// of them, and nothing else, and it tracks none of them any more, where what
/// leads to them is in view.
pub proof fn as_many_are_freed_as_cannot_be_reached(
    store: Store,
    roots: Seq<usize>,
    managed: Seq<bool>,
    outside: Seq<nat>,
    built: Seq<nat>,
    newest: nat,
    allocated: u64,
    pause: u64,
)
    requires
        manages_vectors(store, managed),
        counts_add_up(store, outside),
        leaves_hold_nothing(store),
        built_in_order(store, built, newest),
        forall|at: int| #[trigger]
            garbage(store, managed, outside).contains(at) ==> in_view(store, managed, at),
    ensures
        garbage(store, managed, outside).finite(),
        collection_of(store, roots, managed, allocated, pause).freed_objects == garbage(
            store,
            managed,
            outside,
        ).len(),
        forall|at: int| 0 <= at < store.cells@.len() ==> #[trigger] doomed(store, roots, managed)[at]
            == garbage(store, managed, outside).contains(at),
        forall|at: int| #[trigger]
            garbage(store, managed, outside).contains(at) ==> !surviving(store, roots, managed)[at],
{
    let flags = doomed(store, roots, managed);
    let lost = garbage(store, managed, outside);
    assert forall|at: int| 0 <= at < store.cells@.len() implies #[trigger] flags[at]
        == lost.contains(at) by {
        if flags[at] {
            nothing_reachable_is_reclaimed(store, roots, managed, outside, at);
        }
        if lost.contains(at) {
            everything_unreachable_is_reclaimed(
                store,
                roots,
                managed,
                outside,
                built,
                newest,
                at,
            );
        }
    }
    assert(raised(flags) =~= lost);
    lemma_raised(flags);
    let count: usize = store.cells.len();
    assert(count == store.cells@.len());
    assert forall|at: int| #[trigger] lost.contains(at) implies !surviving(
        store,
        roots,
        managed,
    )[at] by {
        assert(flags[at]);
    }
}

/// The totals after several collections.
pub open spec fn having_collected_all(stats: HeapStats, collections: Seq<Collection>) -> HeapStats
    decreases collections.len(),
{
    if collections.len() == 0 {
        stats
    } else {
        having_collected(
            having_collected_all(stats, collections.drop_last()),
            collections.last(),
        )
    }
}

/// How many objects several collections freed.
pub open spec fn freed_in_all(collections: Seq<Collection>) -> nat
    decreases collections.len(),
{
    if collections.len() == 0 {
        0
    } else {
        freed_in_all(collections.drop_last()) + collections.last().freed_objects as nat
    }
}

/// How long a program stood still for several collections.
pub open spec fn paused_in_all(collections: Seq<Collection>) -> nat
    decreases collections.len(),
{
    if collections.len() == 0 {
        0
    } else {
        paused_in_all(collections.drop_last()) + collections.last().pause as nat
    }
}

/// The totals add up over several collections: how many there were, what they
/// freed and how long they took are sums; what is live is what the last one
/// found; and the peak is the most that was ever live, and was live once.
pub proof fn totals_add_up(stats: HeapStats, collections: Seq<Collection>)
    ensures
        ({
            let after = having_collected_all(stats, collections);
            &&& after.collections == crate::budget::tallied(
                stats.collections as int,
                collections.len() as int,
            )
            &&& after.freed_objects == crate::budget::tallied(
                stats.freed_objects as int,
                freed_in_all(collections) as int,
            )
            &&& after.pause == crate::budget::tallied(
                stats.pause as int,
                paused_in_all(collections) as int,
            )
            &&& after.allocated_objects == stats.allocated_objects
            &&& after.allocated_bytes == stats.allocated_bytes
            &&& collections.len() > 0 ==> after.live_objects == collections.last().live_objects
                && after.live_bytes == collections.last().live_bytes
            &&& collections.len() == 0 ==> after.live_objects == stats.live_objects
                && after.live_bytes == stats.live_bytes
            &&& after.peak_bytes >= stats.peak_bytes
            &&& forall|i: int|
                0 <= i < collections.len() ==> after.peak_bytes >= (
                #[trigger] collections[i]).live_bytes
            &&& after.peak_bytes == stats.peak_bytes || exists|i: int|
                0 <= i < collections.len() && after.peak_bytes == (
                #[trigger] collections[i]).live_bytes
        }),
    decreases collections.len(),
{
    if collections.len() > 0 {
        let fewer = collections.drop_last();
        totals_add_up(stats, fewer);
        let before = having_collected_all(stats, fewer);
        let after = having_collected_all(stats, collections);
        assert forall|i: int| 0 <= i < collections.len() implies after.peak_bytes >= (
        #[trigger] collections[i]).live_bytes by {
            if i < collections.len() - 1 {
                assert(fewer[i] == collections[i]);
            }
        }
        if after.peak_bytes != stats.peak_bytes {
            if before.peak_bytes >= collections.last().live_bytes {
                let i = choose|i: int|
                    0 <= i < fewer.len() && before.peak_bytes == (#[trigger] fewer[i]).live_bytes;
                assert(collections[i] == fewer[i]);
            } else {
                assert(collections[collections.len() - 1].live_bytes == after.peak_bytes);
            }
        }
    }
}

/// The count of allocations since the last collection, after so many more.
pub open spec fn after_allocations(since: u64, count: nat) -> u64
    decreases count,
{
    if count == 0 {
        since
    } else {
        crate::budget::tallied(
            after_allocations(since, (count - 1) as nat) as int,
            1,
        ) as u64
    }
}

/// When a collection becomes due: after as many allocations as the least
/// between two, or as twice the objects the last collection left, whichever is
/// more; and so from the start, with nothing left by any.
pub proof fn a_collection_is_due_after_so_many_allocations(live_objects: nat, count: nat)
    requires
        live_objects * GROWTH_FACTOR as nat <= u64::MAX,
    ensures
        (after_allocations(0, count) >= next_due(live_objects)) == (count
            >= MIN_ALLOCATIONS_BETWEEN_COLLECTIONS && count >= live_objects * GROWTH_FACTOR as nat),
        (after_allocations(0, count) >= MIN_ALLOCATIONS_BETWEEN_COLLECTIONS) == (count
            >= MIN_ALLOCATIONS_BETWEEN_COLLECTIONS),
        next_due(0) == MIN_ALLOCATIONS_BETWEEN_COLLECTIONS,
{
    lemma_after_allocations(count);
}

proof fn lemma_after_allocations(count: nat)
    ensures
        after_allocations(0, count) == crate::budget::tallied(0, count as int),
    decreases count,
{
    if count > 0 {
        lemma_after_allocations((count - 1) as nat);
    }
}

proof fn lemma_one_holds(
    lists: Seq<Seq<usize>>,
    chosen: Seq<bool>,
    x: usize,
    count: int,
    holder: int,
)
    requires
        0 <= holder,
        chosen[holder],
        forall|c: int|
            #![trigger lists[c]]
            0 <= c < count && c != holder && chosen[c] ==> times(lists[c], x) == 0,
    ensures
        references(lists, chosen, x, count) == (if holder < count {
            times(lists[holder], x)
        } else {
            0
        }),
    decreases count,
{
    if count > 0 {
        lemma_one_holds(lists, chosen, x, count - 1, holder);
    }
}

/// What an allocation holds is counted once, however many handles lead to it:
/// where nothing else that is counted holds a handle to `x`, it is seen as
/// often as this one allocation holds it.
pub proof fn what_is_shared_is_counted_once(
    store: Store,
    roots: Seq<usize>,
    managed: Seq<bool>,
    holder: int,
    x: usize,
)
    requires
        0 <= holder < store.cells@.len(),
        counted(store, roots, managed)[holder],
        forall|c: int|
            #![trigger all_readable_handles(store)[c]]
            0 <= c < store.cells@.len() && c != holder && counted(store, roots, managed)[c]
                ==> times(all_readable_handles(store)[c], x) == 0,
        forall|i: int|
            #![trigger all_slot_handles(store)[i]]
            0 <= i < store.slots@.len() && known(store, roots)[i] ==> times(
                all_slot_handles(store)[i],
                x,
            ) == 0,
    ensures
        sighted(store, roots, managed, x) == times(all_readable_handles(store)[holder], x),
{
    lemma_one_holds(
        all_readable_handles(store),
        counted(store, roots, managed),
        x,
        store.cells@.len() as int,
        holder,
    );
    lemma_none_hold(
        all_slot_handles(store),
        known(store, roots),
        x,
        store.slots@.len() as int,
    );
}

proof fn lemma_none_hold(lists: Seq<Seq<usize>>, chosen: Seq<bool>, x: usize, count: int)
    requires
        forall|c: int|
            #![trigger lists[c]]
            0 <= c < count && chosen[c] ==> times(lists[c], x) == 0,
    ensures
        references(lists, chosen, x, count) == 0,
    decreases count,
{
    if count > 0 {
        lemma_none_hold(lists, chosen, x, count - 1);
    }
}

/// A handle is counted where it stands: an allocation that only the bindings
/// name is seen as often as they hold a handle to it, whatever it holds itself;
/// and one that nothing counted names is not seen at all.
pub proof fn a_binding_is_counted_for_each_handle(
    store: Store,
    roots: Seq<usize>,
    managed: Seq<bool>,
    x: usize,
)
    requires
        forall|c: int|
            #![trigger all_readable_handles(store)[c]]
            0 <= c < store.cells@.len() && counted(store, roots, managed)[c] ==> times(
                all_readable_handles(store)[c],
                x,
            ) == 0,
    ensures
        sighted(store, roots, managed, x) == references(
            all_slot_handles(store),
            known(store, roots),
            x,
            store.slots@.len() as int,
        ),
        (forall|i: int|
            #![trigger all_slot_handles(store)[i]]
            0 <= i < store.slots@.len() && known(store, roots)[i] ==> times(
                all_slot_handles(store)[i],
                x,
            ) == 0) ==> sighted(store, roots, managed, x) == 0,
{
    lemma_none_hold(
        all_readable_handles(store),
        counted(store, roots, managed),
        x,
        store.cells@.len() as int,
    );
    if forall|i: int|
        #![trigger all_slot_handles(store)[i]]
        0 <= i < store.slots@.len() && known(store, roots)[i] ==> times(
            all_slot_handles(store)[i],
            x,
        ) == 0 {
        lemma_none_hold(
            all_slot_handles(store),
            known(store, roots),
            x,
            store.slots@.len() as int,
        );
    }
}

/// The handles of a value are its own: a leaf has none, a handle is one, and a
/// struct and a case have those of all they hold, in order.
pub proof fn the_handles_of_a_value_are_those_of_all_it_holds(
    id: usize,
    fields: Seq<(u64, Item)>,
    field: (u64, Item),
    payload: Seq<Item>,
    item: Item,
)
    ensures
        handles(Item::Leaf) == Seq::<usize>::empty(),
        handles(Item::Handle(id)) == seq![id],
        forall|held: Vec<(u64, Item)>|
            held@ == fields.push(field) ==> #[trigger] handles(Item::Struct(held))
                == labelled_handles(fields) + handles(field.1),
        forall|held: Vec<Item>|
            held@ == payload.push(item) ==> #[trigger] handles(Item::Enum(held))
                == payload_handles(payload) + handles(item),
        labelled_handles(fields.push(field)) == labelled_handles(fields) + handles(field.1),
        payload_handles(payload.push(item)) == payload_handles(payload) + handles(item),
        labelled_handles(Seq::empty()) == Seq::<usize>::empty(),
        payload_handles(Seq::empty()) == Seq::<usize>::empty(),
{
    assert(fields.push(field).drop_last() =~= fields);
    assert(payload.push(item).drop_last() =~= payload);
}

/// The bytes of items add up, one by one: so many each, those of a label where
/// labels are counted, and what each holds in place.
pub proof fn bytes_add_up_item_by_item(
    items: Seq<(u64, Item)>,
    last: (u64, Item),
    payload: Seq<Item>,
    item: Item,
    each: nat,
)
    ensures
        labelled_weight(Seq::empty(), each, true) == 0,
        labelled_weight(Seq::empty(), each, false) == 0,
        labelled_weight(items.push(last), each, true) == labelled_weight(items, each, true) + each
            + last.0 + weight(last.1),
        labelled_weight(items.push(last), each, false) == labelled_weight(items, each, false)
            + each + weight(last.1),
        payload_weight(Seq::empty()) == 0,
        payload_weight(payload.push(item)) == payload_weight(payload) + 16 + weight(item),
{
    assert(items.push(last).drop_last() =~= items);
    assert(payload.push(item).drop_last() =~= payload);
}

/// What each value takes in place: nothing for what only names, and the bytes
/// of a struct or a case and of what it holds otherwise.
pub proof fn what_a_value_takes_in_place(id: usize, fields: Vec<(u64, Item)>, payload: Vec<Item>)
    ensures
        weight(Item::Leaf) == 0,
        weight(Item::Handle(id)) == 0,
        weight(Item::Struct(fields)) == 48 + labelled_weight(fields@, 16, true),
        weight(Item::Enum(payload)) == 56 + payload_weight(payload@),
{
}

/// What each shared allocation takes: its own bytes, and, where it can be read,
/// those of what it holds.
pub proof fn what_an_allocation_takes(cell: Allocation)
    ensures
        cell.readable && cell.kind == Kind::Vector ==> cell_weight(cell) == 32 + labelled_weight(
            cell.items@,
            16,
            false,
        ),
        cell.readable && cell.kind == Kind::Array ==> cell_weight(cell) == labelled_weight(
            cell.items@,
            16,
            false,
        ),
        cell.readable && cell.kind == Kind::Table ==> cell_weight(cell) == labelled_weight(
            cell.items@,
            16,
            true,
        ),
        cell.readable && cell.kind == Kind::Keys ==> cell_weight(cell) == labelled_weight(
            cell.items@,
            0,
            true,
        ),
        cell.readable && cell.kind == Kind::Closure ==> cell_weight(cell) == 64 + labelled_weight(
            cell.items@,
            16,
            true,
        ),
        cell.readable && cell.kind == Kind::Dyn ==> cell_weight(cell) == 40 + labelled_weight(
            cell.items@,
            0,
            false,
        ),
        cell.readable && cell.kind == Kind::Task ==> cell_weight(cell) == 96 + labelled_weight(
            cell.items@,
            0,
            false,
        ),
        cell.readable && cell.kind == Kind::Scope ==> cell_weight(cell) == 32 + labelled_weight(
            cell.items@,
            0,
            false,
        ),
        cell.kind matches Kind::Text(length) ==> cell_weight(cell) == length,
        !cell.readable && cell.kind == Kind::Vector ==> cell_weight(cell) == 32,
        !cell.readable && cell.kind == Kind::Closure ==> cell_weight(cell) == 64,
        !cell.readable && cell.kind == Kind::Dyn ==> cell_weight(cell) == 40,
        !cell.readable && cell.kind == Kind::Task ==> cell_weight(cell) == 96,
        !cell.readable && cell.kind == Kind::Scope ==> cell_weight(cell) == 32,
        !cell.readable && (cell.kind == Kind::Array || cell.kind == Kind::Table || cell.kind
            == Kind::Keys) ==> cell_weight(cell) == 0,
        vector_weight(cell) == 32 + (if cell.readable {
            16 * cell.items@.len()
        } else {
            0
        }),
{
    assert(labelled_weight(Seq::empty(), 16, true) == 0);
    assert(labelled_weight(Seq::empty(), 16, false) == 0);
    assert(labelled_weight(Seq::empty(), 0, true) == 0);
    assert(labelled_weight(Seq::empty(), 0, false) == 0);
}

/// The bytes of keys add up, one by one, and of each the bytes of its names and
/// of the keys in it.
pub proof fn the_bytes_of_keys_add_up(
    keys: Seq<MapKey>,
    key: MapKey,
    fields: Seq<(u64, MapKey)>,
    field: (u64, MapKey),
    pairs: Seq<(MapKey, MapKey)>,
    pair: (MapKey, MapKey),
)
    ensures
        keys_weight(Seq::empty()) == 0,
        keys_weight(keys.push(key)) == keys_weight(keys) + key_weight(key),
        fields_weight(Seq::empty()) == 0,
        fields_weight(fields.push(field)) == fields_weight(fields) + field.0 + key_weight(field.1),
        pairs_weight(Seq::empty()) == 0,
        pairs_weight(pairs.push(pair)) == pairs_weight(pairs) + key_weight(pair.0) + key_weight(
            pair.1,
        ),
        key_weight(key) == 32 + (match key {
            MapKey::Plain => 0,
            MapKey::Str(length) => length as nat,
            MapKey::EnumCase(ty, case, payload) => (ty + case + keys_weight(payload@)) as nat,
            MapKey::Struct(ty, held) => (ty + fields_weight(held@)) as nat,
            MapKey::Array(items) => keys_weight(items@),
            MapKey::Keys(items) => keys_weight(items@),
            MapKey::Table(held) => pairs_weight(held@),
        }),
{
    assert(keys.push(key).drop_last() =~= keys);
    assert(fields.push(field).drop_last() =~= fields);
    assert(pairs.push(pair).drop_last() =~= pairs);
}

/// A collection is due after 64 allocations, or after twice as many as the last
/// one left, whichever is more.
pub proof fn a_collection_is_due_at_twice_what_was_left(live_objects: nat)
    requires
        2 * live_objects <= 0xffff_ffff_ffff_ffff,
    ensures
        next_due(live_objects) >= 64,
        next_due(live_objects) >= 2 * live_objects,
        next_due(live_objects) == 64 || next_due(live_objects) == 2 * live_objects,
{
}

/// Folding in another heap's totals adds what it allocated, collected, freed
/// and paused, keeps the greater peak, and leaves what is live as it was.
pub proof fn totals_are_folded_in(a: HeapStats, b: HeapStats)
    ensures
        ({
            let all = a.merged(b);
            &&& a.allocated_objects + b.allocated_objects <= u64::MAX ==> all.allocated_objects
                == a.allocated_objects + b.allocated_objects
            &&& a.allocated_bytes + b.allocated_bytes <= u64::MAX ==> all.allocated_bytes
                == a.allocated_bytes + b.allocated_bytes
            &&& a.collections + b.collections <= u64::MAX ==> all.collections == a.collections
                + b.collections
            &&& a.freed_objects + b.freed_objects <= u64::MAX ==> all.freed_objects
                == a.freed_objects + b.freed_objects
            &&& a.pause + b.pause <= u64::MAX ==> all.pause == a.pause + b.pause
            &&& all.peak_bytes >= a.peak_bytes && all.peak_bytes >= b.peak_bytes
            &&& all.peak_bytes == a.peak_bytes || all.peak_bytes == b.peak_bytes
            &&& all.live_objects == a.live_objects
            &&& all.live_bytes == a.live_bytes
        }),
        a.merged(HeapStats::none()) == a,
{
}

/// What is counted is counted one by one: as many flags as are raised, and the
/// bytes of each allocation that is marked and of each binding that is known.
pub proof fn what_is_counted_is_counted_one_by_one(
    flags: Seq<bool>,
    last: bool,
    store: Store,
    marked: Seq<bool>,
    at: int,
    list: Seq<usize>,
    x: usize,
    y: usize,
)
    requires
        0 <= at,
    ensures
        how_many(Seq::<bool>::empty()) == 0,
        how_many(flags.push(last)) == how_many(flags) + (if last {
            1nat
        } else {
            0
        }),
        marked_weight(store, marked, 0) == 0,
        marked_weight(store, marked, at + 1) == marked_weight(store, marked, at) + (if marked[at] {
            cell_weight(store.cells@[at])
        } else {
            0
        }),
        bound_weight(store, marked, 0) == 0,
        bound_weight(store, marked, at + 1) == bound_weight(store, marked, at) + (if marked[at] {
            weight(store.slots@[at].item)
        } else {
            0
        }),
        times(Seq::<usize>::empty(), x) == 0,
        times(list.push(y), x) == times(list, x) + (if x == y {
            1nat
        } else {
            0
        }),
{
    assert(flags.push(last).drop_last() =~= flags);
    assert(list.push(y).drop_last() =~= list);
}

/// What a collection reports of what it manages is all of it: what it freed and
/// what is still live are together what it managed.
pub proof fn what_is_freed_and_what_is_live_is_all(
    store: Store,
    roots: Seq<usize>,
    managed: Seq<bool>,
    allocated: u64,
    pause: u64,
)
    requires
        managed.len() == store.cells@.len(),
    ensures
        ({
            let done = collection_of(store, roots, managed, allocated, pause);
            &&& done.freed_objects + done.live_objects == how_many(managed)
            &&& done.allocated == allocated
            &&& done.pause == pause
        }),
        forall|i: int|
            0 <= i < managed.len() ==> #[trigger] managed[i] == (doomed(store, roots, managed)[i]
                || surviving(store, roots, managed)[i]),
        forall|i: int|
            0 <= i < managed.len() ==> !(#[trigger] doomed(store, roots, managed)[i] && surviving(
                store,
                roots,
                managed,
            )[i]),
{
    let gone = doomed(store, roots, managed);
    let kept = surviving(store, roots, managed);
    lemma_how_many_of_two(managed, gone, kept);
    lemma_raised(gone);
    lemma_raised(kept);
    let count: usize = store.cells.len();
    assert(count == store.cells@.len());
    assert(usize::MAX <= u64::MAX);
}

proof fn lemma_how_many_of_two(all: Seq<bool>, a: Seq<bool>, b: Seq<bool>)
    requires
        a.len() == all.len(),
        b.len() == all.len(),
        forall|i: int| 0 <= i < all.len() ==> #[trigger] all[i] == (a[i] || b[i]) && !(a[i] && b[i]),
    ensures
        how_many(all) == how_many(a) + how_many(b),
    decreases all.len(),
{
    if all.len() > 0 {
        let x = all.drop_last();
        let y = a.drop_last();
        let z = b.drop_last();
        assert forall|i: int| 0 <= i < x.len() implies #[trigger] x[i] == (y[i] || z[i]) && !(y[i]
            && z[i]) by {
            assert(all[i] == (a[i] || b[i]));
        }
        lemma_how_many_of_two(x, y, z);
        assert(all[all.len() - 1] == (a[all.len() - 1] || b[all.len() - 1]));
    }
}

/// What is reclaimed is lost, with every text, array, map and the like that
/// can be read out of what is lost; and no vector is lost but those that are
/// reclaimed.
pub proof fn what_is_lost_goes_on_from_what_is_reclaimed(
    store: Store,
    roots: Seq<usize>,
    managed: Seq<bool>,
    i: int,
    j: int,
)
    requires
        manages_vectors(store, managed),
        0 <= i < store.cells@.len(),
        0 <= j < store.cells@.len(),
    ensures
        doomed(store, roots, managed)[i] ==> lost(store, roots, managed)[i],
        lost(store, roots, managed)[i] && store.cells@[i].kind is Vector ==> doomed(
            store,
            roots,
            managed,
        )[i],
        lost(store, roots, managed)[i] && readable_handles(store, i).contains(j as usize) && !(
        store.cells@[j].kind is Vector) ==> lost(store, roots, managed)[j],
{
    let count: usize = store.cells.len();
    assert(count == store.cells@.len());
    let left_out = live(store, roots, managed);
    let from = Set::new(
        |h: usize| h < store.cells@.len() && doomed(store, roots, managed)[h as int],
    );
    if doomed(store, roots, managed)[i] {
        let path = seq![i];
        assert(walk(store, managed, left_out, path));
        assert(from.contains(path[0] as usize));
        assert(path.last() == i);
    }
    if lost(store, roots, managed)[i] {
        let path = choose|path: Seq<int>| #[trigger]
            walk(store, managed, left_out, path) && from.contains(path[0] as usize) && path.last()
                == i;
        assert(followed(store, managed, left_out, path[path.len() - 1]));
        if readable_handles(store, i).contains(j as usize) && !(store.cells@[j].kind is Vector) {
            let longer = path.push(j);
            assert forall|k: int| 0 <= k < longer.len() implies followed(
                store,
                managed,
                left_out,
                #[trigger] longer[k],
            ) by {
                if k < path.len() {
                    assert(followed(store, managed, left_out, path[k]));
                }
            }
            assert forall|k: int| 0 <= k < longer.len() - 1 implies readable_handles(
                store,
                #[trigger] longer[k],
            ).contains(longer[k + 1] as usize) by {
                if k < path.len() - 1 {
                    assert(readable_handles(store, path[k]).contains(path[k + 1] as usize));
                } else {
                    assert(longer[k] == i && longer[k + 1] == j);
                }
            }
            assert(walk(store, managed, left_out, longer));
            assert(longer[0] == path[0]);
            assert(longer.last() == j);
        }
    }
}

/// What a registered binding that can be read holds is live, and so is what can
/// be read out of what is live; a vector, though, only where the heap manages
/// it.
pub proof fn what_is_live_goes_on_from_the_bindings(
    store: Store,
    roots: Seq<usize>,
    managed: Seq<bool>,
    slot: int,
    i: int,
    j: int,
)
    requires
        managed.len() == store.cells@.len(),
        0 <= slot < store.slots@.len(),
        0 <= i < store.cells@.len(),
        0 <= j < store.cells@.len(),
        store.cells@[j].kind is Vector ==> managed[j],
    ensures
        roots.contains(slot as usize) && store.slots@[slot].readable && handles(
            store.slots@[slot].item,
        ).contains(j as usize) ==> live(store, roots, managed)[j],
        live(store, roots, managed)[i] && readable_handles(store, i).contains(j as usize)
            ==> live(store, roots, managed)[j],
        managed[i] && !store.cells@[i].readable && (store.cells@[i].kind is Vector ==> managed[i])
            ==> live(store, roots, managed)[i],
{
    let count: usize = store.cells.len();
    assert(count == store.cells@.len());
    let none = nothing(store);
    let from = starts(store, roots, managed);
    if roots.contains(slot as usize) && store.slots@[slot].readable && handles(
        store.slots@[slot].item,
    ).contains(j as usize) {
        let path = seq![j];
        assert(known(store, roots)[slot]);
        assert(bound(store, roots, j as usize));
        assert(from.contains(path[0] as usize));
        assert(walk(store, managed, none, path));
        assert(path.last() == j);
    }
    if managed[i] && !store.cells@[i].readable {
        let path = seq![i];
        assert(from.contains(path[0] as usize));
        assert(walk(store, managed, none, path));
        assert(path.last() == i);
    }
    if live(store, roots, managed)[i] && readable_handles(store, i).contains(j as usize) {
        let path = choose|path: Seq<int>| #[trigger]
            walk(store, managed, none, path) && from.contains(path[0] as usize) && path.last()
                == i;
        let longer = path.push(j);
        assert forall|k: int| 0 <= k < longer.len() implies followed(
            store,
            managed,
            none,
            #[trigger] longer[k],
        ) by {
            if k < path.len() {
                assert(followed(store, managed, none, path[k]));
            }
        }
        assert forall|k: int| 0 <= k < longer.len() - 1 implies readable_handles(
            store,
            #[trigger] longer[k],
        ).contains(longer[k + 1] as usize) by {
            if k < path.len() - 1 {
                assert(readable_handles(store, path[k]).contains(path[k + 1] as usize));
            } else {
                assert(longer[k] == i && longer[k + 1] == j);
            }
        }
        assert(walk(store, managed, none, longer));
        assert(longer[0] == path[0]);
        assert(longer.last() == j);
    }
}

/// A collection reads the bindings that are registered and not being written,
/// and no others; what it reports to be live is the bytes those hold in place
/// and those of everything live, and what it reports to be freed the bytes of
/// everything lost.
pub proof fn a_collection_reports_what_it_read(
    store: Store,
    roots: Seq<usize>,
    managed: Seq<bool>,
    allocated: u64,
    pause: u64,
    slot: int,
)
    requires
        0 <= slot < store.slots@.len(),
    ensures
        known(store, roots)[slot] <==> roots.contains(slot as usize)
            && store.slots@[slot].readable,
        ({
            let done = collection_of(store, roots, managed, allocated, pause);
            let live_bytes = bound_weight(
                store,
                known(store, roots),
                store.slots@.len() as int,
            ) + marked_weight(store, live(store, roots, managed), store.cells@.len() as int);
            let freed_bytes = marked_weight(
                store,
                lost(store, roots, managed),
                store.cells@.len() as int,
            );
            &&& live_bytes <= u64::MAX ==> done.live_bytes == live_bytes
            &&& live_bytes > u64::MAX ==> done.live_bytes == u64::MAX
            &&& freed_bytes <= u64::MAX ==> done.freed_bytes == freed_bytes
            &&& freed_bytes > u64::MAX ==> done.freed_bytes == u64::MAX
        }),
{
}

/// What no binding names is a root only where the heap manages it and it is
/// being written, or where it has more handles than can be seen: a vector the
/// heap manages, or, where some can be seen, anything but a text and a set,
/// through which nothing is reached.
pub proof fn what_no_binding_names_is_a_root_only_for_what_cannot_be_seen(
    store: Store,
    roots: Seq<usize>,
    managed: Seq<bool>,
    at: usize,
)
    requires
        at < store.cells@.len(),
        !bound(store, roots, at),
    ensures
        starts(store, roots, managed).contains(at) <==> {
            ||| managed[at as int] && !store.cells@[at as int].readable
            ||| managed[at as int] && store.cells@[at as int].strong > sighted(
                store,
                roots,
                managed,
                at,
            )
            ||| sighted(store, roots, managed, at) > 0 && store.cells@[at as int].strong > sighted(
                store,
                roots,
                managed,
                at,
            ) && !(store.cells@[at as int].kind is Text) && !(store.cells@[at as int].kind is Keys)
        },
{
}

} // verus!
