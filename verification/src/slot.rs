//! A heap of objects named by handles, and what a collection of it keeps.
//!
//! An object is a run of words and a layout, and the layout alone says which
//! of the words are handles. A handle is a serial number: it is given out
//! once, counting from one, so a zero word is never a handle.
use crate::frame::kinds::Part;
use vstd::prelude::*;

verus! {

/// What an object is where it crosses to a value, mathematically.
pub ghost enum Form {
    /// Nothing outside the heap reads it.
    Opaque,
    /// A text.
    Text,
    /// A case of a builtin enum.
    Case { kind_name: Seq<char>, case: Seq<char>, payload: Seq<Part> },
    /// A builtin struct.
    Record { kind_name: Seq<char>, fields: Seq<(Seq<char>, Part)> },
}

/// What an object is where it crosses to a value.
#[derive(Debug)]
pub enum Shape {
    Opaque,
    Str,
    Enum { kind_name: String, case: String, payload: Vec<Part> },
    Struct { kind_name: String, fields: Vec<(String, Part)> },
}

impl View for Shape {
    type V = Form;

    open spec fn view(&self) -> Form {
        match self {
            Shape::Opaque => Form::Opaque,
            Shape::Str => Form::Text,
            Shape::Enum { kind_name, case, payload } => Form::Case {
                kind_name: kind_name@,
                case: case@,
                payload: payload@,
            },
            Shape::Struct { kind_name, fields } => Form::Record {
                kind_name: kind_name@,
                fields: Seq::new(fields@.len(), |i: int| (fields@[i].0@, fields@[i].1)),
            },
        }
    }
}

/// What an object of a layout is, mathematically.
pub ghost struct Plan {
    pub name: Seq<char>,
    /// Which of the fixed words are handles.
    pub refs: Seq<bool>,
    pub form: Form,
    /// The type and case the object is, where it is one.
    pub case: Option<(Seq<char>, Seq<char>)>,
}

/// What an object is: how many fixed words it has, which of them are handles,
/// and what the whole is where it crosses to a value.
#[derive(Debug)]
pub struct Layout {
    pub name: String,
    pub refs: Vec<bool>,
    pub shape: Shape,
    pub case: Option<(String, String)>,
}

impl View for Layout {
    type V = Plan;

    open spec fn view(&self) -> Plan {
        Plan {
            name: self.name@,
            refs: self.refs@,
            form: self.shape@,
            case: match self.case {
                Some(pair) => Some((pair.0@, pair.1@)),
                None => None,
            },
        }
    }
}

/// An object, mathematically.
pub ghost struct Object {
    pub plan: Plan,
    pub words: Seq<u64>,
}

impl Object {
    /// Word `i` is a handle.
    pub open spec fn is_ref(self, i: int) -> bool {
        0 <= i < self.words.len() && i < self.plan.refs.len() && self.plan.refs[i]
    }

    /// One of the object's handles is `to`.
    pub open spec fn names(self, to: u64) -> bool {
        exists|i: int| #[trigger] self.is_ref(i) && self.words[i] == to
    }
}

/// A way from object to object along their handles.
pub open spec fn trail(objects: Map<u64, Object>, path: Seq<u64>) -> bool {
    &&& path.len() > 0
    &&& forall|i: int|
        0 <= i < path.len() - 1 ==> objects.dom().contains(#[trigger] path[i])
            && objects[path[i]].names(path[i + 1])
}

/// A handle is one of the roots, or is found along the handles of what they
/// name.
pub open spec fn reaches(objects: Map<u64, Object>, roots: Set<u64>, to: u64) -> bool {
    exists|path: Seq<u64>| #[trigger]
        trail(objects, path) && roots.contains(path[0]) && path.last() == to
}

/// Everything the roots reach.
pub open spec fn reached(objects: Map<u64, Object>, roots: Set<u64>) -> Set<u64> {
    Set::new(|to: u64| reaches(objects, roots, to))
}

/// The handles of a list.
pub open spec fn as_roots(list: Seq<u64>) -> Set<u64> {
    Set::new(|s: u64| list.contains(s))
}

/// A root is reached.
pub proof fn lemma_root_is_reached(objects: Map<u64, Object>, roots: Set<u64>, root: u64)
    requires
        roots.contains(root),
    ensures
        reaches(objects, roots, root),
{
    let path = seq![root];
    assert(trail(objects, path));
    assert(path.last() == root);
}

/// What an object that is reached names is reached.
pub proof fn lemma_named_is_reached(
    objects: Map<u64, Object>,
    roots: Set<u64>,
    from: u64,
    to: u64,
)
    requires
        reaches(objects, roots, from),
        objects.dom().contains(from),
        objects[from].names(to),
    ensures
        reaches(objects, roots, to),
{
    let path = choose|path: Seq<u64>| #[trigger]
        trail(objects, path) && roots.contains(path[0]) && path.last() == from;
    let longer = path.push(to);
    assert forall|i: int| 0 <= i < longer.len() - 1 implies objects.dom().contains(
        #[trigger] longer[i],
    ) && objects[longer[i]].names(longer[i + 1]) by {
        if i < path.len() - 1 {
            assert(longer[i] == path[i] && longer[i + 1] == path[i + 1]);
        }
    }
    assert(trail(objects, longer));
}

/// A set that holds the roots and all that its members name holds all that is
/// reached.
pub proof fn lemma_closed_holds_reached(
    objects: Map<u64, Object>,
    roots: Set<u64>,
    held: Set<u64>,
    to: u64,
)
    requires
        roots.subset_of(held),
        forall|a: u64, b: u64|
            held.contains(a) && objects.dom().contains(a) && #[trigger] objects[a].names(b)
                ==> held.contains(b),
        reaches(objects, roots, to),
    ensures
        held.contains(to),
{
    let path = choose|path: Seq<u64>| #[trigger]
        trail(objects, path) && roots.contains(path[0]) && path.last() == to;
    lemma_trail_stays(objects, held, path);
}

proof fn lemma_trail_stays(objects: Map<u64, Object>, held: Set<u64>, path: Seq<u64>)
    requires
        trail(objects, path),
        held.contains(path[0]),
        forall|a: u64, b: u64|
            held.contains(a) && objects.dom().contains(a) && #[trigger] objects[a].names(b)
                ==> held.contains(b),
    ensures
        held.contains(path.last()),
    decreases path.len(),
{
    if path.len() > 1 {
        let shorter = path.drop_last();
        assert forall|i: int| 0 <= i < shorter.len() - 1 implies objects.dom().contains(
            #[trigger] shorter[i],
        ) && objects[shorter[i]].names(shorter[i + 1]) by {
            assert(shorter[i] == path[i] && shorter[i + 1] == path[i + 1]);
        }
        lemma_trail_stays(objects, held, shorter);
        assert(path[path.len() - 2] == shorter.last());
        assert(objects[shorter.last()].names(path.last()));
    }
}

/// A heap that has been collected still has every object its roots reach in
/// the heap that never was.
pub open spec fn covers(
    all: Map<u64, Object>,
    kept: Map<u64, Object>,
    roots: Set<u64>,
) -> bool {
    &&& forall|s: u64| #[trigger]
        kept.dom().contains(s) ==> all.dom().contains(s) && kept[s] == all[s]
    &&& forall|s: u64| #[trigger]
        reaches(all, roots, s) && all.dom().contains(s) ==> kept.dom().contains(s)
}

/// Fewer roots, roots already reached, and roots that name nothing are covered
/// too.
pub proof fn lemma_covers_roots(
    all: Map<u64, Object>,
    kept: Map<u64, Object>,
    roots: Set<u64>,
    others: Set<u64>,
)
    requires
        covers(all, kept, roots),
        forall|s: u64| #[trigger]
            others.contains(s) ==> reaches(all, roots, s) || !all.dom().contains(s),
    ensures
        covers(all, kept, others),
{
    let held = Set::new(|s: u64| reaches(all, roots, s) || !all.dom().contains(s));
    assert forall|a: u64, b: u64|
        held.contains(a) && all.dom().contains(a) && #[trigger] all[a].names(b) implies held.contains(
        b,
    ) by {
        lemma_named_is_reached(all, roots, a, b);
    }
    assert forall|s: u64| #[trigger]
        reaches(all, others, s) && all.dom().contains(s) implies kept.dom().contains(s) by {
        assert(others.subset_of(held));
        lemma_closed_holds_reached(all, others, held, s);
    }
}

/// An object built out of what the roots reach is covered along with them.
pub proof fn lemma_covers_allocation(
    all: Map<u64, Object>,
    kept: Map<u64, Object>,
    roots: Set<u64>,
    serial: u64,
    object: Object,
)
    requires
        covers(all, kept, roots),
        !all.dom().contains(serial),
        forall|to: u64| #[trigger] object.names(to) ==> reaches(all, roots, to),
    ensures
        covers(
            all.insert(serial, object),
            kept.insert(serial, object),
            roots.insert(serial),
        ),
{
    let more = all.insert(serial, object);
    let after = kept.insert(serial, object);
    let held = reached(all, roots).insert(serial);
    assert forall|a: u64, b: u64|
        held.contains(a) && more.dom().contains(a) && #[trigger] more[a].names(
            b,
        ) implies held.contains(b) by {
        if a != serial {
            assert(more[a] == all[a]);
            lemma_named_is_reached(all, roots, a, b);
        } else {
            assert(object.names(b));
        }
    }
    assert forall|s: u64| #[trigger] roots.insert(serial).contains(s) implies held.contains(s) by {
        if s != serial {
            lemma_root_is_reached(all, roots, s);
        }
    }
    assert forall|s: u64| #[trigger]
        reaches(more, roots.insert(serial), s) && more.dom().contains(s) implies after.dom().contains(
        s,
    ) by {
        lemma_closed_holds_reached(more, roots.insert(serial), held, s);
        if s != serial {
            assert(reaches(all, roots, s));
        }
    }
}

/// What is reached in a covered heap is what is reached in the whole.
pub proof fn lemma_covered_reach(
    all: Map<u64, Object>,
    kept: Map<u64, Object>,
    roots: Set<u64>,
    to: u64,
)
    requires
        covers(all, kept, roots),
    ensures
        reaches(all, roots, to) <==> reaches(kept, roots, to),
{
    if reaches(all, roots, to) {
        let held = reached(kept, roots);
        assert forall|a: u64, b: u64|
            reached(all, roots).contains(a) && held.contains(a) && all.dom().contains(a)
                && #[trigger] all[a].names(b) implies held.contains(b) by {
            assert(kept.dom().contains(a));
            assert(kept[a] == all[a]);
            lemma_named_is_reached(kept, roots, a, b);
        }
        let path = choose|path: Seq<u64>| #[trigger]
            trail(all, path) && roots.contains(path[0]) && path.last() == to;
        lemma_root_is_reached(kept, roots, path[0]);
        lemma_trail_within(all, roots, held, path);
    }
    if reaches(kept, roots, to) {
        let path = choose|path: Seq<u64>| #[trigger]
            trail(kept, path) && roots.contains(path[0]) && path.last() == to;
        assert forall|i: int| 0 <= i < path.len() - 1 implies all.dom().contains(
            #[trigger] path[i],
        ) && all[path[i]].names(path[i + 1]) by {
            assert(kept.dom().contains(path[i]));
            assert(all.dom().contains(path[i]));
            assert(kept[path[i]] == all[path[i]]);
        }
        assert(trail(all, path));
    }
}

proof fn lemma_trail_within(
    all: Map<u64, Object>,
    roots: Set<u64>,
    held: Set<u64>,
    path: Seq<u64>,
)
    requires
        trail(all, path),
        roots.contains(path[0]),
        held.contains(path[0]),
        forall|a: u64, b: u64|
            reached(all, roots).contains(a) && held.contains(a) && all.dom().contains(a)
                && #[trigger] all[a].names(b) ==> held.contains(b),
    ensures
        held.contains(path.last()),
    decreases path.len(),
{
    if path.len() > 1 {
        let shorter = path.drop_last();
        assert forall|i: int| 0 <= i < shorter.len() - 1 implies all.dom().contains(
            #[trigger] shorter[i],
        ) && all[shorter[i]].names(shorter[i + 1]) by {
            assert(shorter[i] == path[i] && shorter[i + 1] == path[i + 1]);
        }
        lemma_trail_within(all, roots, held, shorter);
        assert(path[path.len() - 2] == shorter.last());
        assert(trail(all, shorter));
        assert(reaches(all, roots, shorter.last()));
        assert(all[shorter.last()].names(path.last()));
    }
}

/// A collection keeps covered what was covered: nothing a run can still name
/// is lost.
pub proof fn a_collection_loses_nothing_reachable(
    all: Map<u64, Object>,
    kept: Map<u64, Object>,
    roots: Set<u64>,
)
    requires
        covers(all, kept, roots),
    ensures
        covers(all, kept.restrict(reached(kept, roots)), roots),
{
    let after = kept.restrict(reached(kept, roots));
    assert forall|s: u64| #[trigger] reaches(all, roots, s) && all.dom().contains(s) implies
        after.dom().contains(s) by {
        lemma_covered_reach(all, kept, roots, s);
        assert(kept.dom().contains(s));
    }
}

/// One object of a heap: its handle, its layout and its words.
#[derive(Debug)]
pub struct Cell {
    serial: u64,
    layout: usize,
    words: Vec<u64>,
}

/// How many objects a heap holds before a collection is worth while, at least.
pub const COLLECTION_FLOOR: usize = 64;

/// How many objects a heap may hold once so many have outlived a collection:
/// twice as many, but never fewer than the floor.
pub open spec fn paced(live: nat) -> nat {
    if 2 * live <= COLLECTION_FLOOR {
        COLLECTION_FLOOR as nat
    } else if 2 * live <= usize::MAX {
        2 * live
    } else {
        usize::MAX as nat
    }
}

/// What one collection did.
#[derive(Clone, Copy, Debug, PartialEq, Eq, Structural)]
pub struct HandleCollection {
    /// How many roots were walked.
    pub roots_yielded: u64,
    /// How many objects had their handles followed: each that lives, once.
    pub expansions: u64,
    pub live_objects: u64,
    pub live_bytes: u64,
    pub freed_objects: u64,
}

/// A heap of objects named by handles.
#[derive(Debug)]
pub struct HandleHeap {
    layouts: Vec<Layout>,
    cells: Vec<Cell>,
    next: u64,
    threshold: usize,
    stress: bool,
}

/// What a cell is.
spec fn content(layouts: Seq<Layout>, cell: Cell) -> Object {
    Object { plan: layouts[cell.layout as int]@, words: cell.words@ }
}

/// What some cells hold.
spec fn contents(layouts: Seq<Layout>, cells: Seq<Cell>) -> Map<u64, Object>
    decreases cells.len(),
{
    if cells.len() == 0 {
        Map::empty()
    } else {
        contents(layouts, cells.drop_last()).insert(
            cells.last().serial,
            content(layouts, cells.last()),
        )
    }
}

/// Cells stand in the order their handles were given out.
spec fn ordered(cells: Seq<Cell>) -> bool {
    forall|i: int, j: int|
        0 <= i < j < cells.len() ==> (#[trigger] cells[i]).serial < (#[trigger] cells[j]).serial
}

/// Which handles some cells answer to, and with what.
proof fn lemma_contents(layouts: Seq<Layout>, cells: Seq<Cell>)
    requires
        ordered(cells),
    ensures
        forall|i: int|
            0 <= i < cells.len() ==> contents(layouts, cells).dom().contains(
                (#[trigger] cells[i]).serial,
            ) && contents(layouts, cells)[cells[i].serial] == content(layouts, cells[i]),
        forall|s: u64| #[trigger]
            contents(layouts, cells).dom().contains(s) ==> exists|i: int|
                0 <= i < cells.len() && (#[trigger] cells[i]).serial == s,
    decreases cells.len(),
{
    if cells.len() > 0 {
        let fewer = cells.drop_last();
        assert forall|i: int, j: int| 0 <= i < j < fewer.len() implies (#[trigger] fewer[i]).serial
            < (#[trigger] fewer[j]).serial by {
            assert(cells[i].serial < cells[j].serial);
        }
        lemma_contents(layouts, fewer);
        let last = cells.len() - 1;
        assert forall|i: int| 0 <= i < cells.len() implies contents(layouts, cells).dom().contains(
            (#[trigger] cells[i]).serial,
        ) && contents(layouts, cells)[cells[i].serial] == content(layouts, cells[i]) by {
            if i < last {
                assert(fewer[i] == cells[i]);
                assert(cells[i].serial < cells[last].serial);
            }
        }
        assert forall|s: u64| #[trigger] contents(layouts, cells).dom().contains(s) implies exists|
            i: int,
        |
            0 <= i < cells.len() && (#[trigger] cells[i]).serial == s by {
            if s == cells[last].serial {
                assert(cells[last].serial == s);
            } else {
                assert(contents(layouts, fewer).dom().contains(s));
                let i = choose|i: int| 0 <= i < fewer.len() && (#[trigger] fewer[i]).serial == s;
                assert(cells[i].serial == s);
            }
        }
    }
}

/// The cells that are marked, in order.
spec fn survivors(cells: Seq<Cell>, marked: Seq<bool>) -> Seq<Cell>
    decreases cells.len(),
{
    if cells.len() == 0 {
        Seq::empty()
    } else if marked[cells.len() - 1] {
        survivors(cells.drop_last(), marked).push(cells.last())
    } else {
        survivors(cells.drop_last(), marked)
    }
}

/// How many bytes the words of some cells take.
spec fn weight(cells: Seq<Cell>) -> int
    decreases cells.len(),
{
    if cells.len() == 0 {
        0
    } else {
        8 * cells.first().words@.len() + weight(cells.drop_first())
    }
}

proof fn lemma_weight(cell: Cell, cells: Seq<Cell>)
    ensures
        weight(seq![cell] + cells) == 8 * cell.words@.len() + weight(cells),
        0 <= weight(cells),
    decreases cells.len(),
{
    assert((seq![cell] + cells).drop_first() =~= cells);
    if cells.len() > 0 {
        lemma_weight(cells.first(), cells.drop_first());
        assert(seq![cells.first()] + cells.drop_first() =~= cells);
    }
}

/// The survivors are the marked cells, and hold what those held.
proof fn lemma_survivors(
    layouts: Seq<Layout>,
    cells: Seq<Cell>,
    marked: Seq<bool>,
    kept: Set<u64>,
)
    requires
        ordered(cells),
        cells.len() <= marked.len(),
        forall|i: int|
            0 <= i < cells.len() ==> (marked[i] <==> kept.contains((#[trigger] cells[i]).serial)),
    ensures
        ordered(survivors(cells, marked)),
        survivors(cells, marked).len() <= cells.len(),
        contents(layouts, survivors(cells, marked)) == contents(layouts, cells).restrict(kept),
        forall|k: int|
            0 <= k < survivors(cells, marked).len() ==> exists|i: int|
                0 <= i < cells.len() && #[trigger] cells[i] == #[trigger] survivors(
                    cells,
                    marked,
                )[k],
    decreases cells.len(),
{
    if cells.len() > 0 {
        let fewer = cells.drop_last();
        let last = cells.len() - 1;
        assert forall|i: int, j: int| 0 <= i < j < fewer.len() implies (#[trigger] fewer[i]).serial
            < (#[trigger] fewer[j]).serial by {
            assert(cells[i].serial < cells[j].serial);
        }
        assert forall|i: int| 0 <= i < fewer.len() implies (marked[i] <==> kept.contains(
            (#[trigger] fewer[i]).serial,
        )) by {
            assert(cells[i] == fewer[i]);
        }
        lemma_survivors(layouts, fewer, marked, kept);
        lemma_contents(layouts, cells);
        lemma_contents(layouts, fewer);
        let before = survivors(fewer, marked);
        let after = survivors(cells, marked);
        assert forall|k: int| 0 <= k < after.len() implies exists|i: int|
            0 <= i < cells.len() && #[trigger] cells[i] == #[trigger] after[k] by {
            if k < before.len() {
                assert(after[k] == before[k]);
                let i = choose|i: int| 0 <= i < fewer.len() && #[trigger] fewer[i] == before[k];
                assert(cells[i] == after[k]);
            } else {
                assert(cells[last] == after[k]);
            }
        }
        assert forall|i: int, j: int| 0 <= i < j < after.len() implies (#[trigger] after[i]).serial
            < (#[trigger] after[j]).serial by {
            if j < before.len() {
                assert(after[i] == before[i] && after[j] == before[j]);
            } else {
                assert(after[i] == before[i]);
                let k = choose|k: int| 0 <= k < fewer.len() && #[trigger] fewer[k] == before[i];
                assert(cells[k] == fewer[k]);
                assert(cells[k].serial < cells[last].serial);
            }
        }
        if marked[last] {
            assert(kept.contains(cells[last].serial));
            assert(after.drop_last() =~= before);
            assert(contents(layouts, after) =~= contents(layouts, cells).restrict(kept));
        } else {
            assert(!kept.contains(cells[last].serial));
            assert(contents(layouts, after) =~= contents(layouts, cells).restrict(kept));
        }
    } else {
        assert(contents(layouts, cells) =~= contents(layouts, cells).restrict(kept));
    }
}

impl View for HandleHeap {
    type V = Map<u64, Object>;

    closed spec fn view(&self) -> Map<u64, Object> {
        contents(self.layouts@, self.cells@)
    }
}

impl HandleHeap {
    /// The layouts that have been registered, in order.
    pub closed spec fn plans(self) -> Seq<Plan> {
        Seq::new(self.layouts@.len(), |i: int| self.layouts@[i]@)
    }

    /// The handle the next object gets.
    pub closed spec fn next_handle(self) -> u64 {
        self.next
    }

    /// How many objects stand in the heap.
    pub closed spec fn count(self) -> nat {
        self.cells@.len()
    }

    /// How many bytes the words of the objects in the heap take.
    pub closed spec fn bytes(self) -> int {
        weight(self.cells@)
    }

    pub closed spec fn wf(self) -> bool {
        &&& ordered(self.cells@)
        &&& self.next >= 1
        &&& forall|i: int|
            0 <= i < self.cells@.len() ==> 1 <= (#[trigger] self.cells@[i]).serial < self.next
                && self.cells@[i].layout < self.layouts@.len()
    }

    /// No handle not yet given out names an object.
    pub proof fn lemma_unused(&self)
        requires
            self.wf(),
        ensures
            self.next_handle() >= 1,
            forall|s: u64| #[trigger] self@.dom().contains(s) ==> 1 <= s < self.next_handle(),
    {
        lemma_contents(self.layouts@, self.cells@);
    }

    /// An empty heap.
    pub fn new() -> (heap: HandleHeap)
        ensures
            heap.wf(),
            heap@ == Map::<u64, Object>::empty(),
            heap.plans() == Seq::<Plan>::empty(),
            heap.next_handle() == 1,
            heap.count() == 0,
            heap.threshold() == COLLECTION_FLOOR,
            !heap.is_stressed(),
    {
        let heap = HandleHeap {
            layouts: Vec::new(),
            cells: Vec::new(),
            next: 1,
            threshold: COLLECTION_FLOOR,
            stress: false,
        };
        proof {
            assert(heap.plans() =~= Seq::<Plan>::empty());
        }
        heap
    }

    /// Collects at every opportunity from here on, or stops doing so.
    pub fn stress(&mut self, on: bool)
        requires
            old(self).wf(),
        ensures
            final(self).wf(),
            final(self)@ == old(self)@,
            final(self).plans() == old(self).plans(),
            final(self).next_handle() == old(self).next_handle(),
            final(self).count() == old(self).count(),
            final(self).threshold() == old(self).threshold(),
            final(self).is_stressed() == on,
    {
        self.stress = on;
    }

    /// The heap is to be collected at every opportunity.
    pub closed spec fn is_stressed(self) -> bool {
        self.stress
    }

    /// Registers a layout, and answers its number.
    pub fn register(&mut self, layout: Layout) -> (id: usize)
        requires
            old(self).wf(),
            old(self)@ == Map::<u64, Object>::empty() || old(self).count() == 0,
        ensures
            final(self).wf(),
            id == old(self).plans().len(),
            final(self).plans() == old(self).plans().push(layout@),
            final(self)@ == old(self)@,
            final(self).count() == old(self).count(),
            final(self).next_handle() == old(self).next_handle(),
            final(self).keeps_pace(*old(self)),
    {
        let id: usize = self.layouts.len();
        proof {
            lemma_contents(self.layouts@, self.cells@);
            if self.cells@.len() > 0 {
                assert(self@.dom().contains(self.cells@[0].serial));
            }
        }
        self.layouts.push(layout);
        proof {
            assert(self.plans() =~= old(self).plans().push(layout@));
        }
        id
    }

    /// Layout number `id`.
    pub fn layout(&self, id: usize) -> (layout: &Layout)
        requires
            id < self.plans().len(),
        ensures
            layout@ == self.plans()[id as int],
    {
        &self.layouts[id]
    }

    /// Where the cell of a handle stands.
    fn find(&self, handle: u64) -> (found: Option<usize>)
        requires
            self.wf(),
        ensures
            match found {
                Some(at) => at < self.cells@.len() && self.cells@[at as int].serial == handle,
                None => !self@.dom().contains(handle),
            },
    {
        let mut low: usize = 0;
        let mut high: usize = self.cells.len();
        while low < high
            invariant
                self.wf(),
                low <= high <= self.cells@.len(),
                forall|i: int| 0 <= i < low ==> (#[trigger] self.cells@[i]).serial < handle,
                forall|i: int|
                    high <= i < self.cells@.len() ==> (#[trigger] self.cells@[i]).serial > handle,
            decreases high - low,
        {
            let middle: usize = low + (high - low) / 2;
            let serial: u64 = self.cells[middle].serial;
            if serial == handle {
                return Some(middle);
            }
            if serial < handle {
                proof {
                    assert forall|i: int| 0 <= i < middle + 1 implies (
                    #[trigger] self.cells@[i]).serial < handle by {
                        if i < middle {
                            assert(self.cells@[i].serial < self.cells@[middle as int].serial);
                        }
                    }
                }
                low = middle + 1;
            } else {
                proof {
                    assert forall|i: int| middle <= i < self.cells@.len() implies (
                    #[trigger] self.cells@[i]).serial > handle by {
                        if i > middle {
                            assert(self.cells@[middle as int].serial < self.cells@[i].serial);
                        }
                    }
                }
                high = middle;
            }
        }
        proof {
            lemma_contents(self.layouts@, self.cells@);
        }
        None
    }

    /// Gives an object the next handle, unless there is none left to give.
    pub fn allocate(&mut self, layout: usize, words: Vec<u64>) -> (handle: Option<u64>)
        requires
            old(self).wf(),
            layout < old(self).plans().len(),
        ensures
            final(self).wf(),
            final(self).plans() == old(self).plans(),
            match handle {
                Some(serial) => {
                    &&& serial == old(self).next_handle()
                    &&& !old(self)@.dom().contains(serial)
                    &&& final(self)@ == old(self)@.insert(
                        serial,
                        Object { plan: old(self).plans()[layout as int], words: words@ },
                    )
                    &&& final(self).next_handle() == serial + 1
                    &&& final(self).count() == old(self).count() + 1
                    &&& final(self).keeps_pace(*old(self))
                },
                None => old(self).next_handle() == u64::MAX && *final(self) == *old(self),
            },
    {
        if self.next == u64::MAX {
            return None;
        }
        let serial: u64 = self.next;
        proof {
            self.lemma_unused();
        }
        let ghost before = self.cells@;
        self.cells.push(Cell { serial, layout, words });
        self.next = serial + 1;
        proof {
            assert(self.cells@.drop_last() =~= before);
        }
        Some(serial)
    }

    /// The number of the layout of the object a handle names.
    pub fn layout_id_of(&self, handle: u64) -> (id: Option<usize>)
        requires
            self.wf(),
        ensures
            match id {
                Some(layout) => self@.dom().contains(handle) && layout < self.plans().len()
                    && self@[handle].plan == self.plans()[layout as int],
                None => !self@.dom().contains(handle),
            },
    {
        proof {
            lemma_contents(self.layouts@, self.cells@);
        }
        match self.find(handle) {
            Some(at) => Some(self.cells[at].layout),
            None => None,
        }
    }

    /// The layout of the object a handle names.
    pub fn layout_of(&self, handle: u64) -> (layout: Option<&Layout>)
        requires
            self.wf(),
        ensures
            match layout {
                Some(plan) => self@.dom().contains(handle) && self@[handle].plan == plan@,
                None => !self@.dom().contains(handle),
            },
    {
        match self.layout_id_of(handle) {
            Some(id) => Some(&self.layouts[id]),
            None => None,
        }
    }

    /// How many words the object a handle names has.
    pub fn layout_words(&self, handle: u64) -> (count: usize)
        requires
            self.wf(),
            self@.dom().contains(handle),
        ensures
            count == self@[handle].words.len(),
    {
        proof {
            lemma_contents(self.layouts@, self.cells@);
        }
        match self.find(handle) {
            Some(at) => self.cells[at].words.len(),
            None => 0,
        }
    }

    /// Word `at` of the object a handle names.
    pub fn word(&self, handle: u64, at: usize) -> (word: Option<u64>)
        requires
            self.wf(),
        ensures
            match word {
                Some(bits) => self@.dom().contains(handle) && at < self@[handle].words.len() && bits
                    == self@[handle].words[at as int],
                None => !self@.dom().contains(handle) || at >= self@[handle].words.len(),
            },
    {
        proof {
            lemma_contents(self.layouts@, self.cells@);
        }
        match self.find(handle) {
            Some(index) => {
                if at < self.cells[index].words.len() {
                    Some(self.cells[index].words[at])
                } else {
                    None
                }
            },
            None => None,
        }
    }

    /// Whether word `at` of the object a handle names is a handle.
    pub fn word_is_reference(&self, handle: u64, at: usize) -> (yes: bool)
        requires
            self.wf(),
        ensures
            yes == (self@.dom().contains(handle) && self@[handle].is_ref(at as int)),
    {
        proof {
            lemma_contents(self.layouts@, self.cells@);
        }
        match self.find(handle) {
            Some(index) => {
                let layout = &self.layouts[self.cells[index].layout];
                at < self.cells[index].words.len() && at < layout.refs.len() && layout.refs[at]
            },
            None => false,
        }
    }

    /// A new object like the one a handle names, but for one word.
    pub fn copy_replacing(&mut self, handle: u64, at: usize, word: u64) -> (copy: Option<u64>)
        requires
            old(self).wf(),
            old(self)@.dom().contains(handle),
            at < old(self)@[handle].words.len(),
        ensures
            final(self).wf(),
            final(self).plans() == old(self).plans(),
            match copy {
                Some(serial) => {
                    &&& serial == old(self).next_handle()
                    &&& !old(self)@.dom().contains(serial)
                    &&& final(self)@ == old(self)@.insert(
                        serial,
                        Object {
                            plan: old(self)@[handle].plan,
                            words: old(self)@[handle].words.update(at as int, word),
                        },
                    )
                    &&& final(self).next_handle() == serial + 1
                    &&& final(self).count() == old(self).count() + 1
                    &&& final(self).keeps_pace(*old(self))
                },
                None => old(self).next_handle() == u64::MAX && *final(self) == *old(self),
            },
    {
        proof {
            lemma_contents(self.layouts@, self.cells@);
        }
        let index: usize = match self.find(handle) {
            Some(index) => index,
            None => 0,
        };
        let mut words: Vec<u64> = copy_words(&self.cells[index].words, 0);
        proof {
            assert(words@ =~= self@[handle].words);
        }
        words.set(at, word);
        let layout: usize = self.cells[index].layout;
        self.allocate(layout, words)
    }

    /// Whether a collection is worth while.
    pub fn should_collect(&self) -> (yes: bool)
        ensures
            yes == self.is_due(),
    {
        self.stress || self.cells.len() >= self.threshold
    }

    /// A collection is worth while: the heap has grown to its threshold, or is
    /// to be collected at every opportunity.
    pub open spec fn is_due(self) -> bool {
        self.is_stressed() || self.count() >= self.threshold()
    }

    /// How many objects the heap may hold before a collection is worth while.
    pub closed spec fn threshold(self) -> nat {
        self.threshold as nat
    }

    /// The heap is collected when the other is: neither its threshold nor
    /// whether it is stressed has changed.
    pub open spec fn keeps_pace(self, other: HandleHeap) -> bool {
        self.threshold() == other.threshold() && self.is_stressed() == other.is_stressed()
    }
}

/// How many cells are not marked.
spec fn unmarked(marked: Seq<bool>) -> nat
    decreases marked.len(),
{
    if marked.len() == 0 {
        0
    } else {
        unmarked(marked.drop_last()) + (if marked.last() {
            0nat
        } else {
            1
        })
    }
}

proof fn lemma_marking_one(marked: Seq<bool>, at: int)
    requires
        0 <= at < marked.len(),
        !marked[at],
    ensures
        unmarked(marked.update(at, true)) == unmarked(marked) - 1,
    decreases marked.len(),
{
    let next = marked.update(at, true);
    if at == marked.len() - 1 {
        assert(next.drop_last() =~= marked.drop_last());
    } else {
        assert(next.drop_last() =~= marked.drop_last().update(at, true));
        assert(next.last() == marked.last());
        lemma_marking_one(marked.drop_last(), at);
    }
}

proof fn lemma_none_marked(marked: Seq<bool>)
    requires
        forall|i: int| 0 <= i < marked.len() ==> !(#[trigger] marked[i]),
    ensures
        unmarked(marked) == marked.len(),
    decreases marked.len(),
{
    if marked.len() > 0 {
        lemma_none_marked(marked.drop_last());
    }
}

/// As many survive as are marked.
proof fn lemma_count_survivors(cells: Seq<Cell>, marked: Seq<bool>)
    requires
        marked.len() == cells.len(),
    ensures
        survivors(cells, marked).len() == cells.len() - unmarked(marked),
    decreases cells.len(),
{
    if cells.len() > 0 {
        lemma_survivors_prefix(cells.drop_last(), marked, marked.drop_last());
        lemma_count_survivors(cells.drop_last(), marked.drop_last());
    }
}

proof fn lemma_survivors_prefix(cells: Seq<Cell>, marked: Seq<bool>, fewer: Seq<bool>)
    requires
        cells.len() <= fewer.len() <= marked.len(),
        forall|i: int| 0 <= i < fewer.len() ==> #[trigger] marked[i] == fewer[i],
    ensures
        survivors(cells, marked) == survivors(cells, fewer),
    decreases cells.len(),
{
    if cells.len() > 0 {
        lemma_survivors_prefix(cells.drop_last(), marked, fewer);
        assert(marked[cells.len() - 1] == fewer[cells.len() - 1]);
    }
}

/// What the first `upto` words of cell `i` name is marked, where it stands.
spec fn expanded(heap: HandleHeap, marked: Seq<bool>, i: int, upto: int) -> bool {
    let object = content(heap.layouts@, heap.cells@[i]);
    forall|w: int, j: int|
        #![trigger object.is_ref(w), heap.cells@[j]]
        0 <= w < upto && object.is_ref(w) && 0 <= j < heap.cells@.len() && heap.cells@[j].serial
            == object.words[w] ==> marked[j]
}

/// A marking in progress: what is marked is reached, and what a marked cell
/// names is marked, unless the cell still waits to be expanded or is the one
/// being expanded.
spec fn marking(
    heap: HandleHeap,
    roots: Set<u64>,
    marked: Seq<bool>,
    waiting: Seq<usize>,
    busy: int,
) -> bool {
    &&& marked.len() == heap.cells@.len()
    &&& forall|i: int|
        0 <= i < marked.len() && #[trigger] marked[i] ==> reaches(
            heap@,
            roots,
            heap.cells@[i].serial,
        )
    &&& forall|k: int|
        0 <= k < waiting.len() ==> (#[trigger] waiting[k]) < marked.len()
            && marked[waiting[k] as int]
    &&& forall|i: int|
        0 <= i < marked.len() && i != busy && #[trigger] marked[i] ==> waiting.contains(i as usize)
            || expanded(heap, marked, i, heap.cells@[i].words@.len() as int)
}

/// Marking one more cell keeps a marking in progress.
proof fn lemma_mark_more(
    heap: HandleHeap,
    roots: Set<u64>,
    marked: Seq<bool>,
    waiting: Seq<usize>,
    busy: int,
    at: int,
)
    requires
        marking(heap, roots, marked, waiting, busy),
        0 <= at < marked.len(),
        marked.len() <= usize::MAX,
        reaches(heap@, roots, heap.cells@[at].serial),
    ensures
        marking(heap, roots, marked.update(at, true), waiting.push(at as usize), busy),
{
    let more = marked.update(at, true);
    let asked = waiting.push(at as usize);
    assert forall|i: int|
        0 <= i < more.len() && i != busy && #[trigger] more[i] implies asked.contains(
        i as usize,
    ) || expanded(heap, more, i, heap.cells@[i].words@.len() as int) by {
        if i == at {
            assert(asked[waiting.len() as int] == i as usize);
        } else {
            assert(marked[i]);
            if waiting.contains(i as usize) {
                let k = choose|k: int| 0 <= k < waiting.len() && waiting[k] == i as usize;
                assert(asked[k] == i as usize);
            }
        }
    }
    assert forall|k: int| 0 <= k < asked.len() implies (#[trigger] asked[k]) < more.len()
        && more[asked[k] as int] by {
        if k < waiting.len() {
            assert(asked[k] == waiting[k]);
        }
    }
    assert forall|i: int| 0 <= i < more.len() && #[trigger] more[i] implies reaches(
        heap@,
        roots,
        heap.cells@[i].serial,
    ) by {
        if i != at {
            assert(marked[i]);
        }
    }
}

/// When nothing waits, what is marked is what is reached.
proof fn lemma_marking_done(heap: HandleHeap, roots: Set<u64>, marked: Seq<bool>)
    requires
        heap.wf(),
        marking(heap, roots, marked, Seq::empty(), -1),
        forall|j: int|
            0 <= j < marked.len() && roots.contains((#[trigger] heap.cells@[j]).serial)
                ==> marked[j],
    ensures
        forall|i: int|
            0 <= i < marked.len() ==> (marked[i] <==> reached(heap@, roots).contains(
                (#[trigger] heap.cells@[i]).serial,
            )),
{
    lemma_contents(heap.layouts@, heap.cells@);
    // Everything but the cells that are not marked.
    let held = Set::new(
        |s: u64|
            !(exists|j: int|
                0 <= j < heap.cells@.len() && (#[trigger] heap.cells@[j]).serial == s
                    && !marked[j]),
    );
    assert forall|a: u64, b: u64|
        held.contains(a) && heap@.dom().contains(a) && #[trigger] heap@[a].names(b) implies
        held.contains(b) by {
        let i = choose|i: int|
            0 <= i < heap.cells@.len() && (#[trigger] heap.cells@[i]).serial == a;
        let object = content(heap.layouts@, heap.cells@[i]);
        assert(heap@[a] == object);
        assert(marked[i]);
        assert(!Seq::<usize>::empty().contains(i as usize));
        assert(expanded(heap, marked, i, heap.cells@[i].words@.len() as int));
        let w = choose|w: int| #[trigger] heap@[a].is_ref(w) && heap@[a].words[w] == b;
        if !held.contains(b) {
            let j = choose|j: int|
                0 <= j < heap.cells@.len() && (#[trigger] heap.cells@[j]).serial == b
                    && !marked[j];
            assert(object.is_ref(w));
            assert(heap.cells@[j].serial == b);
            assert(marked[j]);
        }
    }
    assert forall|i: int| 0 <= i < marked.len() implies (marked[i] <==> reached(
        heap@,
        roots,
    ).contains((#[trigger] heap.cells@[i]).serial)) by {
        if reaches(heap@, roots, heap.cells@[i].serial) {
            assert(roots.subset_of(held));
            lemma_closed_holds_reached(heap@, roots, held, heap.cells@[i].serial);
        }
    }
}

impl HandleHeap {
    /// Marks the cell of a handle, if it stands and is not marked.
    fn mark(
        &self,
        handle: u64,
        marked: &mut Vec<bool>,
        waiting: &mut Vec<usize>,
        Ghost(roots): Ghost<Set<u64>>,
        Ghost(busy): Ghost<int>,
    )
        requires
            self.wf(),
            marking(*self, roots, old(marked)@, old(waiting)@, busy),
            reaches(self@, roots, handle),
        ensures
            marking(*self, roots, final(marked)@, final(waiting)@, busy),
            forall|j: int|
                0 <= j < final(marked)@.len() && (#[trigger] self.cells@[j]).serial == handle
                    ==> final(marked)@[j],
            forall|j: int|
                0 <= j < old(marked)@.len() && #[trigger] old(marked)@[j] ==> final(marked)@[j],
            unmarked(final(marked)@) + final(waiting)@.len() == unmarked(old(marked)@) + old(
                waiting,
            )@.len(),
    {
        proof {
            lemma_contents(self.layouts@, self.cells@);
        }
        match self.find(handle) {
            Some(at) => {
                proof {
                    assert forall|j: int|
                        0 <= j < marked@.len() && (#[trigger] self.cells@[j]).serial
                            == handle implies j == at by {
                        if j < at {
                            assert(self.cells@[j].serial < self.cells@[at as int].serial);
                        } else if j > at {
                            assert(self.cells@[at as int].serial < self.cells@[j].serial);
                        }
                    }
                }
                if !marked[at] {
                    let count: usize = marked.len();
                    proof {
                        assert(marked@.len() == count);
                        lemma_mark_more(*self, roots, marked@, waiting@, busy, at as int);
                        lemma_marking_one(marked@, at as int);
                    }
                    marked.set(at, true);
                    waiting.push(at);
                }
            },
            None => {},
        }
    }

    /// Marks what the handles of one cell name.
    fn expand(
        &self,
        at: usize,
        marked: &mut Vec<bool>,
        waiting: &mut Vec<usize>,
        Ghost(roots): Ghost<Set<u64>>,
    )
        requires
            self.wf(),
            at < self.cells@.len(),
            old(marked)@.len() == self.cells@.len(),
            old(marked)@[at as int],
            marking(*self, roots, old(marked)@, old(waiting)@, at as int),
        ensures
            marking(*self, roots, final(marked)@, final(waiting)@, -1),
            forall|j: int|
                0 <= j < old(marked)@.len() && #[trigger] old(marked)@[j] ==> final(marked)@[j],
            unmarked(final(marked)@) + final(waiting)@.len() == unmarked(old(marked)@) + old(
                waiting,
            )@.len(),
    {
        let ghost object = content(self.layouts@, self.cells@[at as int]);
        proof {
            lemma_contents(self.layouts@, self.cells@);
        }
        let cell = &self.cells[at];
        let layout = &self.layouts[cell.layout];
        let mut w: usize = 0;
        while w < cell.words.len()
            invariant
                self.wf(),
                at < self.cells@.len(),
                *cell == self.cells@[at as int],
                *layout == self.layouts@[cell.layout as int],
                object == content(self.layouts@, self.cells@[at as int]),
                self@.dom().contains(cell.serial),
                self@[cell.serial] == object,
                reaches(self@, roots, cell.serial),
                w <= cell.words@.len(),
                marked@[at as int],
                old(marked)@.len() == self.cells@.len(),
                marking(*self, roots, marked@, waiting@, at as int),
                expanded(*self, marked@, at as int, w as int),
                forall|j: int|
                    0 <= j < old(marked)@.len() && #[trigger] old(marked)@[j] ==> marked@[j],
                unmarked(marked@) + waiting@.len() == unmarked(old(marked)@) + old(waiting)@.len(),
            decreases cell.words@.len() - w,
        {
            let ghost were = marked@;
            if w < layout.refs.len() && layout.refs[w] {
                let handle: u64 = cell.words[w];
                proof {
                    assert(object.is_ref(w as int));
                    assert(self@[cell.serial].names(handle));
                    lemma_named_is_reached(self@, roots, cell.serial, handle);
                }
                self.mark(handle, marked, waiting, Ghost(roots), Ghost(at as int));
            }
            proof {
                assert forall|v: int, j: int|
                    #![trigger object.is_ref(v), self.cells@[j]]
                    0 <= v < w + 1 && object.is_ref(v) && 0 <= j < self.cells@.len()
                        && self.cells@[j].serial == object.words[v] implies marked@[j] by {
                    if v < w {
                        assert(were[j]);
                    }
                }
            }
            w = w + 1;
        }
    }

    /// Keeps the marked cells, and counts their bytes.
    fn sweep(&mut self, marked: &Vec<bool>) -> (live_bytes: u64)
        requires
            old(self).wf(),
            marked@.len() == old(self).cells@.len(),
        ensures
            final(self).cells@ == survivors(old(self).cells@, marked@),
            final(self).layouts == old(self).layouts,
            final(self).next == old(self).next,
            final(self).stress == old(self).stress,
            live_bytes == crate::budget::tallied(weight(final(self).cells@), 0),
    {
        let ghost all = self.cells@;
        let mut reversed: Vec<Cell> = Vec::new();
        let mut live_bytes: u64 = 0;
        proof {
            assert(survivors(all, marked@) + Seq::<Cell>::empty() =~= survivors(all, marked@));
            assert(reversed@.reverse() =~= Seq::<Cell>::empty());
        }
        while self.cells.len() > 0
            invariant
                marked@.len() == all.len(),
                self.cells@.len() <= all.len(),
                self.cells@ == all.take(self.cells@.len() as int),
                survivors(all, marked@) == survivors(self.cells@, marked@) + reversed@.reverse(),
                self.layouts == old(self).layouts,
                self.next == old(self).next,
                self.stress == old(self).stress,
                live_bytes == crate::budget::tallied(weight(reversed@.reverse()), 0),
            decreases self.cells@.len(),
        {
            let at: usize = self.cells.len() - 1;
            let ghost before = self.cells@;
            match self.cells.pop() {
                None => {},
                Some(cell) => {
                    proof {
                        assert(before.drop_last() =~= self.cells@);
                        assert(self.cells@ =~= all.take(at as int));
                    }
                    if marked[at] {
                        live_bytes = crate::budget::tally(
                            live_bytes,
                            if cell.words.len() as u64 <= u64::MAX / 8 {
                                8 * cell.words.len() as u64
                            } else {
                                u64::MAX
                            },
                        );
                        let ghost later = reversed@;
                        reversed.push(cell);
                        proof {
                            assert(later.push(cell).reverse() =~= seq![cell] + later.reverse());
                            lemma_weight(cell, later.reverse());
                            assert(survivors(before, marked@) + later.reverse() =~= survivors(
                                self.cells@,
                                marked@,
                            ) + later.push(cell).reverse());
                        }
                    }
                },
            }
        }
        proof {
            assert(survivors(self.cells@, marked@) + reversed@.reverse() =~= reversed@.reverse());
            assert(self.cells@ + reversed@.reverse() =~= reversed@.reverse());
        }
        while reversed.len() > 0
            invariant
                self.cells@ + reversed@.reverse() == survivors(all, marked@),
                self.layouts == old(self).layouts,
                self.next == old(self).next,
                self.stress == old(self).stress,
            decreases reversed@.len(),
        {
            let ghost before = reversed@;
            let ghost stood = self.cells@;
            match reversed.pop() {
                None => {},
                Some(cell) => {
                    self.cells.push(cell);
                    proof {
                        assert(stood + before.reverse() =~= self.cells@ + reversed@.reverse());
                    }
                },
            }
        }
        proof {
            assert(self.cells@ + reversed@.reverse() =~= self.cells@);
        }
        live_bytes
    }

    /// Frees every object the roots do not reach, and lets the heap grow to
    /// twice what is left before the next collection is worth while.
    pub fn collect(&mut self, roots: &Vec<u64>) -> (done: HandleCollection)
        requires
            old(self).wf(),
        ensures
            final(self).wf(),
            final(self).plans() == old(self).plans(),
            final(self).next_handle() == old(self).next_handle(),
            final(self)@ == old(self)@.restrict(reached(old(self)@, as_roots(roots@))),
            done.roots_yielded == roots@.len(),
            done.expansions == done.live_objects,
            done.live_objects == final(self).count(),
            done.live_objects + done.freed_objects == old(self).count(),
            done.live_bytes == crate::budget::tallied(final(self).bytes(), 0),
            final(self).is_stressed() == old(self).is_stressed(),
            final(self).threshold() == paced(final(self).count()),
    {
        let count: usize = self.cells.len();
        let ghost set = as_roots(roots@);
        let mut marked: Vec<bool> = Vec::new();
        while marked.len() < count
            invariant
                marked@.len() <= count,
                forall|i: int| 0 <= i < marked@.len() ==> !(#[trigger] marked@[i]),
            decreases count - marked@.len(),
        {
            marked.push(false);
        }
        let mut waiting: Vec<usize> = Vec::new();
        let mut i: usize = 0;
        proof {
            lemma_none_marked(marked@);
        }
        while i < roots.len()
            invariant
                self.wf(),
                *self == *old(self),
                count == self.cells@.len(),
                set == as_roots(roots@),
                i <= roots@.len(),
                marking(*self, set, marked@, waiting@, -1),
                forall|k: int, j: int|
                    #![trigger roots@[k], self.cells@[j]]
                    0 <= k < i && 0 <= j < marked@.len() && self.cells@[j].serial == roots@[k]
                        ==> marked@[j],
                waiting@.len() + unmarked(marked@) == count,
            decreases roots@.len() - i,
        {
            proof {
                assert(roots@.contains(roots@[i as int]));
                lemma_root_is_reached(self@, set, roots@[i as int]);
            }
            let ghost were = marked@;
            self.mark(roots[i], &mut marked, &mut waiting, Ghost(set), Ghost(-1));
            proof {
                assert forall|k: int, j: int|
                    #![trigger roots@[k], self.cells@[j]]
                    0 <= k < i + 1 && 0 <= j < marked@.len() && self.cells@[j].serial
                        == roots@[k] implies marked@[j] by {
                    if k < i {
                        assert(were[j]);
                    }
                }
            }
            i = i + 1;
        }
        proof {
            assert forall|j: int|
                0 <= j < marked@.len() && set.contains(
                    (#[trigger] self.cells@[j]).serial,
                ) implies marked@[j] by {
                let k = choose|k: int|
                    0 <= k < roots@.len() && roots@[k] == self.cells@[j].serial;
                assert(roots@[k] == self.cells@[j].serial);
            }
        }
        let mut expansions: u64 = 0;
        while waiting.len() > 0
            invariant
                self.wf(),
                *self == *old(self),
                count == self.cells@.len(),
                marking(*self, set, marked@, waiting@, -1),
                forall|j: int|
                    0 <= j < marked@.len() && set.contains((#[trigger] self.cells@[j]).serial)
                        ==> marked@[j],
                expansions + waiting@.len() + unmarked(marked@) == count,
            decreases unmarked(marked@) + waiting@.len(), waiting@.len(),
        {
            let last: usize = waiting.len() - 1;
            let at: usize = waiting[last];
            let ghost before = waiting@;
            let ghost were = marked@;
            waiting.truncate(last);
            proof {
                assert(before[last as int] == at);
                assert forall|i: int|
                    0 <= i < marked@.len() && i != at && #[trigger] marked@[i] implies
                    waiting@.contains(i as usize) || expanded(
                    *self,
                    marked@,
                    i,
                    self.cells@[i].words@.len() as int,
                ) by {
                    if before.contains(i as usize) {
                        let k = choose|k: int| 0 <= k < before.len() && before[k] == i as usize;
                        assert(waiting@[k] == i as usize);
                    }
                }
                assert forall|k: int| 0 <= k < waiting@.len() implies (#[trigger] waiting@[k])
                    < marked@.len() && marked@[waiting@[k] as int] by {
                    assert(waiting@[k] == before[k]);
                }
                assert(marking(*self, set, marked@, waiting@, at as int));
            }
            expansions = expansions + 1;
            self.expand(at, &mut marked, &mut waiting, Ghost(set));
            proof {
                assert forall|j: int|
                    0 <= j < marked@.len() && set.contains(
                        (#[trigger] self.cells@[j]).serial,
                    ) implies marked@[j] by {
                    assert(were[j]);
                }
            }
        }
        proof {
            assert(waiting@ =~= Seq::<usize>::empty());
            lemma_marking_done(*self, set, marked@);
            lemma_survivors(self.layouts@, self.cells@, marked@, reached(self@, set));
            lemma_count_survivors(self.cells@, marked@);
        }
        let ghost all = self.cells@;
        let live_bytes: u64 = self.sweep(&marked);
        let live: usize = self.cells.len();
        self.threshold = if live >= COLLECTION_FLOOR / 2 {
            if live <= usize::MAX / 2 {
                2 * live
            } else {
                usize::MAX
            }
        } else {
            COLLECTION_FLOOR
        };
        proof {
            assert forall|i: int| 0 <= i < self.cells@.len() implies 1 <= (
            #[trigger] self.cells@[i]).serial < self.next && self.cells@[i].layout
                < self.layouts@.len() by {
                let j = choose|j: int| 0 <= j < all.len() && #[trigger] all[j] == self.cells@[i];
                assert(all[j] == self.cells@[i]);
            }
        }
        HandleCollection {
            roots_yielded: roots.len() as u64,
            expansions,
            live_objects: live as u64,
            live_bytes,
            freed_objects: (count - live) as u64,
        }
    }
}

/// The words of a run from `from` on.
pub fn copy_words(words: &Vec<u64>, from: usize) -> (copy: Vec<u64>)
    requires
        from <= words@.len(),
    ensures
        copy@ == words@.skip(from as int),
{
    let mut copy: Vec<u64> = Vec::new();
    let mut i: usize = from;
    while i < words.len()
        invariant
            from <= i <= words@.len(),
            copy@ == words@.subrange(from as int, i as int),
        decreases words@.len() - i,
    {
        copy.push(words[i]);
        proof {
            assert(copy@ =~= words@.subrange(from as int, i + 1));
        }
        i = i + 1;
    }
    proof {
        assert(copy@ =~= words@.skip(from as int));
    }
    copy
}

/// A heap may hold twice what outlived its last collection before the next is
/// worth while, and 64 objects at least.
pub proof fn a_heap_may_hold_twice_what_outlived(live: nat)
    requires
        2 * live <= usize::MAX,
    ensures
        paced(live) >= 64,
        paced(live) >= 2 * live,
        paced(live) == 64 || paced(live) == 2 * live,
{
}

proof fn lemma_weight_of_one_more(cells: Seq<Cell>)
    requires
        cells.len() > 0,
    ensures
        weight(cells) == weight(cells.drop_last()) + 8 * cells.last().words@.len(),
    decreases cells.len(),
{
    if cells.len() == 1 {
        assert(cells.drop_last() =~= Seq::empty());
        assert(cells.drop_first() =~= Seq::empty());
    } else {
        lemma_weight_of_one_more(cells.drop_first());
        assert(cells.drop_first().drop_last() =~= cells.drop_last().drop_first());
        assert(cells.drop_last().first() == cells.first());
    }
}

/// The cell with the last handle of a heap, and the heap without it.
proof fn lemma_the_last_cell(layouts: Seq<Layout>, cells: Seq<Cell>)
    requires
        ordered(cells),
        cells.len() > 0,
    ensures
        contents(layouts, cells).dom().contains(cells.last().serial),
        contents(layouts, cells)[cells.last().serial].words == cells.last().words@,
        forall|h: u64| #[trigger]
            contents(layouts, cells).dom().contains(h) ==> h <= cells.last().serial,
        contents(layouts, cells.drop_last()) == contents(layouts, cells).remove(
            cells.last().serial,
        ),
{
    let fewer = cells.drop_last();
    let serial = cells.last().serial;
    assert(ordered(fewer)) by {
        assert forall|i: int, j: int| 0 <= i < j < fewer.len() implies (#[trigger] fewer[i]).serial
            < (#[trigger] fewer[j]).serial by {
            assert(cells[i].serial < cells[j].serial);
        }
    }
    lemma_contents(layouts, fewer);
    lemma_contents(layouts, cells);
    assert forall|h: u64| #[trigger] contents(layouts, cells).dom().contains(h) implies h
        <= serial by {
        let i = choose|i: int| 0 <= i < cells.len() && (#[trigger] cells[i]).serial == h;
        if i < cells.len() - 1 {
            assert(cells[i].serial < cells[cells.len() - 1].serial);
        }
    }
    if contents(layouts, fewer).dom().contains(serial) {
        let i = choose|i: int| 0 <= i < fewer.len() && (#[trigger] fewer[i]).serial == serial;
        assert(cells[i].serial < cells[cells.len() - 1].serial);
    }
    assert(contents(layouts, fewer) =~= contents(layouts, cells).remove(serial));
}

proof fn lemma_counts_agree(
    layouts: Seq<Layout>,
    cells: Seq<Cell>,
    others: Seq<Layout>,
    rest: Seq<Cell>,
)
    requires
        ordered(cells),
        ordered(rest),
        contents(layouts, cells) == contents(others, rest),
    ensures
        cells.len() == rest.len(),
        weight(cells) == weight(rest),
        contents(layouts, cells).dom().finite(),
        contents(layouts, cells).dom().len() == cells.len(),
    decreases cells.len(),
{
    if cells.len() == 0 {
        if rest.len() > 0 {
            lemma_the_last_cell(others, rest);
        }
    } else {
        lemma_the_last_cell(layouts, cells);
        if rest.len() == 0 {
            assert(contents(others, rest).dom() =~= Set::empty());
        }
        lemma_the_last_cell(others, rest);
        assert(cells.last().serial == rest.last().serial);
        let fewer = cells.drop_last();
        let less = rest.drop_last();
        assert forall|i: int, j: int| 0 <= i < j < fewer.len() implies (#[trigger] fewer[i]).serial
            < (#[trigger] fewer[j]).serial by {
            assert(cells[i].serial < cells[j].serial);
        }
        assert forall|i: int, j: int| 0 <= i < j < less.len() implies (#[trigger] less[i]).serial
            < (#[trigger] less[j]).serial by {
            assert(rest[i].serial < rest[j].serial);
        }
        lemma_counts_agree(layouts, fewer, others, less);
        lemma_weight_of_one_more(cells);
        lemma_weight_of_one_more(rest);
        let serial = cells.last().serial;
        assert(contents(layouts, cells).dom() =~= contents(layouts, fewer).dom().insert(serial));
    }
}

/// How many objects stand in a heap and how many bytes they take is a matter of
/// which they are and of nothing else: there are as many as handles that name
/// one, and two heaps of the same objects take the same.
pub proof fn a_heap_counts_what_stands_in_it(heap: HandleHeap, other: HandleHeap)
    requires
        heap.wf(),
        other.wf(),
        heap@ == other@,
    ensures
        heap@.dom().finite(),
        heap.count() == heap@.dom().len(),
        heap.count() == other.count(),
        heap.bytes() == other.bytes(),
{
    lemma_counts_agree(heap.layouts@, heap.cells@, other.layouts@, other.cells@);
}

/// The object of the last handle takes eight bytes for each of its words: a
/// heap like another but for one object more, of a handle after all the
/// other's, takes as much more; and a heap of nothing takes nothing.
pub proof fn an_object_takes_eight_bytes_a_word(
    heap: HandleHeap,
    before: HandleHeap,
    handle: u64,
    object: Object,
)
    requires
        heap.wf(),
        before.wf(),
        !before@.dom().contains(handle),
        forall|h: u64| #[trigger] before@.dom().contains(h) ==> h < handle,
        heap@ == before@.insert(handle, object),
    ensures
        heap.bytes() == before.bytes() + 8 * object.words.len(),
        before@ == Map::<u64, Object>::empty() ==> before.bytes() == 0,
{
    let cells = heap.cells@;
    assert(heap@.dom().contains(handle));
    assert(cells.len() > 0);
    lemma_the_last_cell(heap.layouts@, cells);
    assert(cells.last().serial == handle) by {
        assert(heap@.dom().contains(cells.last().serial));
        if cells.last().serial != handle {
            assert(before@.dom().contains(cells.last().serial));
        }
    }
    let fewer = cells.drop_last();
    assert forall|i: int, j: int| 0 <= i < j < fewer.len() implies (#[trigger] fewer[i]).serial < (
    #[trigger] fewer[j]).serial by {
        assert(cells[i].serial < cells[j].serial);
    }
    assert(contents(heap.layouts@, fewer) =~= before@);
    lemma_counts_agree(heap.layouts@, fewer, before.layouts@, before.cells@);
    lemma_weight_of_one_more(cells);
    if before@ == Map::<u64, Object>::empty() {
        if before.cells@.len() > 0 {
            lemma_the_last_cell(before.layouts@, before.cells@);
        }
    }
}

/// A collection is worth while just when the heap holds as many objects as it
/// may, or is to be collected at every opportunity.
pub proof fn a_collection_is_worth_while_when_the_heap_is_full(heap: HandleHeap)
    ensures
        heap.is_due() <==> heap.is_stressed() || heap.count() >= heap.threshold(),
{
}

/// What a reached object holds as a handle, at whatever place, is reached.
pub proof fn every_handle_of_what_is_reached_is_reached(
    objects: Map<u64, Object>,
    roots: Set<u64>,
    from: u64,
    i: int,
)
    requires
        reached(objects, roots).contains(from),
        objects.dom().contains(from),
        0 <= i < objects[from].words.len(),
        i < objects[from].plan.refs.len(),
        objects[from].plan.refs[i],
    ensures
        reached(objects, roots).contains(objects[from].words[i]),
{
    let to = objects[from].words[i];
    let path = choose|path: Seq<u64>| #[trigger]
        trail(objects, path) && roots.contains(path[0]) && path.last() == from;
    let longer = path.push(to);
    assert(objects[from].is_ref(i));
    assert forall|k: int| 0 <= k < longer.len() - 1 implies objects.dom().contains(
        #[trigger] longer[k],
    ) && objects[longer[k]].names(longer[k + 1]) by {
        assert(longer[k] == path[k]);
        if k < path.len() - 1 {
            assert(longer[k + 1] == path[k + 1]);
        }
    }
    assert(trail(objects, longer));
    assert(longer[0] == path[0]);
    assert(longer.last() == to);
}

/// Nothing is reached but the roots and what handles lead to: what holds of the
/// roots, and of every handle of an object it holds of, holds of all that is
/// reached.
pub proof fn only_what_handles_lead_to_is_reached(
    objects: Map<u64, Object>,
    roots: Set<u64>,
    among: Set<u64>,
    to: u64,
)
    requires
        forall|root: u64| #[trigger] roots.contains(root) ==> among.contains(root),
        forall|from: u64, i: int|
            #![trigger objects[from].words[i]]
            among.contains(from) && objects.dom().contains(from) && 0 <= i
                < objects[from].words.len() && i < objects[from].plan.refs.len()
                && objects[from].plan.refs[i] ==> among.contains(objects[from].words[i]),
        reached(objects, roots).contains(to),
    ensures
        among.contains(to),
{
    let path = choose|path: Seq<u64>| #[trigger]
        trail(objects, path) && roots.contains(path[0]) && path.last() == to;
    lemma_a_trail_stays_among(objects, among, path, path.len() - 1);
}

proof fn lemma_a_trail_stays_among(
    objects: Map<u64, Object>,
    among: Set<u64>,
    path: Seq<u64>,
    k: int,
)
    requires
        trail(objects, path),
        0 <= k < path.len(),
        among.contains(path[0]),
        forall|from: u64, i: int|
            #![trigger objects[from].words[i]]
            among.contains(from) && objects.dom().contains(from) && 0 <= i
                < objects[from].words.len() && i < objects[from].plan.refs.len()
                && objects[from].plan.refs[i] ==> among.contains(objects[from].words[i]),
    ensures
        among.contains(path[k]),
    decreases k,
{
    if k > 0 {
        lemma_a_trail_stays_among(objects, among, path, k - 1);
        let from = path[k - 1];
        assert(objects[from].names(path[k - 1 + 1]));
        let i = choose|i: int| #[trigger]
            objects[from].is_ref(i) && objects[from].words[i] == path[k];
        assert(among.contains(objects[from].words[i]));
    }
}

} // verus!
