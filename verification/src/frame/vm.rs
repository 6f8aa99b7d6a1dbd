//! The eight-byte-frame backend: one stack of words, one bit beside each word
//! that says whether it is a handle, and a heap of its own.
use crate::budget::{tally, Budget, Stopped};
use crate::error::{RuntimeError, Span};
use crate::frame::bitmap::{Bitmap, FrameMap};
use crate::frame::kinds::{Kind, Part};
use crate::frame::layout::EnumSite;
use crate::frame::machine::{Call, Machine, Pending};
use crate::frame::operands::Operands;
use crate::heap::HeapStats;
use crate::ir::{Const, Function, FunctionId, Inst, Program};
use crate::schema::HostType;
use crate::slot::{HandleHeap, Object, Plan};
use crate::value::Value;
use vstd::prelude::*;
use vstd::string::*;

verus! {

/// What the program says once and for all, worked out before a run.
#[derive(Debug)]
pub struct Tables {
    /// The layout of each declared struct.
    pub shapes: Vec<usize>,
    pub str_layout: usize,
    pub error_layout: usize,
    /// The layout of each case that something can build.
    pub enum_layouts: Vec<(EnumSite, usize)>,
    /// The layout of what each instruction builds, where it builds a case.
    pub enum_site_layout: Vec<Vec<Option<usize>>>,
    pub field_at: Vec<Option<usize>>,
    pub maps: Vec<FrameMap>,
    pub operands: Vec<Operands>,
    /// The word each constant is.
    pub constants: Vec<u64>,
    /// The handles of the text constants.
    pub string_constants: Vec<u64>,
}

/// A frame map is that of a function.
pub open spec fn maps_function(map: FrameMap, function: Function) -> bool {
    &&& map.width == function.slots@.len()
    &&& forall|at: int|
        #![trigger map.names(at)]
        map.names(at) == (0 <= at < function.slots@.len() && function.slots@[at] is Value)
}

/// A layout is registered for a site.
pub open spec fn registered(
    layouts: Seq<(EnumSite, usize)>,
    site: crate::frame::layout::Site,
) -> bool {
    exists|k: int| 0 <= k < layouts.len() && (#[trigger] layouts[k]).0@ == site
}

impl Tables {
    /// The sites of one function's code have the layouts the tables give.
    pub open spec fn sites_ok(self, program: Program, plans: Seq<Plan>, f: int) -> bool {
        let function = program.functions@[f];
        let sites = self.enum_site_layout@[f]@;
        &&& sites.len() == function.code@.len()
        &&& forall|pc: int|
            0 <= pc < sites.len() ==> match #[trigger] sites[pc] {
                Some(id) => id < plans.len() && (crate::frame::layout::construction(
                    program,
                    crate::frame::operands::operands_of(program, function),
                    pc,
                    function.code@[pc],
                ) matches Some(site) && plans[id as int] == crate::frame::machine::site_plan(site)),
                None => crate::frame::layout::construction(
                    program,
                    crate::frame::operands::operands_of(program, function),
                    pc,
                    function.code@[pc],
                ) is None,
            }
    }

    /// Every case a Host call of one function's code may answer has a layout.
    pub open spec fn hosts_ok(self, program: Program, f: int) -> bool {
        let function = program.functions@[f];
        forall|pc: int|
            0 <= pc < function.code@.len() ==> self.host_ok(
                program,
                #[trigger] function.code@[pc],
            )
    }

    /// Every case a Host call may answer has a layout.
    pub open spec fn host_ok(self, program: Program, inst: Inst) -> bool {
        match inst {
            Inst::CallHost { module, op, argc: _ } => match crate::frame::kinds::host_answer(
                program,
                program.name_text(module),
                program.name_text(op),
            ) {
                Some(ty) => crate::frame::kinds::host_word(ty) is Some ==> self.type_ok(ty),
                None => true,
            },
            _ => true,
        }
    }

    /// Every case a value of a host type is built out of has a layout.
    pub open spec fn type_ok(self, ty: crate::schema::HostType) -> bool {
        forall|k: int|
            0 <= k < crate::frame::layout::host_sites(ty).len() ==> registered(
                self.enum_layouts@,
                #[trigger] crate::frame::layout::host_sites(ty)[k],
            )
    }

    /// The tables are those of the program, over the layouts registered.
    pub open spec fn ok(self, program: Program, plans: Seq<Plan>) -> bool {
        &&& crate::frame::validity::valid(program)
        &&& self.shapes@.len() == program.structs@.len()
        &&& forall|i: int|
            0 <= i < self.shapes@.len() ==> (#[trigger] self.shapes@[i]) < plans.len()
                && plans[self.shapes@[i] as int] == crate::frame::machine::struct_plan(
                program.structs@[i],
            )
        &&& self.str_layout < plans.len()
        &&& plans[self.str_layout as int] == crate::frame::machine::text_plan()
        &&& self.error_layout < plans.len()
        &&& plans[self.error_layout as int] == crate::frame::machine::error_plan()
        &&& forall|k: int|
            0 <= k < self.enum_layouts@.len() ==> (#[trigger] self.enum_layouts@[k]).1
                < plans.len() && plans[self.enum_layouts@[k].1 as int]
                == crate::frame::machine::site_plan(self.enum_layouts@[k].0@)
        &&& self.enum_site_layout@.len() == program.functions@.len()
        &&& forall|f: int| 0 <= f < program.functions@.len() ==> self.sites_ok(program, plans, f)
        &&& forall|f: int| 0 <= f < program.functions@.len() ==> self.hosts_ok(program, f)
        &&& crate::frame::layout::positions_are(program, self.field_at@)
        &&& self.maps@.len() == program.functions@.len()
        &&& forall|f: int|
            0 <= f < program.functions@.len() ==> maps_function(
                #[trigger] self.maps@[f],
                program.functions@[f],
            )
        &&& self.operands@.len() == program.functions@.len()
        &&& forall|f: int|
            0 <= f < program.functions@.len() ==> (#[trigger] self.operands@[f])@
                == crate::frame::operands::operands_of(program, program.functions@[f])
        &&& self.constants@.len() == program.constants@.len()
        &&& forall|i: int|
            0 <= i < self.constants@.len() ==> #[trigger] self.constants@[i]
                == crate::frame::machine::constant(program, crate::ir::ConstId(i as u32))
        &&& program.constants@.len() <= u32::MAX
        &&& forall|i: int|
            0 <= i < program.constants@.len() && #[trigger] program.constants@[i] is Str
                ==> self.string_constants@.contains(
                crate::frame::machine::constant(program, crate::ir::ConstId(i as u32)),
            )
    }
}

/// The eight-byte-frame backend.
pub struct FrameVm<'a> {
    program: &'a Program,
    tables: Tables,
    words: Vec<u64>,
    refs: Bitmap,
    heap: HandleHeap,
    /// Handles held while the object they name is read outside the stack.
    temps: Vec<u64>,
    due: bool,
    frames: Vec<Call>,
    pc: usize,
    boundary: Vec<Value>,
    pending: Pending,
    materialized: u64,
    heap_stats: HeapStats,
    roots_yielded: u64,
    expansions: u64,
    marked: u64,
    most_roots_at_once: u64,
    most_expansions_at_once: u64,
    fuel: u64,
    instructions: u64,
    budget: Option<Budget>,
    assertion_failure: Option<(Span, String)>,
    high_water: usize,
    wait: u64,
    /// How many safepoints were passed.
    safepoints: Ghost<int>,
    /// What each collection found and did.
    sweeps: Ghost<Seq<Sweep>>,
    /// Every object that was ever made.
    all: Ghost<Map<u64, Object>>,
}

/// What one collection found and did.
pub ghost struct Sweep {
    /// How many roots it walked.
    pub roots: u64,
    pub freed_objects: u64,
    pub live_objects: u64,
    pub live_bytes: u64,
    /// How long the run stood still for it, in nanoseconds.
    pub pause: u64,
}

/// What some collections come to.
pub ghost struct Account {
    pub collections: u64,
    pub freed_objects: u64,
    pub live_objects: u64,
    pub live_bytes: u64,
    pub peak_bytes: u64,
    pub pause: u64,
    pub roots: u64,
    pub marked: u64,
    pub most_roots: u64,
    pub most_marked: u64,
}

/// The greater of two.
pub open spec fn greater(a: u64, b: u64) -> u64 {
    if a >= b {
        a
    } else {
        b
    }
}

/// What collections come to with one more: the totals grow, what is live is
/// what the last one found, and the peaks are the most there was.
pub open spec fn one_more_sweep(account: Account, sweep: Sweep) -> Account {
    Account {
        collections: crate::budget::tallied(account.collections as int, 1) as u64,
        freed_objects: crate::budget::tallied(
            account.freed_objects as int,
            sweep.freed_objects as int,
        ) as u64,
        live_objects: sweep.live_objects,
        live_bytes: sweep.live_bytes,
        peak_bytes: greater(account.peak_bytes, sweep.live_bytes),
        pause: crate::budget::tallied(account.pause as int, sweep.pause as int) as u64,
        roots: crate::budget::tallied(account.roots as int, sweep.roots as int) as u64,
        marked: crate::budget::tallied(account.marked as int, sweep.live_objects as int) as u64,
        most_roots: greater(account.most_roots, sweep.roots),
        most_marked: greater(account.most_marked, sweep.live_objects),
    }
}

/// What all of some collections come to.
pub open spec fn account_of(sweeps: Seq<Sweep>) -> Account
    decreases sweeps.len(),
{
    if sweeps.len() == 0 {
        Account {
            collections: 0,
            freed_objects: 0,
            live_objects: 0,
            live_bytes: 0,
            peak_bytes: 0,
            pause: 0,
            roots: 0,
            marked: 0,
            most_roots: 0,
            most_marked: 0,
        }
    } else {
        one_more_sweep(account_of(sweeps.drop_last()), sweeps.last())
    }
}

/// The first collections are those there were before.
pub open spec fn goes_on_from(sweeps: Seq<Sweep>, before: Seq<Sweep>) -> bool {
    &&& before.len() <= sweeps.len()
    &&& forall|i: int| 0 <= i < before.len() ==> #[trigger] sweeps[i] == before[i]
}

/// What a run that has stopped for now has come to.
#[derive(Debug)]
pub enum Pause {
    /// The steps allowed have been taken.
    Yielded,
    /// The entry answered.
    Answered(Value),
    /// The run ended in an error.
    Raised(RuntimeError),
    /// The run waits for a host to answer.
    Host { module: String, op: String, arguments: Vec<Value>, span: Span },
    /// The run waits for a builtin to answer.
    Builtin { name: String, arguments: Vec<Value>, span: Span },
    /// An instruction asks for what is not there.
    Stuck,
}

/// A pause is what an outcome says, in the state it says.
pub open spec fn shows(
    outcome: crate::frame::machine::Outcome,
    after: Machine,
    pause: Pause,
) -> bool {
    match outcome {
        crate::frame::machine::Outcome::Next(m) => pause is Yielded && after == m,
        crate::frame::machine::Outcome::Answered(m, datum) => pause matches Pause::Answered(value)
            && value@ == datum && after == m,
        crate::frame::machine::Outcome::Raised(m, failure) => pause matches Pause::Raised(error)
            && error@ == failure && after == m,
        crate::frame::machine::Outcome::Host(m, mo, o, data, s) => {
            &&& pause matches Pause::Host { module, op, arguments, span }
            &&& module@ == mo
            &&& op@ == o
            &&& crate::value::data(arguments@) == data
            &&& span == s
            &&& after == m
        },
        crate::frame::machine::Outcome::Builtin(m, n, data, s) => {
            &&& pause matches Pause::Builtin { name, arguments, span }
            &&& name@ == n
            &&& crate::value::data(arguments@) == data
            &&& span == s
            &&& after == m
        },
        crate::frame::machine::Outcome::Stuck => pause is Stuck,
    }
}

/// The words of a stack that are handles, and the handles held beside it.
pub open spec fn roots_of(
    words: Seq<u64>,
    refs: Seq<bool>,
    temps: Seq<u64>,
    constants: Seq<u64>,
) -> Set<u64> {
    Set::new(
        |s: u64|
            (exists|i: int| 0 <= i < words.len() && refs[i] && #[trigger] words[i] == s)
                || temps.contains(s) || constants.contains(s),
    )
}

impl<'a> View for FrameVm<'a> {
    type V = Machine;

    closed spec fn view(&self) -> Machine {
        Machine {
            words: self.words@,
            refs: self.flags(),
            objects: self.all@,
            next: self.heap.next_handle() as int,
            frames: self.frames@,
            pc: self.pc as int,
            boundary: crate::value::data(self.boundary@),
            fuel: self.fuel as int,
            instructions: self.instructions as int,
            materialized: self.materialized as int,
            allocated_objects: self.heap_stats.allocated_objects as int,
            allocated_bytes: self.heap_stats.allocated_bytes as int,
            high_water: self.high_water as int,
            safepoints: self.safepoints@,
            budget: self.budget,
            pending: self.pending,
            assertion_failure: match self.assertion_failure {
                Some(pair) => Some((pair.0, pair.1@)),
                None => None,
            },
        }
    }
}

impl<'a> FrameVm<'a> {
    spec fn flags(self) -> Seq<bool> {
        Seq::new(self.words@.len(), |i: int| self.refs.is_ref(i))
    }

    /// What a collection starts from.
    spec fn roots(self) -> Set<u64> {
        roots_of(self.words@, self.flags(), self.temps@, self.tables.string_constants@)
    }

    /// The program that runs.
    pub closed spec fn of(self) -> Program {
        *self.program
    }

    /// What neither an instruction nor a collection changes.
    spec fn steady(self, old: Self) -> bool {
        &&& self.program == old.program
        &&& self.tables == old.tables
        &&& self.temps@ == old.temps@
        &&& self.heap.plans() == old.heap.plans()
        &&& self.wait == old.wait
        &&& self.heap.is_stressed() == old.heap.is_stressed()
        &&& old.heap.is_stressed() && old.due ==> self.due
    }

    /// What no instruction changes. Where every opportunity to collect is to be
    /// taken, there is a collection at each safepoint at least.
    spec fn fixed(self, old: Self) -> bool {
        let passed = self.safepoints@ - old.safepoints@;
        let before = old.heap_stats.collections as int;
        &&& self.steady(old)
        &&& passed >= 0
        &&& self.heap_stats.collections >= before
        &&& goes_on_from(self.sweeps@, old.sweeps@)
        &&& old.heap.is_stressed() && old.due ==> self.heap_stats.collections
            >= crate::budget::tallied(before, passed)
    }

    /// Every object that was ever made, and every text the program came with,
    /// still stands or was freed, as long as the counts have not run full.
    spec fn counted(self) -> bool {
        let made = self.heap_stats.allocated_objects + self.tables.string_constants@.len();
        made < u64::MAX ==> made == self.heap_stats.freed_objects + self.heap.count()
    }

    /// What the counts of collections say.
    spec fn account(self) -> Account {
        Account {
            collections: self.heap_stats.collections,
            freed_objects: self.heap_stats.freed_objects,
            live_objects: self.heap_stats.live_objects,
            live_bytes: self.heap_stats.live_bytes,
            peak_bytes: self.heap_stats.peak_bytes,
            pause: self.heap_stats.pause,
            roots: self.roots_yielded,
            marked: self.marked,
            most_roots: self.most_roots_at_once,
            most_marked: self.most_expansions_at_once,
        }
    }

    /// Everything but what a collection keeps.
    spec fn sound(self) -> bool {
        &&& self.heap.wf()
        &&& self.counted()
        &&& self.account() == account_of(self.sweeps@)
        &&& self.expansions == self.marked
        &&& self.tables.ok(*self.program, self.heap.plans())
        &&& forall|s: u64| #[trigger]
            self.all@.dom().contains(s) ==> 1 <= s < self.heap.next_handle()
        &&& forall|i: int|
            0 <= i < self.frames@.len() ==> self.program.has_function(
                (#[trigger] self.frames@[i]).function,
            )
    }

    /// The backend's invariant, with more handles held than the stack holds.
    spec fn holds(self, extra: Set<u64>) -> bool {
        &&& self.sound()
        &&& crate::slot::covers(self.all@, self.heap@, self.roots().union(extra))
    }

    /// The backend's invariant: nothing a run can still name has been freed.
    pub closed spec fn wf(self) -> bool {
        self.holds(Set::empty())
    }

    // ------------------------------------------------------ words

    /// Handles that are held by the stack, or by what it holds.
    spec fn held(self, handle: u64) -> bool {
        crate::slot::reaches(self.all@, self.roots(), handle)
    }

    /// A stack whose handles were all held is held.
    proof fn lemma_still_held(self, before: Self, extra: Set<u64>)
        requires
            before.holds(extra),
            self.sound(),
            self.all == before.all,
            self.heap == before.heap,
            forall|s: u64| #[trigger]
                self.roots().contains(s) ==> crate::slot::reaches(
                    before.all@,
                    before.roots().union(extra),
                    s,
                ) || !before.all@.dom().contains(s),
        ensures
            self.wf(),
    {
        crate::slot::lemma_covers_roots(
            self.all@,
            self.heap@,
            before.roots().union(extra),
            self.roots().union(Set::empty()),
        );
    }

    /// What was a root is reached.
    proof fn lemma_root_reached(self, extra: Set<u64>, s: u64)
        requires
            self.roots().contains(s) || extra.contains(s),
        ensures
            crate::slot::reaches(self.all@, self.roots().union(extra), s),
    {
        crate::slot::lemma_root_is_reached(self.all@, self.roots().union(extra), s);
    }

    /// Pushes a word, and says whether it is a handle.
    fn push_word(&mut self, word: u64, is_reference: bool, Ghost(extra): Ghost<Set<u64>>)
        requires
            old(self).holds(extra),
            is_reference ==> crate::slot::reaches(
                old(self).all@,
                old(self).roots().union(extra),
                word,
            ),
        ensures
            final(self).wf(),
            final(self).fixed(*old(self)),
            final(self)@ == old(self)@.push(word, is_reference),
    {
        let at: usize = self.words.len();
        self.words.push(word);
        self.refs.write(at, is_reference);
        if self.words.len() > self.high_water {
            self.high_water = self.words.len();
        }
        proof {
            assert(self.flags() =~= old(self).flags().push(is_reference));
            assert forall|s: u64| #[trigger] self.roots().contains(s) implies crate::slot::reaches(
                old(self).all@,
                old(self).roots().union(extra),
                s,
            ) || !old(self).all@.dom().contains(s) by {
                if !(is_reference && s == word) {
                    if exists|i: int|
                        0 <= i < self.words@.len() && self.flags()[i] && #[trigger] self.words@[i]
                            == s {
                        let i = choose|i: int|
                            0 <= i < self.words@.len() && self.flags()[i]
                                && #[trigger] self.words@[i] == s;
                        assert(i < at);
                        assert(old(self).words@[i] == s);
                    }
                    old(self).lemma_root_reached(extra, s);
                }
            }
            self.lemma_still_held(*old(self), extra);
        }
    }

    /// Cuts the stack down to its first `len` words.
    fn cut(&mut self, len: usize)
        requires
            old(self).wf(),
            len <= old(self)@.words.len(),
        ensures
            final(self).wf(),
            final(self).fixed(*old(self)),
            final(self)@ == old(self)@.dropped(old(self)@.words.len() - len),
    {
        self.words.truncate(len);
        proof {
            assert(self.flags() =~= old(self).flags().take(len as int));
            assert forall|s: u64| #[trigger] self.roots().contains(s) implies crate::slot::reaches(
                old(self).all@,
                old(self).roots().union(Set::empty()),
                s,
            ) || !old(self).all@.dom().contains(s) by {
                if exists|i: int|
                    0 <= i < self.words@.len() && self.flags()[i] && #[trigger] self.words@[i]
                        == s {
                    let i = choose|i: int|
                        0 <= i < self.words@.len() && self.flags()[i] && #[trigger] self.words@[i]
                            == s;
                    assert(old(self).words@[i] == s);
                }
                old(self).lemma_root_reached(Set::empty(), s);
            }
            self.lemma_still_held(*old(self), Set::empty());
        }
    }

    /// Takes the top word.
    fn pop_word(&mut self) -> (word: u64)
        requires
            old(self).wf(),
            old(self)@.words.len() > 0,
        ensures
            final(self).wf(),
            final(self).fixed(*old(self)),
            word == old(self)@.top(),
            final(self)@ == old(self)@.dropped(1),
    {
        let last: usize = self.words.len() - 1;
        let word: u64 = self.words[last];
        self.cut(last);
        word
    }

    // -------------------------------------------------------- collections

    /// Every handle the stack, the held handles and the constants name.
    fn gather_roots(&self) -> (list: Vec<u64>)
        ensures
            forall|s: u64| #[trigger] self.roots().contains(s) <==> list@.contains(s),
    {
        let mut list: Vec<u64> = Vec::new();
        let found = self.refs.references(0, self.words.len());
        let mut i: usize = 0;
        proof {
            assert forall|k: int| 0 <= k < found@.len() implies (#[trigger] found@[k])
                < self.words@.len() && self.refs.is_ref(found@[k] as int) by {
                let at = found@[k] as int;
                let named = self.refs.is_ref(at);
                assert(found@[k] == at);
            }
        }
        while i < found.len()
            invariant
                i <= found@.len(),
                list@.len() == i,
                forall|k: int|
                    0 <= k < found@.len() ==> (#[trigger] found@[k]) < self.words@.len(),
                forall|k: int| 0 <= k < i ==> #[trigger] list@[k] == self.words@[found@[k] as int],
            decreases found@.len() - i,
        {
            list.push(self.words[found[i]]);
            i = i + 1;
        }
        let ghost stack = list@;
        i = 0;
        while i < self.temps.len()
            invariant
                i <= self.temps@.len(),
                list@ == stack + self.temps@.take(i as int),
            decreases self.temps@.len() - i,
        {
            list.push(self.temps[i]);
            proof {
                assert(list@ =~= stack + self.temps@.take(i + 1));
            }
            i = i + 1;
        }
        let ghost more = list@;
        let constants = &self.tables.string_constants;
        i = 0;
        while i < constants.len()
            invariant
                i <= constants@.len(),
                list@ == more + constants@.take(i as int),
            decreases constants@.len() - i,
        {
            list.push(constants[i]);
            proof {
                assert(list@ =~= more + constants@.take(i + 1));
            }
            i = i + 1;
        }
        proof {
            assert(self.temps@.take(self.temps@.len() as int) =~= self.temps@);
            assert(constants@.take(constants@.len() as int) =~= constants@);
            assert forall|s: u64| #[trigger]
                self.roots().contains(s) implies list@.contains(s) by {
                if self.temps@.contains(s) {
                    let k = choose|k: int| 0 <= k < self.temps@.len() && self.temps@[k] == s;
                    assert(list@[stack.len() + k] == s);
                } else if constants@.contains(s) {
                    let k = choose|k: int| 0 <= k < constants@.len() && constants@[k] == s;
                    assert(list@[more.len() + k] == s);
                } else {
                    let at = choose|at: int|
                        0 <= at < self.words@.len() && self.flags()[at] && #[trigger] self.words@[at]
                            == s;
                    assert(self.refs.is_ref(at));
                    let k = choose|k: int| 0 <= k < found@.len() && #[trigger] found@[k] == at;
                    assert(list@[k] == s);
                }
            }
            assert forall|s: u64| list@.contains(s) implies #[trigger] self.roots().contains(s) by {
                let k = choose|k: int| 0 <= k < list@.len() && list@[k] == s;
                if k < stack.len() {
                    let at = found@[k] as int;
                    assert(self.refs.is_ref(at));
                    assert(self.flags()[at] && self.words@[at] == s);
                } else if k < more.len() {
                    assert(self.temps@[k - stack.len()] == s);
                } else {
                    assert(constants@[k - more.len()] == s);
                }
            }
        }
        list
    }

    /// What a collection found and did is true of the heap before it and after.
    spec fn swept(self, before: Self, sweep: Sweep) -> bool {
        &&& sweep.live_objects == self.heap.count()
        &&& sweep.live_objects + sweep.freed_objects == before.heap.count()
        &&& sweep.live_bytes == crate::budget::tallied(self.heap.bytes(), 0)
        &&& exists|list: Seq<u64>| #[trigger]
            crate::slot::as_roots(list) == before.roots() && sweep.roots == list.len()
    }

    /// Collects if the heap says a collection is due, from every word that is
    /// a handle and every handle held. No program can tell, but for the time
    /// it took.
    fn collect_if_due(&mut self)
        requires
            old(self).wf(),
        ensures
            final(self).wf(),
            final(self).steady(*old(self)),
            final(self)@ == old(self)@,
            final(self).heap_stats.collections == (if old(self).due {
                crate::budget::tallied(old(self).heap_stats.collections as int, 1)
            } else {
                old(self).heap_stats.collections as int
            }),
            !old(self).due ==> *final(self) == *old(self),
            old(self).due ==> final(self).heap@ == old(self).heap@.restrict(
                crate::slot::reached(old(self).heap@, old(self).roots()),
            ),
            old(self).due ==> final(self).sweeps@ == old(self).sweeps@.push(
                final(self).sweeps@.last(),
            ) && final(self).swept(*old(self), final(self).sweeps@.last()),
            goes_on_from(final(self).sweeps@, old(self).sweeps@),
    {
        if !self.due {
            return;
        }
        let list = self.gather_roots();
        proof {
            assert(crate::slot::as_roots(list@) =~= self.roots());
            assert(self.roots().union(Set::empty()) =~= self.roots());
            crate::slot::a_collection_loses_nothing_reachable(
                self.all@,
                self.heap@,
                self.roots(),
            );
        }
        let began = crate::host::now();
        let collected = self.heap.collect(&list);
        let pause: u64 = crate::host::nanoseconds_since(&began);
        let ghost sweep = Sweep {
            roots: collected.roots_yielded,
            freed_objects: collected.freed_objects,
            live_objects: collected.live_objects,
            live_bytes: collected.live_bytes,
            pause,
        };
        self.sweeps = Ghost(self.sweeps@.push(sweep));
        self.heap_stats.pause = tally(self.heap_stats.pause, pause);
        self.heap_stats.collections = tally(self.heap_stats.collections, 1);
        self.heap_stats.freed_objects = tally(
            self.heap_stats.freed_objects,
            collected.freed_objects,
        );
        self.heap_stats.live_objects = collected.live_objects;
        self.heap_stats.live_bytes = collected.live_bytes;
        if collected.live_bytes > self.heap_stats.peak_bytes {
            self.heap_stats.peak_bytes = collected.live_bytes;
        }
        self.roots_yielded = tally(self.roots_yielded, collected.roots_yielded);
        self.expansions = tally(self.expansions, collected.expansions);
        self.marked = tally(self.marked, collected.live_objects);
        if collected.roots_yielded > self.most_roots_at_once {
            self.most_roots_at_once = collected.roots_yielded;
        }
        if collected.expansions > self.most_expansions_at_once {
            self.most_expansions_at_once = collected.expansions;
        }
        self.due = self.heap.should_collect();
        proof {
            assert(self.roots() =~= old(self).roots());
            assert(self@ == old(self)@);
            assert(self.sweeps@.drop_last() =~= old(self).sweeps@);
            assert(crate::slot::as_roots(list@) == old(self).roots());
        }
    }
}

/// What a charge or a safepoint comes to.
pub open spec fn comes_to(
    expected: Result<Machine, (Machine, crate::error::Failure)>,
    after: Machine,
    result: Result<(), RuntimeError>,
) -> bool {
    match expected {
        Ok(m) => result is Ok && after == m,
        Err(stopped) => result matches Err(error) && error@ == stopped.1 && after == stopped.0,
    }
}

impl<'a> FrameVm<'a> {
    // ------------------------------------------------------------- fuel

    /// Hands the fuel charged to the budget, and asks whether the run may go
    /// on.
    fn ask_budget(&mut self, span: Span) -> (result: Result<(), RuntimeError>)
        requires
            old(self).wf(),
        ensures
            final(self).wf(),
            final(self).fixed(*old(self)),
            final(self).due == old(self).due,
            final(self).safepoints@ == old(self).safepoints@,
            final(self).heap_stats == old(self).heap_stats,
            final(self).sweeps == old(self).sweeps,
            final(self).heap == old(self).heap,
            final(self).roots() == old(self).roots(),
            comes_to(crate::frame::machine::asked(old(self)@, span), final(self)@, result),
    {
        let fuel: u64 = self.fuel;
        self.fuel = 0;
        proof {
            assert(self.flags() =~= old(self).flags());
            assert(self.roots() =~= old(self).roots());
        }
        match self.budget {
            None => Ok(()),
            Some(found) => {
                let mut budget: Budget = found;
                let asked = budget.safepoint(fuel);
                self.budget = Some(budget);
                proof {
                    assert(self.flags() =~= old(self).flags());
                    assert(self.roots() =~= old(self).roots());
                }
                match asked {
                    Ok(_) => Ok(()),
                    Err(stopped) => Err(budget.to_runtime_error(stopped).at(span)),
                }
            },
        }
    }

    /// Hands the fuel charged to the budget, asks whether the run may go on,
    /// and collects if a collection is due.
    fn safepoint(&mut self, span: Span) -> (result: Result<(), RuntimeError>)
        requires
            old(self).wf(),
        ensures
            final(self).wf(),
            final(self).fixed(*old(self)),
            comes_to(crate::frame::machine::safepoint(old(self)@, span), final(self)@, result),
            result is Ok && old(self).due ==> final(self).heap@ == old(self).heap@.restrict(
                crate::slot::reached(old(self).heap@, old(self).roots()),
            ) && final(self).heap_stats.collections == crate::budget::tallied(
                old(self).heap_stats.collections as int,
                1,
            ) && final(self).sweeps@ == old(self).sweeps@.push(final(self).sweeps@.last())
                && final(self).swept(*old(self), final(self).sweeps@.last()),
    {
        match self.ask_budget(span) {
            Err(error) => Err(error),
            Ok(_) => {
                self.collect_if_due();
                self.safepoints = Ghost(self.safepoints@ + 1);
                proof {
                    assert(self.flags() =~= old(self).flags());
                    assert(self.roots() =~= old(self).roots());
                }
                Ok(())
            },
        }
    }

    /// Charges a block's worth of instructions, and takes a safepoint once
    /// enough has gathered.
    fn charge(&mut self, block: u32, span: Span) -> (result: Result<(), RuntimeError>)
        requires
            old(self).wf(),
        ensures
            final(self).wf(),
            final(self).fixed(*old(self)),
            comes_to(
                crate::frame::machine::charge(old(self)@, block as int, span),
                final(self)@,
                result,
            ),
    {
        let count: u64 = block as u64;
        self.instructions = tally(self.instructions, count);
        self.fuel = tally(self.fuel, count * crate::frame::machine::INSTRUCTION_FUEL);
        proof {
            assert(self.flags() =~= old(self).flags());
            assert(self.roots() =~= old(self).roots());
        }
        if self.fuel >= crate::frame::machine::SAFEPOINT_INTERVAL {
            self.safepoint(span)
        } else {
            Ok(())
        }
    }

    /// A safepoint at a back edge, once enough has gathered.
    fn back_edge(&mut self, span: Span) -> (result: Result<(), RuntimeError>)
        requires
            old(self).wf(),
        ensures
            final(self).wf(),
            final(self).fixed(*old(self)),
            comes_to(crate::frame::machine::back_edge(old(self)@, span), final(self)@, result),
    {
        if self.fuel >= crate::frame::machine::BACK_EDGE_FUEL {
            self.safepoint(span)
        } else {
            Ok(())
        }
    }

    /// Spends whatever was charged and not yet handed over, however the run
    /// ended.
    pub fn spend_pending_fuel(&mut self)
        requires
            old(self).wf(),
        ensures
            final(self).wf(),
            final(self).of() == old(self).of(),
            final(self).held_outside() == old(self).held_outside(),
            final(self).waited() == old(self).waited(),
            final(self).keeps_collecting(*old(self)),
            final(self)@ == crate::frame::machine::settled(old(self)@),
    {
        let fuel: u64 = self.fuel;
        self.fuel = 0;
        if let Some(found) = self.budget {
            let mut budget: Budget = found;
            budget.spend(fuel);
            self.budget = Some(budget);
        }
        proof {
            assert(self.flags() =~= old(self).flags());
            assert(self.roots() =~= old(self).roots());
        }
    }

    // ---------------------------------------------------------- reading

    /// A handle that is held names in the heap what it ever named.
    proof fn lemma_sees(self, extra: Set<u64>, handle: u64)
        requires
            self.holds(extra),
            crate::slot::reaches(self.all@, self.roots().union(extra), handle),
        ensures
            self.heap@.dom().contains(handle) <==> self.all@.dom().contains(handle),
            self.heap@.dom().contains(handle) ==> self.heap@[handle] == self.all@[handle],
    {
    }

    /// Roots held already stay held with more beside them.
    proof fn lemma_held_is_reached(self, handle: u64)
        requires
            self.held(handle),
        ensures
            crate::slot::reaches(self.all@, self.roots().union(Set::empty()), handle),
    {
        assert(self.roots().union(Set::empty()) =~= self.roots());
    }

    /// The bytes of the text a handle names.
    fn bytes_of(&self, handle: u64) -> (bytes: Option<Vec<u8>>)
        requires
            self.wf(),
            self.held(handle),
        ensures
            match bytes {
                Some(list) => crate::frame::machine::bytes_at(self@.objects, handle) == Some(list@),
                None => crate::frame::machine::bytes_at(self@.objects, handle) is None,
            },
    {
        proof {
            self.lemma_held_is_reached(handle);
            self.lemma_sees(Set::empty(), handle);
        }
        match self.heap.layout_of(handle) {
            None => {
                return None;
            },
            Some(layout) => match &layout.shape {
                crate::slot::Shape::Str => {},
                _ => {
                    return None;
                },
            },
        }
        let ghost words = self.heap@[handle].words;
        let count: usize = self.heap.layout_words(handle);
        let length: u64 = match self.heap.word(handle, 0) {
            Some(length) => length,
            None => {
                return None;
            },
        };
        let full: u64 = length / 8 + (if length % 8 == 0 {
            0u64
        } else {
            1
        });
        proof {
            assert(full == crate::frame::packing::chunks(length as int));
        }
        if full != (count - 1) as u64 {
            return None;
        }
        let mut bytes: Vec<u8> = Vec::new();
        let mut at: u64 = 0;
        while at < length
            invariant
                self.wf(),
                self.heap@.dom().contains(handle),
                words == self.heap@[handle].words,
                length == words[0],
                words.len() == 1 + crate::frame::packing::chunks(length as int),
                words.len() <= usize::MAX,
                at <= length,
                bytes@ == crate::frame::packing::unpacked(words).take(at as int),
            decreases length - at,
        {
            let index: usize = 1 + (at / 8) as usize;
            match self.heap.word(handle, index) {
                None => {},
                Some(word) => {
                    bytes.push(crate::frame::packing::word_byte(word, (at % 8) as usize));
                },
            }
            proof {
                assert(bytes@ =~= crate::frame::packing::unpacked(words).take(at + 1));
            }
            at = at + 1;
        }
        proof {
            assert(crate::frame::packing::unpacked(words).take(at as int)
                =~= crate::frame::packing::unpacked(words));
        }
        Some(bytes)
    }

    /// The text a float constant shows as.
    fn shown_float(&self, bits: u64) -> (text: Option<String>)
        ensures
            match text {
                Some(t) => crate::frame::machine::float_shown(self.of().constants@, bits) == Some(
                    t@,
                ),
                None => crate::frame::machine::float_shown(self.of().constants@, bits) is None,
            },
    {
        let constants = &self.program.constants;
        let mut i: usize = 0;
        proof {
            assert(constants@.skip(0) =~= constants@);
        }
        while i < constants.len()
            invariant
                i <= constants@.len(),
                constants@ == self.of().constants@,
                crate::frame::machine::float_shown(constants@.skip(i as int), bits)
                    == crate::frame::machine::float_shown(constants@, bits),
            decreases constants@.len() - i,
        {
            proof {
                assert(constants@.skip(i as int)[0] == constants@[i as int]);
                assert(constants@.skip(i as int).skip(1) =~= constants@.skip(i + 1));
            }
            if let Const::Float { bits: b, shown } = &constants[i] {
                if *b == bits {
                    return Some(shown.clone());
                }
            }
            i = i + 1;
        }
        None
    }

    /// The value a word that is no handle stands for.
    fn scalar_value(&self, part: Part, word: u64) -> (value: Option<Value>)
        ensures
            match value {
                Some(v) => crate::frame::machine::scalar_datum(self.of(), part, word) == Some(v@),
                None => crate::frame::machine::scalar_datum(self.of(), part, word) is None,
            },
    {
        match part {
            Part::Unit => Some(Value::Unit),
            Part::Int => Some(Value::Int(crate::frame::word::Word::to_int(word))),
            Part::Bool => if word <= 1 {
                Some(Value::Bool(crate::frame::word::Word::canonical_bool(word)))
            } else {
                None
            },
            Part::Float => match self.shown_float(word) {
                Some(shown) => Some(Value::Float { bits: word, shown }),
                None => None,
            },
            Part::Nested => None,
        }
    }

    /// Holds a handle while what it names is read outside the stack.
    fn hold(&mut self, handle: u64)
        requires
            old(self).wf(),
            old(self).held(handle),
        ensures
            final(self).wf(),
            final(self).program == old(self).program,
            final(self).tables == old(self).tables,
            final(self).temps@ == old(self).temps@.push(handle),
            final(self).heap == old(self).heap,
            final(self).heap_stats == old(self).heap_stats,
            final(self).sweeps == old(self).sweeps,
            final(self).due == old(self).due,
            final(self).wait == old(self).wait,
            final(self).heap.plans() == old(self).heap.plans(),
            final(self)@ == old(self)@,
            final(self).held(handle),
            forall|s: u64| #[trigger] old(self).roots().contains(s) ==> final(self).roots().contains(
                s,
            ),
    {
        self.temps.push(handle);
        proof {
            assert(self.flags() =~= old(self).flags());
            let before = old(self).temps@;
            assert(self.temps@[before.len() as int] == handle);
            assert forall|s: u64| #[trigger] old(self).roots().contains(
                s,
            ) implies self.roots().contains(s) by {
                if before.contains(s) {
                    let k = choose|k: int| 0 <= k < before.len() && before[k] == s;
                    assert(self.temps@[k] == s);
                }
            }
            assert forall|s: u64| #[trigger] self.roots().contains(s) implies crate::slot::reaches(
                old(self).all@,
                old(self).roots().union(Set::empty()),
                s,
            ) || !old(self).all@.dom().contains(s) by {
                if s == handle {
                    old(self).lemma_held_is_reached(handle);
                } else {
                    if self.temps@.contains(s) {
                        let k = choose|k: int| 0 <= k < self.temps@.len() && self.temps@[k] == s;
                        assert(before[k] == s);
                    }
                    old(self).lemma_root_reached(Set::empty(), s);
                }
            }
            self.lemma_still_held(*old(self), Set::empty());
            crate::slot::lemma_root_is_reached(self.all@, self.roots(), handle);
        }
    }

    /// Lets go of all but the first `depth` handles held.
    fn let_go(&mut self, depth: usize)
        requires
            old(self).wf(),
            depth <= old(self).temps@.len(),
        ensures
            final(self).wf(),
            final(self).program == old(self).program,
            final(self).tables == old(self).tables,
            final(self).temps@ == old(self).temps@.take(depth as int),
            final(self).heap == old(self).heap,
            final(self).heap_stats == old(self).heap_stats,
            final(self).sweeps == old(self).sweeps,
            final(self).due == old(self).due,
            final(self).wait == old(self).wait,
            final(self).heap.plans() == old(self).heap.plans(),
            final(self)@ == old(self)@,
    {
        self.temps.truncate(depth);
        proof {
            assert(self.flags() =~= old(self).flags());
            assert forall|s: u64| #[trigger] self.roots().contains(s) implies crate::slot::reaches(
                old(self).all@,
                old(self).roots().union(Set::empty()),
                s,
            ) || !old(self).all@.dom().contains(s) by {
                if self.temps@.contains(s) {
                    let k = choose|k: int| 0 <= k < self.temps@.len() && self.temps@[k] == s;
                    assert(old(self).temps@[k] == s);
                }
                old(self).lemma_root_reached(Set::empty(), s);
            }
            self.lemma_still_held(*old(self), Set::empty());
        }
    }

    /// A text read out of the object that holds it.
    fn materialise_str(&mut self, handle: u64) -> (value: Option<Value>)
        requires
            old(self).wf(),
            old(self).held(handle),
            old(self)@.objects.dom().contains(handle),
            old(self)@.objects[handle].plan.form is Text,
        ensures
            final(self).wf(),
            final(self).fixed(*old(self)),
            final(self)@ == old(self)@,
            match value {
                Some(v) => crate::frame::machine::datum_at(
                    old(self).of(),
                    old(self)@.objects,
                    handle,
                ) == Some(v@),
                None => crate::frame::machine::datum_at(
                    old(self).of(),
                    old(self)@.objects,
                    handle,
                ) is None,
            },
    {
        self.collect_if_due();
        proof {
            assert(self.roots() =~= old(self).roots());
        }
        match self.bytes_of(handle) {
            None => None,
            Some(bytes) => match crate::text::text_of_bytes(bytes) {
                None => None,
                Some(text) => Some(Value::Str(text)),
            },
        }
    }
}

impl<'a> FrameVm<'a> {
    /// The value of one word of an object.
    fn boundary_part(&mut self, handle: u64, at: usize, part: Part) -> (value: Option<Value>)
        requires
            old(self).wf(),
            old(self).held(handle),
            old(self)@.objects.dom().contains(handle),
        ensures
            final(self).wf(),
            final(self).fixed(*old(self)),
            final(self)@ == old(self)@,
            match value {
                Some(v) => crate::frame::machine::part_at(
                    old(self).of(),
                    old(self)@.objects,
                    handle,
                    at as int,
                    part,
                ) == Some(v@),
                None => crate::frame::machine::part_at(
                    old(self).of(),
                    old(self)@.objects,
                    handle,
                    at as int,
                    part,
                ) is None,
            },
        decreases handle, 0int, at,
    {
        self.collect_if_due();
        proof {
            assert(self.roots() =~= old(self).roots());
            self.lemma_held_is_reached(handle);
            self.lemma_sees(Set::empty(), handle);
        }
        let word: u64 = match self.heap.word(handle, at) {
            Some(word) => word,
            None => {
                return None;
            },
        };
        match part {
            Part::Nested => {
                if !self.heap.word_is_reference(handle, at) || word >= handle {
                    return None;
                }
                proof {
                    assert(self.all@[handle].names(word));
                    crate::slot::lemma_named_is_reached(self.all@, self.roots(), handle, word);
                }
                let depth: usize = self.temps.len();
                let ghost before = *self;
                self.hold(word);
                let value = self.materialise(word);
                proof {
                    assert(self.temps@.take(depth as int) =~= before.temps@);
                }
                self.let_go(depth);
                proof {
                    assert(self.temps@ == before.temps@);
                }
                value
            },
            _ => self.scalar_value(part, word),
        }
    }

    /// The value a handle names, read out of the object.
    fn materialise(&mut self, handle: u64) -> (value: Option<Value>)
        requires
            old(self).wf(),
            old(self).held(handle),
        ensures
            final(self).wf(),
            final(self).fixed(*old(self)),
            final(self)@ == old(self)@,
            match value {
                Some(v) => crate::frame::machine::datum_at(
                    old(self).of(),
                    old(self)@.objects,
                    handle,
                ) == Some(v@),
                None => crate::frame::machine::datum_at(
                    old(self).of(),
                    old(self)@.objects,
                    handle,
                ) is None,
            },
        decreases handle, 1int, 0int,
    {
        proof {
            self.lemma_held_is_reached(handle);
            self.lemma_sees(Set::empty(), handle);
        }
        let id: usize = match self.heap.layout_id_of(handle) {
            Some(id) => id,
            None => {
                return None;
            },
        };
        let form: u8 = match &self.heap.layout(id).shape {
            crate::slot::Shape::Opaque => 0,
            crate::slot::Shape::Str => 1,
            crate::slot::Shape::Enum { kind_name: _, case: _, payload: _ } => 2,
            crate::slot::Shape::Struct { kind_name: _, fields: _ } => 3,
        };
        if form == 0 {
            None
        } else if form == 1 {
            self.materialise_str(handle)
        } else {
            self.materialise_enum(handle, id)
        }
    }

    /// The part of payload position or field `at` of a layout.
    fn layout_part(&self, id: usize, at: usize) -> (part: Part)
        requires
            id < self.heap.plans().len(),
            match self.heap.plans()[id as int].form {
                crate::slot::Form::Case { kind_name: _, case: _, payload } => at < payload.len(),
                crate::slot::Form::Record { kind_name: _, fields } => at < fields.len(),
                _ => false,
            },
        ensures
            match self.heap.plans()[id as int].form {
                crate::slot::Form::Case { kind_name: _, case: _, payload } => part
                    == payload[at as int],
                crate::slot::Form::Record { kind_name: _, fields } => part == fields[at as int].1,
                _ => true,
            },
    {
        match &self.heap.layout(id).shape {
            crate::slot::Shape::Enum { kind_name: _, case: _, payload } => payload[at],
            crate::slot::Shape::Struct { kind_name: _, fields } => fields[at].1,
            _ => Part::Unit,
        }
    }

    /// A case of a builtin enum, or an error, read out of the object.
    fn materialise_enum(&mut self, handle: u64, id: usize) -> (value: Option<Value>)
        requires
            old(self).wf(),
            old(self).held(handle),
            old(self)@.objects.dom().contains(handle),
            id < old(self).heap.plans().len(),
            old(self)@.objects[handle].plan == old(self).heap.plans()[id as int],
            old(self)@.objects[handle].plan.form is Case || old(
                self,
            )@.objects[handle].plan.form is Record,
        ensures
            final(self).wf(),
            final(self).fixed(*old(self)),
            final(self)@ == old(self)@,
            match value {
                Some(v) => crate::frame::machine::datum_at(
                    old(self).of(),
                    old(self)@.objects,
                    handle,
                ) == Some(v@),
                None => crate::frame::machine::datum_at(
                    old(self).of(),
                    old(self)@.objects,
                    handle,
                ) is None,
            },
        decreases handle, 0int, usize::MAX + 1,
    {
        let ghost program = self.of();
        let ghost objects = self@.objects;
        let ghost plan = self@.objects[handle].plan;
        let ghost parts: Seq<Part> = match plan.form {
            crate::slot::Form::Case { kind_name: _, case: _, payload } => payload,
            crate::slot::Form::Record { kind_name: _, fields } => Seq::new(
                fields.len(),
                |i: int| fields[i].1,
            ),
            _ => Seq::empty(),
        };
        let count: usize = match &self.heap.layout(id).shape {
            crate::slot::Shape::Enum { kind_name: _, case: _, payload } => payload.len(),
            crate::slot::Shape::Struct { kind_name: _, fields } => fields.len(),
            _ => 0,
        };
        let mut values: Vec<Value> = Vec::new();
        let mut i: usize = 0;
        proof {
            assert(crate::value::data(values@) =~= Seq::empty());
        }
        while i < count
            invariant
                self.wf(),
                self.fixed(*old(self)),
                self@ == old(self)@,
                self.heap.plans() == old(self).heap.plans(),
                self.held(handle),
                program == self.of(),
                objects == self@.objects,
                objects.dom().contains(handle),
                plan == objects[handle].plan,
                id < self.heap.plans().len(),
                plan == self.heap.plans()[id as int],
                plan.form is Case || plan.form is Record,
                parts == (match plan.form {
                    crate::slot::Form::Case { kind_name: _, case: _, payload } => payload,
                    crate::slot::Form::Record { kind_name: _, fields } => Seq::new(
                        fields.len(),
                        |i: int| fields[i].1,
                    ),
                    _ => Seq::empty(),
                }),
                count == parts.len(),
                i <= count,
                values@.len() == i,
                crate::frame::machine::parts_at(program, objects, handle, parts, i as int) == Some(
                    crate::value::data(values@),
                ),
            decreases count - i,
        {
            let part: Part = self.layout_part(id, i);
            match self.boundary_part(handle, i, part) {
                None => {
                    proof {
                        lemma_parts_fail(
                            program,
                            objects,
                            handle,
                            parts,
                            i + 1,
                            count as int,
                        );
                    }
                    return None;
                },
                Some(value) => {
                    let ghost before = values@;
                    values.push(value);
                    proof {
                        assert(crate::value::data(values@) =~= crate::value::data(before).push(
                            value@,
                        ));
                    }
                },
            }
            i = i + 1;
        }
        match &self.heap.layout(id).shape {
            crate::slot::Shape::Enum { kind_name, case, payload: _ } => {
                let value = Value::Enum {
                    kind_name: kind_name.clone(),
                    case: case.clone(),
                    payload: values,
                };
                proof {
                    lemma_enum_view(value);
                }
                Some(value)
            },
            crate::slot::Shape::Struct { kind_name, fields } => {
                let named = name_fields(fields, values);
                let value = Value::Struct { kind_name: kind_name.clone(), fields: named };
                proof {
                    lemma_struct_view(value);
                    let data = crate::value::data(values@);
                    match plan.form {
                        crate::slot::Form::Record { kind_name: _, fields: declared } => {
                            assert(Seq::new(
                                value->fields@.len(),
                                |i: int| (value->fields@[i].0@, value->fields@[i].1@),
                            ) =~= Seq::new(declared.len(), |i: int| (declared[i].0, data[i])));
                        },
                        _ => {},
                    }
                }
                Some(value)
            },
            _ => None,
        }
    }
}

/// A part that cannot be read leaves the rest unread.
proof fn lemma_parts_fail(
    program: Program,
    objects: Map<u64, Object>,
    handle: u64,
    parts: Seq<Part>,
    a: int,
    b: int,
)
    requires
        0 <= a <= b,
        crate::frame::machine::parts_at(program, objects, handle, parts, a) is None,
    ensures
        crate::frame::machine::parts_at(program, objects, handle, parts, b) is None,
    decreases b,
{
    if a < b {
        lemma_parts_fail(program, objects, handle, parts, a, b - 1);
    }
}

/// What a case is, mathematically.
proof fn lemma_enum_view(value: Value)
    requires
        value is Enum,
    ensures
        value@ == crate::value::Datum::Enum(
            value->Enum_kind_name@,
            value->case@,
            crate::value::data(value->payload@),
        ),
{
    match value@ {
        crate::value::Datum::Enum(_, _, payload) => {
            assert(payload =~= crate::value::data(value->payload@));
        },
        _ => {},
    }
}

/// What a struct is, mathematically.
proof fn lemma_struct_view(value: Value)
    requires
        value is Struct,
    ensures
        value@ == crate::value::Datum::Struct(
            value->Struct_kind_name@,
            Seq::new(
                value->fields@.len(),
                |i: int| (value->fields@[i].0@, value->fields@[i].1@),
            ),
        ),
{
    match value@ {
        crate::value::Datum::Struct(_, fields) => {
            assert(fields =~= Seq::new(
                value->fields@.len(),
                |i: int| (value->fields@[i].0@, value->fields@[i].1@),
            ));
        },
        _ => {},
    }
}

/// Values under the names of the fields they are.
fn name_fields(fields: &Vec<(String, Part)>, values: Vec<Value>) -> (named: Vec<(String, Value)>)
    requires
        fields@.len() == values@.len(),
    ensures
        named@.len() == values@.len(),
        forall|i: int|
            0 <= i < named@.len() ==> (#[trigger] named@[i]).0@ == fields@[i].0@ && named@[i].1
                == values@[i],
{
    let mut rest: Vec<Value> = values;
    let mut reversed: Vec<(String, Value)> = Vec::new();
    let count: usize = rest.len();
    while rest.len() > 0
        invariant
            count == fields@.len(),
            values@.len() == count,
            rest@.len() <= count,
            rest@ == values@.take(rest@.len() as int),
            reversed@.len() == count - rest@.len(),
            forall|i: int|
                0 <= i < reversed@.len() ==> (#[trigger] reversed@[i]).0@ == fields@[count - 1
                    - i].0@ && reversed@[i].1 == values@[count - 1 - i],
        decreases rest@.len(),
    {
        let at: usize = rest.len() - 1;
        match rest.pop() {
            None => {},
            Some(value) => {
                reversed.push((fields[at].0.clone(), value));
            },
        }
        proof {
            assert(rest@ =~= values@.take(rest@.len() as int));
        }
    }
    let ghost all = reversed@;
    let mut named: Vec<(String, Value)> = Vec::new();
    while reversed.len() > 0
        invariant
            all.len() == count,
            reversed@.len() + named@.len() == count,
            reversed@ == all.take(reversed@.len() as int),
            forall|i: int| 0 <= i < named@.len() ==> #[trigger] named@[i] == all[count - 1 - i],
        decreases reversed@.len(),
    {
        match reversed.pop() {
            None => {},
            Some(pair) => {
                named.push(pair);
            },
        }
        proof {
            assert(reversed@ =~= all.take(reversed@.len() as int));
        }
    }
    named
}

impl<'a> FrameVm<'a> {
    // ------------------------------------------------------- the boundary

    /// A word of the stack that is a handle is held.
    proof fn lemma_word_held(self, at: int)
        requires
            0 <= at < self.words@.len(),
            self.flags()[at],
        ensures
            self.held(self.words@[at]),
    {
        assert(self.words@[at] == self.words@[at]);
        crate::slot::lemma_root_is_reached(self.all@, self.roots(), self.words@[at]);
    }

    /// The value a word of a known kind becomes outside the stack.
    fn crossed_at_boundary(&mut self, kind: Kind, word: u64, is_reference: bool) -> (value: Option<
        Value,
    >)
        requires
            old(self).wf(),
            is_reference ==> old(self).held(word),
        ensures
            final(self).wf(),
            final(self).fixed(*old(self)),
            final(self)@ == old(self)@,
            match value {
                Some(v) => crate::frame::machine::crossed(
                    old(self).of(),
                    old(self)@.objects,
                    kind,
                    word,
                    is_reference,
                ) == Some(v@),
                None => crate::frame::machine::crossed(
                    old(self).of(),
                    old(self)@.objects,
                    kind,
                    word,
                    is_reference,
                ) is None,
            },
    {
        match kind {
            Kind::Unit => self.scalar_value(Part::Unit, word),
            Kind::Bool => self.scalar_value(Part::Bool, word),
            Kind::Int => self.scalar_value(Part::Int, word),
            Kind::Float => self.scalar_value(Part::Float, word),
            Kind::Reference => None,
            _ => {
                if !is_reference {
                    return None;
                }
                proof {
                    self.lemma_held_is_reached(word);
                    self.lemma_sees(Set::empty(), word);
                }
                let fitting: bool = match self.heap.layout_of(word) {
                    None => false,
                    Some(layout) => match &layout.shape {
                        crate::slot::Shape::Opaque => false,
                        crate::slot::Shape::Str => kind == Kind::Str,
                        crate::slot::Shape::Enum { kind_name: _, case: _, payload: _ } => kind
                            == Kind::Enum,
                        crate::slot::Shape::Struct { kind_name: _, fields: _ } => kind
                            == Kind::Enum,
                    },
                };
                if fitting {
                    self.materialise(word)
                } else {
                    None
                }
            },
        }
    }

    /// The values the top words become, and the stack without them.
    fn take_arguments(&mut self, kinds: &Vec<Kind>) -> (values: Option<Vec<Value>>)
        requires
            old(self).wf(),
        ensures
            final(self).wf(),
            final(self).fixed(*old(self)),
            match crate::frame::machine::arguments(old(self).of(), old(self)@, kinds@) {
                Some(pair) => values matches Some(list) && crate::value::data(list@) == pair.0
                    && final(self)@ == pair.1,
                None => values is None,
            },
    {
        let argc: usize = kinds.len();
        if argc > self.words.len() {
            return None;
        }
        let at: usize = self.words.len() - argc;
        let ghost words = self@.words.skip(at as int);
        let ghost refs = self@.refs.skip(at as int);
        let mut values: Vec<Value> = Vec::new();
        let mut i: usize = 0;
        proof {
            assert(crate::value::data(values@) =~= Seq::empty());
        }
        while i < argc
            invariant
                self.wf(),
                self.fixed(*old(self)),
                self@ == old(self)@,
                argc == kinds@.len(),
                at == self@.words.len() - argc,
                self@.words.len() == self@.refs.len(),
                words == self@.words.skip(at as int),
                refs == self@.refs.skip(at as int),
                i <= argc,
                crate::frame::machine::all_crossed(
                    self.of(),
                    self@.objects,
                    kinds@,
                    words,
                    refs,
                    i as int,
                ) == Some(crate::value::data(values@)),
            decreases argc - i,
        {
            let total: usize = self.words.len();
            proof {
                assert(at + i < total);
            }
            let word: u64 = self.words[at + i];
            let is_reference: bool = self.refs.read(at + i);
            proof {
                assert(self@.refs[at + i] == is_reference);
                assert(refs[i as int] == is_reference);
                assert(words[i as int] == word);
                if is_reference {
                    self.lemma_word_held(at + i);
                }
            }
            match self.crossed_at_boundary(kinds[i], word, is_reference) {
                None => {
                    proof {
                        lemma_crossing_fails(
                            self.of(),
                            self@.objects,
                            kinds@,
                            words,
                            refs,
                            i + 1,
                            argc as int,
                        );
                    }
                    return None;
                },
                Some(value) => {
                    let ghost before = values@;
                    values.push(value);
                    proof {
                        assert(crate::value::data(values@) =~= crate::value::data(before).push(
                            value@,
                        ));
                    }
                },
            }
            i = i + 1;
        }
        self.cut(at);
        Some(values)
    }

    /// Hands a value over the boundary.
    fn keep_value(&mut self, value: Value)
        requires
            old(self).wf(),
        ensures
            final(self).wf(),
            final(self).fixed(*old(self)),
            final(self)@ == (Machine { boundary: old(self)@.boundary.push(value@), ..old(self)@ }),
    {
        let ghost before = self.boundary@;
        self.boundary.push(value);
        proof {
            assert(crate::value::data(self.boundary@) =~= crate::value::data(before).push(value@));
            assert(self.flags() =~= old(self).flags());
            assert(self.roots() =~= old(self).roots());
        }
    }

    /// Counts values that have been made of words.
    fn count_materialized(&mut self, count: u64)
        requires
            old(self).wf(),
        ensures
            final(self).wf(),
            final(self).fixed(*old(self)),
            final(self)@ == old(self)@.materializing(count as int),
    {
        self.materialized = tally(self.materialized, count);
        proof {
            assert(self.flags() =~= old(self).flags());
            assert(self.roots() =~= old(self).roots());
        }
    }

    /// Charges fuel that is no instruction's.
    fn add_fuel(&mut self, fuel: u64)
        requires
            old(self).wf(),
        ensures
            final(self).wf(),
            final(self).fixed(*old(self)),
            final(self)@ == old(self)@.fuelled(fuel as int),
    {
        self.fuel = tally(self.fuel, fuel);
        proof {
            assert(self.flags() =~= old(self).flags());
            assert(self.roots() =~= old(self).roots());
        }
    }

    /// Moves control within the running function.
    fn go_to(&mut self, pc: usize)
        requires
            old(self).wf(),
        ensures
            final(self).wf(),
            final(self).fixed(*old(self)),
            final(self)@ == old(self)@.goes_to(pc as int),
    {
        self.pc = pc;
        proof {
            assert(self.flags() =~= old(self).flags());
            assert(self.roots() =~= old(self).roots());
        }
    }

    /// The value an instruction takes from over the boundary.
    fn pop_boundary_value(&mut self) -> (value: Option<Value>)
        requires
            old(self).wf(),
            old(self)@.frames.len() > 0,
        ensures
            final(self).wf(),
            final(self).fixed(*old(self)),
            match crate::frame::machine::taken(
                old(self).of(),
                old(self)@,
                crate::frame::machine::running(old(self).of(), old(self)@),
            ) {
                Some(pair) => value matches Some(v) && v@ == pair.0 && final(self)@ == pair.1,
                None => value is None,
            },
    {
        let here: FunctionId = self.frames[self.frames.len() - 1].function;
        let pc: usize = self.pc;
        proof {
            assert(self.program.has_function(self.frames@[self.frames@.len() - 1].function));
            assert(self.tables.operands@[here.0 as int]@ == crate::frame::operands::operands_of(
                *self.program,
                self.program.functions@[here.0 as int],
            ));
        }
        let kind: Option<Kind> = match self.tables.operands[here.0 as usize].top(pc, 1) {
            Some(kinds) => if kinds[0] == Kind::Str || kinds[0] == Kind::Enum {
                Some(kinds[0])
            } else {
                None
            },
            None => None,
        };
        match kind {
            Some(kind) => {
                if self.words.len() == 0 {
                    return None;
                }
                let last: usize = self.words.len() - 1;
                let word: u64 = self.words[last];
                let is_reference: bool = self.refs.read(last);
                proof {
                    assert(self@.top_ref() == is_reference);
                    if is_reference {
                        self.lemma_word_held(last as int);
                    }
                }
                let value = self.crossed_at_boundary(kind, word, is_reference);
                if value.is_some() {
                    self.cut(last);
                }
                value
            },
            None => {
                let ghost before = self.boundary@;
                let value = self.boundary.pop();
                proof {
                    if before.len() > 0 {
                        assert(crate::value::data(self.boundary@) =~= crate::value::data(
                            before,
                        ).drop_last());
                    }
                    assert(self.flags() =~= old(self).flags());
                    assert(self.roots() =~= old(self).roots());
                }
                value
            },
        }
    }

    // ------------------------------------------------------------ objects

    /// Fewer handles held are held too.
    proof fn lemma_fewer(self, more: Set<u64>, fewer: Set<u64>)
        requires
            self.holds(more),
            fewer.subset_of(more),
        ensures
            self.holds(fewer),
    {
        assert forall|s: u64| #[trigger] self.roots().union(fewer).contains(
            s,
        ) implies crate::slot::reaches(self.all@, self.roots().union(more), s)
            || !self.all@.dom().contains(s) by {
            crate::slot::lemma_root_is_reached(self.all@, self.roots().union(more), s);
        }
        crate::slot::lemma_covers_roots(
            self.all@,
            self.heap@,
            self.roots().union(more),
            self.roots().union(fewer),
        );
    }

    /// Makes an object, and counts it.
    fn make(&mut self, layout: usize, words: Vec<u64>, Ghost(extra): Ghost<Set<u64>>) -> (handle:
        Option<u64>)
        requires
            old(self).holds(extra),
            layout < old(self).heap.plans().len(),
            forall|to: u64| #[trigger]
                (Object { plan: old(self).heap.plans()[layout as int], words: words@ }).names(to)
                    ==> crate::slot::reaches(
                    old(self).all@,
                    old(self).roots().union(extra),
                    to,
                ),
        ensures
            final(self).fixed(*old(self)),
            match handle {
                Some(serial) => {
                    &&& old(self)@.can_make()
                    &&& serial == old(self)@.next
                    &&& final(self).holds(extra.insert(serial))
                    &&& final(self)@ == old(self)@.making(
                        old(self).heap.plans()[layout as int],
                        words@,
                    )
                },
                None => !old(self)@.can_make() && final(self).holds(extra) && final(self)@ == old(
                    self,
                )@,
            },
    {
        let ghost plan = self.heap.plans()[layout as int];
        let ghost object = Object { plan, words: words@ };
        let width: u64 = words.len() as u64;
        proof {
            self.heap.lemma_unused();
        }
        match self.heap.allocate(layout, words) {
            None => None,
            Some(serial) => {
                self.all = Ghost(self.all@.insert(serial, object));
                self.heap_stats.allocated_objects = tally(self.heap_stats.allocated_objects, 1);
                let bytes: u64 = if width <= u64::MAX / 8 {
                    8 * width
                } else {
                    u64::MAX
                };
                self.heap_stats.allocated_bytes = tally(self.heap_stats.allocated_bytes, bytes);
                self.due = self.due || self.heap.should_collect();
                proof {
                    assert(self.flags() =~= old(self).flags());
                    assert(self.roots() =~= old(self).roots());
                    assert(!old(self).all@.dom().contains(serial));
                    crate::slot::lemma_covers_allocation(
                        old(self).all@,
                        old(self).heap@,
                        old(self).roots().union(extra),
                        serial,
                        object,
                    );
                    assert(old(self).roots().union(extra).insert(serial) =~= self.roots().union(
                        extra.insert(serial),
                    ));
                    assert(self@ == old(self)@.making(plan, words@));
                }
                Some(serial)
            },
        }
    }

    /// Makes a text.
    fn make_text(&mut self, text: &str) -> (handle: Option<u64>)
        requires
            old(self).wf(),
        ensures
            final(self).fixed(*old(self)),
            match crate::frame::machine::text_made(old(self)@, text@) {
                Some(pair) => handle == Some(pair.0) && final(self).holds(set![pair.0])
                    && final(self)@ == pair.1,
                None => handle is None && final(self).wf(),
            },
    {
        let bytes = text.as_bytes();
        let words = crate::frame::packing::pack_string_words(bytes);
        let layout: usize = self.tables.str_layout;
        proof {
            let object = Object { plan: self.heap.plans()[layout as int], words: words@ };
            assert forall|to: u64| #[trigger] object.names(to) implies crate::slot::reaches(
                self.all@,
                self.roots().union(Set::empty()),
                to,
            ) by {
                let i = choose|i: int| #[trigger] object.is_ref(i) && object.words[i] == to;
                assert(object.plan.refs.len() == 0);
            }
            assert forall|s: u64| Set::<u64>::empty().insert(s) =~= set![s] by {}
        }
        self.make(layout, words, Ghost(Set::empty()))
    }

    /// The layout of a case that something can build.
    fn enum_layout_for(&self, kind_name: &str, case: &str, payload: &Vec<Part>) -> (id: Option<
        usize,
    >)
        requires
            self.tables.ok(*self.program, self.heap.plans()),
        ensures
            match id {
                Some(layout) => layout < self.heap.plans().len() && self.heap.plans()[layout as int]
                    == crate::frame::machine::site_plan(
                    crate::frame::layout::Site {
                        kind_name: kind_name@,
                        case: case@,
                        payload: payload@,
                    },
                ),
                None => !registered(
                    self.tables.enum_layouts@,
                    crate::frame::layout::Site {
                        kind_name: kind_name@,
                        case: case@,
                        payload: payload@,
                    },
                ),
            },
    {
        let ghost site = crate::frame::layout::Site {
            kind_name: kind_name@,
            case: case@,
            payload: payload@,
        };
        let layouts = &self.tables.enum_layouts;
        let mut k: usize = 0;
        while k < layouts.len()
            invariant
                self.tables.ok(*self.program, self.heap.plans()),
                layouts@ == self.tables.enum_layouts@,
                k <= layouts@.len(),
                site == (crate::frame::layout::Site {
                    kind_name: kind_name@,
                    case: case@,
                    payload: payload@,
                }),
                forall|j: int| 0 <= j < k ==> (#[trigger] layouts@[j]).0@ != site,
            decreases layouts@.len() - k,
        {
            let entry = &layouts[k];
            if crate::text::same(entry.0.kind_name.as_str(), kind_name) && crate::text::same(
                entry.0.case.as_str(),
                case,
            ) && same_parts(&entry.0.payload, payload) {
                return Some(entry.1);
            }
            k = k + 1;
        }
        None
    }
}

/// Whether two runs of parts are the same.
fn same_parts(a: &Vec<Part>, b: &Vec<Part>) -> (yes: bool)
    ensures
        yes == (a@ == b@),
{
    if a.len() != b.len() {
        return false;
    }
    let mut i: usize = 0;
    while i < a.len()
        invariant
            a@.len() == b@.len(),
            i <= a@.len(),
            forall|j: int| 0 <= j < i ==> #[trigger] a@[j] == b@[j],
        decreases a@.len() - i,
    {
        if a[i] != b[i] {
            return false;
        }
        i = i + 1;
    }
    proof {
        assert(a@ =~= b@);
    }
    true
}

/// A word that cannot cross leaves the rest uncrossed.
proof fn lemma_crossing_fails(
    program: Program,
    objects: Map<u64, Object>,
    kinds: Seq<Kind>,
    words: Seq<u64>,
    refs: Seq<bool>,
    a: int,
    b: int,
)
    requires
        0 <= a <= b,
        crate::frame::machine::all_crossed(program, objects, kinds, words, refs, a) is None,
    ensures
        crate::frame::machine::all_crossed(program, objects, kinds, words, refs, b) is None,
    decreases b,
{
    if a < b {
        lemma_crossing_fails(program, objects, kinds, words, refs, a, b - 1);
    }
}

/// What a host's answer becomes is what the machine makes of it.
spec fn words_as(vm: FrameVm, before: FrameVm, value: crate::value::Datum, ty: HostType, word: Option<
    u64,
>) -> bool {
    match crate::frame::machine::worded(before@, value, ty) {
        Some(pair) => {
            &&& word == Some(pair.0)
            &&& vm@ == pair.1
            &&& if crate::frame::kinds::host_word(ty) == Some(Part::Nested) {
                vm.holds(set![pair.0])
            } else {
                vm.wf()
            }
        },
        None => word is None && vm.wf(),
    }
}

/// The cases of an inner type have layouts where those of the outer have.
proof fn lemma_inner_types(tables: Tables, ty: HostType)
    requires
        tables.type_ok(ty),
    ensures
        ty matches HostType::Option(inner) ==> tables.type_ok(*inner) && registered(
            tables.enum_layouts@,
            crate::frame::layout::Site {
                kind_name: "Option"@,
                case: "Some"@,
                payload: seq![crate::frame::kinds::host_word(*inner)->0],
            },
        ) && registered(
            tables.enum_layouts@,
            crate::frame::layout::Site {
                kind_name: "Option"@,
                case: "None"@,
                payload: Seq::empty(),
            },
        ),
        ty matches HostType::Result(ok, err) ==> tables.type_ok(*ok) && tables.type_ok(*err)
            && registered(
            tables.enum_layouts@,
            crate::frame::layout::Site {
                kind_name: "Result"@,
                case: "Ok"@,
                payload: seq![crate::frame::kinds::host_word(*ok)->0],
            },
        ) && registered(
            tables.enum_layouts@,
            crate::frame::layout::Site {
                kind_name: "Result"@,
                case: "Err"@,
                payload: seq![crate::frame::kinds::host_word(*err)->0],
            },
        ),
{
    let sites = crate::frame::layout::host_sites(ty);
    match ty {
        HostType::Option(inner) => {
            let fewer = crate::frame::layout::host_sites(*inner);
            assert forall|k: int| 0 <= k < fewer.len() implies registered(
                tables.enum_layouts@,
                #[trigger] fewer[k],
            ) by {
                assert(sites[k] == fewer[k]);
            }
            assert(registered(tables.enum_layouts@, sites[fewer.len() as int]));
            assert(registered(tables.enum_layouts@, sites[(fewer.len() + 1) as int]));
        },
        HostType::Result(ok, err) => {
            let a = crate::frame::layout::host_sites(*ok);
            let b = crate::frame::layout::host_sites(*err);
            assert forall|k: int| 0 <= k < a.len() implies registered(
                tables.enum_layouts@,
                #[trigger] a[k],
            ) by {
                assert(sites[k] == a[k]);
            }
            assert forall|k: int| 0 <= k < b.len() implies registered(
                tables.enum_layouts@,
                #[trigger] b[k],
            ) by {
                assert(sites[a.len() + k] == b[k]);
            }
            assert(registered(tables.enum_layouts@, sites[(a.len() + b.len()) as int]));
            assert(registered(tables.enum_layouts@, sites[(a.len() + b.len() + 1) as int]));
        },
        _ => {},
    }
}

/// The message of an error value, where it has one and it is a text.
fn error_message(value: &Value) -> (text: Option<String>)
    ensures
        match text {
            Some(t) => crate::frame::machine::message_of(value@) == crate::value::Datum::Str(t@),
            None => !(crate::frame::machine::message_of(value@) is Str),
        },
{
    proof {
        reveal_strlit("");
        assert(""@ =~= Seq::<char>::empty());
    }
    match value {
        Value::Struct { kind_name, fields } => {
            proof {
                lemma_struct_view(*value);
            }
            if crate::text::same(kind_name.as_str(), "Error") && fields.len() >= 1
                && crate::text::same(fields[0].0.as_str(), "message") {
                match &fields[0].1 {
                    Value::Str(text) => Some(text.clone()),
                    _ => None,
                }
            } else {
                Some("".to_owned())
            }
        },
        _ => Some("".to_owned()),
    }
}

impl<'a> FrameVm<'a> {
    /// Makes a case of one payload word.
    fn make_case(
        &mut self,
        kind_name: &str,
        case: &str,
        inner: &HostType,
        word: u64,
    ) -> (handle: Option<u64>)
        requires
            if crate::frame::kinds::host_word(*inner) == Some(Part::Nested) {
                old(self).holds(set![word])
            } else {
                old(self).wf()
            },
            crate::frame::kinds::host_word(*inner) is Some,
            registered(
                old(self).tables.enum_layouts@,
                crate::frame::layout::Site {
                    kind_name: kind_name@,
                    case: case@,
                    payload: seq![crate::frame::kinds::host_word(*inner)->0],
                },
            ),
        ensures
            final(self).fixed(*old(self)),
            match crate::frame::machine::case_made(
                Some((word, old(self)@)),
                kind_name@,
                case@,
                *inner,
            ) {
                Some(pair) => handle == Some(pair.0) && final(self).holds(set![pair.0])
                    && final(self)@ == pair.1,
                None => handle is None && final(self).wf(),
            },
    {
        let ghost nested = crate::frame::kinds::host_word(*inner) == Some(Part::Nested);
        let ghost extra: Set<u64> = if nested {
            set![word]
        } else {
            Set::empty()
        };
        let part: Part = match crate::frame::kinds::host_part(inner) {
            Some(part) => part,
            None => Part::Unit,
        };
        let mut payload: Vec<Part> = Vec::new();
        payload.push(part);
        proof {
            assert(payload@ =~= seq![crate::frame::kinds::host_word(*inner)->0]);
        }
        let layout: usize = match self.enum_layout_for(kind_name, case, &payload) {
            Some(layout) => layout,
            None => {
                return None;
            },
        };
        let mut words: Vec<u64> = Vec::new();
        words.push(word);
        proof {
            assert(words@ =~= seq![word]);
            let object = Object { plan: self.heap.plans()[layout as int], words: words@ };
            assert forall|to: u64| #[trigger] object.names(to) implies crate::slot::reaches(
                self.all@,
                self.roots().union(extra),
                to,
            ) by {
                let i = choose|i: int| #[trigger] object.is_ref(i) && object.words[i] == to;
                assert(i == 0);
                assert(payload@[0] == Part::Nested);
                assert(extra.contains(to));
                crate::slot::lemma_root_is_reached(self.all@, self.roots().union(extra), to);
            }
        }
        let handle = self.make(layout, words, Ghost(extra));
        proof {
            match handle {
                Some(serial) => {
                    self.lemma_fewer(extra.insert(serial), set![serial]);
                },
                None => {
                    self.lemma_fewer(extra, Set::empty());
                },
            }
        }
        handle
    }

    /// The word a host's answer of a declared type becomes.
    fn host_value_to_word(&mut self, value: &Value, ty: &HostType) -> (word: Option<u64>)
        requires
            old(self).wf(),
            old(self).tables.type_ok(*ty),
            crate::frame::kinds::host_word(*ty) is Some,
        ensures
            final(self).fixed(*old(self)),
            words_as(*final(self), *old(self), value@, *ty, word),
        decreases ty,
    {
        proof {
            lemma_inner_types(self.tables, *ty);
        }
        match ty {
            HostType::Unit => Some(0),
            HostType::Bool => match value {
                Value::Bool(flag) => Some(crate::frame::word::Word::of_bool(*flag)),
                _ => None,
            },
            HostType::Int => match value {
                Value::Int(n) => Some(crate::frame::word::Word::of_int(*n)),
                _ => None,
            },
            HostType::String => match value {
                Value::Str(text) => self.make_text(text.as_str()),
                _ => None,
            },
            HostType::Error => match error_message(value) {
                None => None,
                Some(message) => match self.make_text(message.as_str()) {
                    None => None,
                    Some(word) => {
                        let layout: usize = self.tables.error_layout;
                        let mut words: Vec<u64> = Vec::new();
                        words.push(word);
                        proof {
                            assert(words@ =~= seq![word]);
                            let object = Object {
                                plan: self.heap.plans()[layout as int],
                                words: words@,
                            };
                            assert forall|to: u64| #[trigger] object.names(
                                to,
                            ) implies crate::slot::reaches(
                                self.all@,
                                self.roots().union(set![word]),
                                to,
                            ) by {
                                let i = choose|i: int| #[trigger]
                                    object.is_ref(i) && object.words[i] == to;
                                assert(i == 0);
                                crate::slot::lemma_root_is_reached(
                                    self.all@,
                                    self.roots().union(set![word]),
                                    to,
                                );
                            }
                        }
                        let ghost extra: Set<u64> = set![word];
                        let handle = self.make(layout, words, Ghost(extra));
                        proof {
                            match handle {
                                Some(serial) => {
                                    self.lemma_fewer(set![word].insert(serial), set![serial]);
                                },
                                None => {
                                    self.lemma_fewer(set![word], Set::empty());
                                },
                            }
                        }
                        handle
                    },
                },
            },
            HostType::Option(inner) => {
                let mut some: bool = false;
                if let Value::Enum { kind_name, case, payload } = value {
                    proof {
                        lemma_enum_view(*value);
                    }
                    if crate::text::same(kind_name.as_str(), "Option") && crate::text::same(
                        case.as_str(),
                        "Some",
                    ) {
                        some = true;
                        let unit = Value::Unit;
                        let first: &Value = if payload.len() > 0 {
                            &payload[0]
                        } else {
                            &unit
                        };
                        return match self.host_value_to_word(first, inner) {
                            None => None,
                            Some(word) => self.make_case("Option", "Some", inner, word),
                        };
                    }
                }
                proof {
                    assert(!some);
                }
                self.make_nothing()
            },
            HostType::Result(ok, err) => {
                if let Value::Enum { kind_name, case, payload } = value {
                    proof {
                        lemma_enum_view(*value);
                    }
                    let unit = Value::Unit;
                    let first: &Value = if payload.len() > 0 {
                        &payload[0]
                    } else {
                        &unit
                    };
                    if !crate::text::same(kind_name.as_str(), "Result") {
                        return None;
                    }
                    if crate::text::same(case.as_str(), "Ok") {
                        return match self.host_value_to_word(first, ok) {
                            None => None,
                            Some(word) => self.make_case("Result", "Ok", ok, word),
                        };
                    }
                    if crate::text::same(case.as_str(), "Err") {
                        return match self.host_value_to_word(first, err) {
                            None => None,
                            Some(word) => self.make_case("Result", "Err", err, word),
                        };
                    }
                }
                None
            },
            _ => None,
        }
    }

    /// Makes `None`.
    fn make_nothing(&mut self) -> (handle: Option<u64>)
        requires
            old(self).wf(),
            registered(
                old(self).tables.enum_layouts@,
                crate::frame::layout::Site {
                    kind_name: "Option"@,
                    case: "None"@,
                    payload: Seq::empty(),
                },
            ),
        ensures
            final(self).fixed(*old(self)),
            match crate::frame::machine::nothing_made(old(self)@) {
                Some(pair) => handle == Some(pair.0) && final(self).holds(set![pair.0])
                    && final(self)@ == pair.1,
                None => handle is None && final(self).wf(),
            },
    {
        let payload: Vec<Part> = Vec::new();
        proof {
            assert(payload@ =~= Seq::<Part>::empty());
        }
        let layout: usize = match self.enum_layout_for("Option", "None", &payload) {
            Some(layout) => layout,
            None => {
                return None;
            },
        };
        let words: Vec<u64> = Vec::new();
        proof {
            assert(words@ =~= Seq::<u64>::empty());
            let object = Object { plan: self.heap.plans()[layout as int], words: words@ };
            assert forall|to: u64| #[trigger] object.names(to) implies crate::slot::reaches(
                self.all@,
                self.roots().union(Set::empty()),
                to,
            ) by {
                let i = choose|i: int| #[trigger] object.is_ref(i) && object.words[i] == to;
                assert(object.words.len() == 0);
            }
            assert forall|s: u64| Set::<u64>::empty().insert(s) =~= set![s] by {}
        }
        self.make(layout, words, Ghost(Set::empty()))
    }

    // ------------------------------------------------------- instructions

    /// Goes on to the next instruction.
    fn advance(&mut self) -> (pause: Pause)
        requires
            old(self).wf(),
            old(self)@.pc < usize::MAX,
        ensures
            final(self).wf(),
            final(self).fixed(*old(self)),
            pause is Yielded,
            final(self)@ == old(self)@.advanced(),
    {
        let next: usize = self.pc + 1;
        self.go_to(next);
        Pause::Yielded
    }

    /// Whether the words on top are what a layout says, handle for handle.
    fn top_matches(&self, layout: usize) -> (yes: bool)
        requires
            layout < self.heap.plans().len(),
        ensures
            yes == self@.matches_plan(self.heap.plans()[layout as int].refs),
    {
        let refs = &self.heap.layout(layout).refs;
        let width: usize = refs.len();
        if width > self.words.len() {
            return false;
        }
        let at: usize = self.words.len() - width;
        let mut i: usize = 0;
        while i < width
            invariant
                width == refs@.len(),
                at + width == self.words@.len(),
                self.words@.len() <= usize::MAX,
                refs@ == self.heap.plans()[layout as int].refs,
                i <= width,
                forall|j: int| 0 <= j < i ==> #[trigger] refs@[j] == self@.refs[at + j],
            decreases width - i,
        {
            if refs[i] != self.refs.read(at + i) {
                proof {
                    assert(self@.refs[at + i] == self.refs.is_ref(at + i));
                    assert(refs@[i as int] != self@.refs[at + i]);
                }
                return false;
            }
            i = i + 1;
        }
        true
    }

    /// Builds an object out of the words on top.
    fn build(&mut self, layout: usize, fuel: u64) -> (pause: Pause)
        requires
            old(self).wf(),
            layout < old(self).heap.plans().len(),
            old(self)@.pc < usize::MAX,
        ensures
            final(self).wf(),
            final(self).fixed(*old(self)),
            shows(
                crate::frame::machine::build(
                    old(self)@,
                    old(self).heap.plans()[layout as int],
                    fuel as int,
                ),
                final(self)@,
                pause,
            ),
    {
        if !self.top_matches(layout) {
            return Pause::Stuck;
        }
        let width: usize = self.heap.layout(layout).refs.len();
        let at: usize = self.words.len() - width;
        let words = crate::slot::copy_words(&self.words, at);
        let ghost plan = self.heap.plans()[layout as int];
        proof {
            let object = Object { plan, words: words@ };
            assert forall|to: u64| #[trigger] object.names(to) implies crate::slot::reaches(
                self.all@,
                self.roots().union(Set::empty()),
                to,
            ) by {
                let i = choose|i: int| #[trigger] object.is_ref(i) && object.words[i] == to;
                assert(plan.refs[i] == self@.refs[self@.refs.len() - plan.refs.len() + i]);
                self.lemma_word_held(at + i);
                self.lemma_held_is_reached(to);
            }
        }
        match self.make(layout, words, Ghost(Set::empty())) {
            None => Pause::Stuck,
            Some(handle) => {
                let ghost extra: Set<u64> = set![handle];
                proof {
                    assert(Set::<u64>::empty().insert(handle) =~= extra);
                }
                self.cut_held(at, Ghost(extra));
                proof {
                    self.lemma_root_reached(extra, handle);
                }
                self.push_word(handle, true, Ghost(extra));
                self.add_fuel(fuel);
                self.advance()
            },
        }
    }

    /// Cuts the stack down while more handles are held.
    fn cut_held(&mut self, len: usize, Ghost(extra): Ghost<Set<u64>>)
        requires
            old(self).holds(extra),
            len <= old(self)@.words.len(),
        ensures
            final(self).holds(extra),
            final(self).fixed(*old(self)),
            final(self)@ == old(self)@.dropped(old(self)@.words.len() - len),
    {
        self.words.truncate(len);
        proof {
            assert(self.flags() =~= old(self).flags().take(len as int));
            assert forall|s: u64| #[trigger] self.roots().union(extra).contains(
                s,
            ) implies crate::slot::reaches(
                old(self).all@,
                old(self).roots().union(extra),
                s,
            ) || !old(self).all@.dom().contains(s) by {
                if self.roots().contains(s) {
                    if exists|i: int|
                        0 <= i < self.words@.len() && self.flags()[i] && #[trigger] self.words@[i]
                            == s {
                        let i = choose|i: int|
                            0 <= i < self.words@.len() && self.flags()[i]
                                && #[trigger] self.words@[i] == s;
                        assert(old(self).words@[i] == s);
                    }
                    assert(old(self).roots().contains(s));
                }
                old(self).lemma_root_reached(extra, s);
            }
            crate::slot::lemma_covers_roots(
                self.all@,
                self.heap@,
                old(self).roots().union(extra),
                self.roots().union(extra),
            );
        }
    }
}

impl<'a> FrameVm<'a> {
    /// Where a slot of the running frame stands.
    fn slot_at(&self, slot: u32) -> (at: Option<usize>)
        requires
            self@.frames.len() > 0,
        ensures
            match at {
                Some(i) => i == self@.frames.last().base + slot && i < self@.words.len(),
                None => self@.frames.last().base + slot >= self@.words.len(),
            },
    {
        let base: usize = self.frames[self.frames.len() - 1].base;
        let total: usize = self.words.len();
        if base <= total && (slot as usize) < total - base {
            Some(base + slot as usize)
        } else {
            None
        }
    }

    /// Writes one word of the stack.
    fn store(&mut self, at: usize, word: u64, Ghost(extra): Ghost<Set<u64>>)
        requires
            old(self).holds(extra),
            at < old(self)@.words.len(),
            old(self)@.refs[at as int] ==> extra.contains(word),
        ensures
            final(self).wf(),
            final(self).fixed(*old(self)),
            final(self)@ == (Machine {
                words: old(self)@.words.update(at as int, word),
                ..old(self)@
            }),
    {
        self.words.set(at, word);
        proof {
            assert(self.flags() =~= old(self).flags());
            assert forall|s: u64| #[trigger] self.roots().contains(s) implies crate::slot::reaches(
                old(self).all@,
                old(self).roots().union(extra),
                s,
            ) || !old(self).all@.dom().contains(s) by {
                if exists|i: int|
                    0 <= i < self.words@.len() && self.flags()[i] && #[trigger] self.words@[i]
                        == s {
                    let i = choose|i: int|
                        0 <= i < self.words@.len() && self.flags()[i] && #[trigger] self.words@[i]
                            == s;
                    if i != at {
                        assert(old(self).words@[i] == s);
                    } else {
                        assert(old(self)@.refs[at as int]);
                    }
                }
                old(self).lemma_root_reached(extra, s);
            }
            self.lemma_still_held(*old(self), extra);
        }
    }

    /// An instruction that reads or writes one slot of the frame.
    fn slot_step(&mut self, inst: Inst) -> (pause: Pause)
        requires
            old(self).wf(),
            old(self)@.frames.len() > 0,
            old(self)@.pc < usize::MAX,
        ensures
            final(self).wf(),
            final(self).fixed(*old(self)),
            shows(crate::frame::machine::slot_step(old(self)@, inst), final(self)@, pause),
    {
        match inst {
            Inst::LoadScalar(slot) => match self.slot_at(slot) {
                None => Pause::Stuck,
                Some(at) => {
                    let word: u64 = self.words[at];
                    self.push_word(word, false, Ghost(Set::empty()));
                    self.advance()
                },
            },
            Inst::LoadLocal(slot) => match self.slot_at(slot) {
                None => Pause::Stuck,
                Some(at) => {
                    let word: u64 = self.words[at];
                    if !self.refs.read(at) {
                        return Pause::Stuck;
                    }
                    proof {
                        self.lemma_word_held(at as int);
                        self.lemma_held_is_reached(word);
                    }
                    self.push_word(word, true, Ghost(Set::empty()));
                    self.advance()
                },
            },
            Inst::StoreScalar(slot) => match self.slot_at(slot) {
                None => Pause::Stuck,
                Some(at) => {
                    if at >= self.words.len() - 1 || self.refs.read(at) {
                        return Pause::Stuck;
                    }
                    let word: u64 = self.pop_word();
                    self.store(at, word, Ghost(Set::empty()));
                    self.advance()
                },
            },
            Inst::StoreLocal(slot) => match self.slot_at(slot) {
                None => Pause::Stuck,
                Some(at) => {
                    let last: usize = self.words.len() - 1;
                    if at >= last || (self.refs.read(at) && !self.refs.read(last)) {
                        return Pause::Stuck;
                    }
                    let word: u64 = self.words[last];
                    let is_reference: bool = self.refs.read(last);
                    let ghost extra: Set<u64> = if is_reference {
                        set![word]
                    } else {
                        Set::empty()
                    };
                    proof {
                        assert(self@.top_ref() == is_reference);
                        self.lemma_top_extra(extra);
                    }
                    self.cut_held(last, Ghost(extra));
                    self.store(at, word, Ghost(extra));
                    self.advance()
                },
            },
            _ => Pause::Stuck,
        }
    }

    /// The top word may be held beside the stack where it is a handle.
    proof fn lemma_top_extra(self, extra: Set<u64>)
        requires
            self.wf(),
            self@.words.len() > 0,
            forall|s: u64| #[trigger] extra.contains(s) ==> self@.top_ref() && s == self@.top(),
        ensures
            self.holds(extra),
    {
        assert forall|s: u64| #[trigger] self.roots().union(extra).contains(
            s,
        ) implies crate::slot::reaches(self.all@, self.roots().union(Set::empty()), s)
            || !self.all@.dom().contains(s) by {
            if extra.contains(s) {
                self.lemma_word_held(self.words@.len() - 1);
                self.lemma_held_is_reached(s);
            } else {
                self.lemma_root_reached(Set::empty(), s);
            }
        }
        crate::slot::lemma_covers_roots(
            self.all@,
            self.heap@,
            self.roots().union(Set::empty()),
            self.roots().union(extra),
        );
    }

    /// A scalar is the same word as a value.
    fn convert(&mut self) -> (pause: Pause)
        requires
            old(self).wf(),
            old(self)@.pc < usize::MAX,
        ensures
            final(self).wf(),
            final(self).fixed(*old(self)),
            shows(crate::frame::machine::converted(old(self)@), final(self)@, pause),
    {
        if self.words.len() == 0 || self.refs.read(self.words.len() - 1) {
            return Pause::Stuck;
        }
        self.advance()
    }

    /// An instruction over the words on top alone.
    fn word_step(&mut self, function: &Function, inst: Inst) -> (pause: Pause)
        requires
            old(self).wf(),
            old(self)@.pc < usize::MAX,
            crate::ir::names_what_exists(old(self).of(), inst),
        ensures
            final(self).wf(),
            final(self).fixed(*old(self)),
            shows(
                crate::frame::machine::word_step(old(self).of(), old(self)@, *function, inst),
                final(self)@,
                pause,
            ),
    {
        match inst {
            Inst::ScalarConst(value) => {
                self.push_word(
                    crate::frame::word::Word::of_int(value),
                    false,
                    Ghost(Set::empty()),
                );
                self.advance()
            },
            Inst::ScalarPop => {
                if self.words.len() == 0 {
                    return Pause::Stuck;
                }
                let _word: u64 = self.pop_word();
                self.advance()
            },
            Inst::IntBinary(op) => {
                if self.words.len() < 2 {
                    return Pause::Stuck;
                }
                let span = function.span_at(self.pc);
                let rhs: i64 = crate::frame::word::Word::to_int(self.pop_word());
                let lhs: i64 = crate::frame::word::Word::to_int(self.pop_word());
                proof {
                    assert(self@.words =~= old(self)@.dropped(2).words);
                    assert(self@.refs =~= old(self)@.dropped(2).refs);
                }
                match crate::frame::arithmetic::int_binary(op, lhs, rhs) {
                    Ok(answer) => {
                        self.push_word(
                            crate::frame::word::Word::of_int(answer),
                            false,
                            Ghost(Set::empty()),
                        );
                        self.advance()
                    },
                    Err(message) => Pause::Raised(RuntimeError::new(message.to_owned()).at(span)),
                }
            },
            Inst::Dup => {
                if self.words.len() == 0 {
                    return Pause::Stuck;
                }
                let last: usize = self.words.len() - 1;
                let word: u64 = self.words[last];
                let is_reference: bool = self.refs.read(last);
                proof {
                    assert(self@.top_ref() == is_reference);
                    if is_reference {
                        self.lemma_word_held(last as int);
                        self.lemma_held_is_reached(word);
                    }
                }
                self.push_word(word, is_reference, Ghost(Set::empty()));
                self.advance()
            },
            Inst::ScalarToValue(_) => self.convert(),
            Inst::ValueToScalar => self.convert(),
            Inst::Const(id) => {
                let word: u64 = self.tables.constants[id.0 as usize];
                let is_reference: bool = match &self.program.constants[id.0 as usize] {
                    Const::Str(_) => true,
                    _ => false,
                };
                proof {
                    assert(crate::ir::ConstId(id.0 as int as u32) == id);
                    assert(self.tables.constants@[id.0 as int] == word);
                    if is_reference {
                        assert(self.program.constants@[id.0 as int] is Str);
                        assert(self.tables.string_constants@.contains(word));
                        self.lemma_root_reached(Set::empty(), word);
                    }
                }
                self.push_word(word, is_reference, Ghost(Set::empty()));
                self.advance()
            },
            _ => Pause::Stuck,
        }
    }

    /// Whether the top word is a handle that names an object.
    fn top_names(&self) -> (handle: Option<u64>)
        requires
            self.wf(),
        ensures
            match handle {
                Some(h) => self@.words.len() > 0 && h == self@.top() && self@.top_ref()
                    && self@.objects.dom().contains(h) && self.heap@.dom().contains(h)
                    && self.heap@[h] == self@.objects[h] && self.held(h)
                    && crate::frame::machine::top_object(self@) == Some(self@.objects[h]),
                None => crate::frame::machine::top_object(self@) is None,
            },
    {
        if self.words.len() == 0 {
            return None;
        }
        let last: usize = self.words.len() - 1;
        let word: u64 = self.words[last];
        if !self.refs.read(last) {
            return None;
        }
        proof {
            assert(self@.top_ref());
            self.lemma_word_held(last as int);
            self.lemma_held_is_reached(word);
            self.lemma_sees(Set::empty(), word);
        }
        match self.heap.layout_id_of(word) {
            Some(_) => Some(word),
            None => None,
        }
    }

    /// Pushes one word of the object a handle names, once the stack has been
    /// cut down by `taken`.
    fn read_word(&mut self, handle: u64, at: u32, expected: Option<bool>, taken: usize) -> (pause:
        Pause)
        requires
            old(self).wf(),
            old(self).held(handle),
            old(self)@.objects.dom().contains(handle),
            old(self).heap@.dom().contains(handle),
            old(self).heap@[handle] == old(self)@.objects[handle],
            old(self)@.pc < usize::MAX,
            taken <= old(self)@.words.len(),
        ensures
            final(self).wf(),
            final(self).fixed(*old(self)),
            shows(
                crate::frame::machine::read(
                    old(self)@.dropped(taken as int),
                    old(self)@.objects[handle],
                    at as int,
                    expected,
                ),
                final(self)@,
                pause,
            ),
    {
        let word: u64 = match self.heap.word(handle, at as usize) {
            Some(word) => word,
            None => {
                return Pause::Stuck;
            },
        };
        let is_reference: bool = self.heap.word_is_reference(handle, at as usize);
        if let Some(declared) = expected {
            if declared != is_reference {
                return Pause::Stuck;
            }
        }
        let ghost extra: Set<u64> = if is_reference {
            set![word]
        } else {
            Set::empty()
        };
        proof {
            if is_reference {
                assert(self.all@[handle].names(word));
                crate::slot::lemma_named_is_reached(self.all@, self.roots(), handle, word);
            }
            self.lemma_extra_held(extra);
        }
        let len: usize = self.words.len() - taken;
        self.cut_held(len, Ghost(extra));
        proof {
            if is_reference {
                self.lemma_root_reached(extra, word);
            }
        }
        self.push_word(word, is_reference, Ghost(extra));
        self.advance()
    }

    /// Handles that are held may be held beside the stack too.
    proof fn lemma_extra_held(self, extra: Set<u64>)
        requires
            self.wf(),
            forall|s: u64| #[trigger] extra.contains(s) ==> self.held(s),
        ensures
            self.holds(extra),
    {
        assert forall|s: u64| #[trigger] self.roots().union(extra).contains(
            s,
        ) implies crate::slot::reaches(self.all@, self.roots().union(Set::empty()), s)
            || !self.all@.dom().contains(s) by {
            if extra.contains(s) {
                self.lemma_held_is_reached(s);
            } else {
                self.lemma_root_reached(Set::empty(), s);
            }
        }
        crate::slot::lemma_covers_roots(
            self.all@,
            self.heap@,
            self.roots().union(Set::empty()),
            self.roots().union(extra),
        );
    }

    /// Writes a field: a new object like the old, but for one word.
    fn set_field(&mut self, id: crate::ir::ConstId) -> (pause: Pause)
        requires
            old(self).wf(),
            old(self)@.pc < usize::MAX,
            old(self).of().has_const(id),
            crate::frame::layout::writes(old(self).of(), id),
        ensures
            final(self).wf(),
            final(self).fixed(*old(self)),
            shows(
                crate::frame::machine::set_field(old(self).of(), old(self)@, id),
                final(self)@,
                pause,
            ),
    {
        if self.words.len() < 2 {
            return Pause::Stuck;
        }
        let last: usize = self.words.len() - 1;
        let word: u64 = self.words[last];
        let word_is_reference: bool = self.refs.read(last);
        let target: u64 = self.words[last - 1];
        if !self.refs.read(last - 1) {
            return Pause::Stuck;
        }
        proof {
            assert(self@.refs[last - 1]);
            assert(self@.top_ref() == word_is_reference);
            self.lemma_word_held(last - 1);
            self.lemma_held_is_reached(target);
            self.lemma_sees(Set::empty(), target);
            assert(crate::ir::ConstId(id.0 as int as u32) == id);
        }
        let at: usize = match self.tables.field_at[id.0 as usize] {
            Some(at) => at,
            None => {
                return Pause::Stuck;
            },
        };
        proof {
            let name = self.of().name_text(id);
            assert(crate::frame::layout::settles(self.of(), name, at as int));
            let chosen = choose|k: int| crate::frame::layout::settles(self.of(), name, k);
            lemma_one_position(self.of(), name, at as int, chosen);
        }
        if self.heap.layout_id_of(target).is_none() {
            return Pause::Stuck;
        }
        let width: usize = self.heap.layout_words(target);
        if at >= width {
            return Pause::Stuck;
        }
        if self.heap.word_is_reference(target, at) && !word_is_reference {
            return Pause::Stuck;
        }
        let ghost plan = self.all@[target].plan;
        let ghost words = self.all@[target].words.update(at as int, word);
        let ghost object = Object { plan, words };
        let ghost before = *self;
        proof {
            assert forall|to: u64| #[trigger] object.names(to) implies crate::slot::reaches(
                self.all@,
                self.roots().union(Set::empty()),
                to,
            ) by {
                let i = choose|i: int| #[trigger] object.is_ref(i) && object.words[i] == to;
                assert(self.all@[target].is_ref(i));
                if i == at {
                    assert(self@.top_ref());
                    self.lemma_word_held(last as int);
                    self.lemma_held_is_reached(to);
                } else {
                    assert(self.all@[target].names(to));
                    crate::slot::lemma_named_is_reached(
                        self.all@,
                        self.roots().union(Set::empty()),
                        target,
                        to,
                    );
                }
            }
            self.heap.lemma_unused();
        }
        match self.heap.copy_replacing(target, at, word) {
            None => Pause::Stuck,
            Some(handle) => {
                self.all = Ghost(self.all@.insert(handle, object));
                self.count_object(width);
                let ghost extra: Set<u64> = set![handle];
                proof {
                    assert(self.flags() =~= before.flags());
                    assert(self.roots() =~= before.roots());
                    assert(!before.all@.dom().contains(handle));
                    crate::slot::lemma_covers_allocation(
                        before.all@,
                        before.heap@,
                        before.roots().union(Set::empty()),
                        handle,
                        object,
                    );
                    assert(before.roots().union(Set::empty()).insert(handle)
                        =~= self.roots().union(extra));
                    assert(self@ == before@.making(plan, words));
                }
                self.cut_held(last - 1, Ghost(extra));
                proof {
                    self.lemma_root_reached(extra, handle);
                }
                self.push_word(handle, true, Ghost(extra));
                self.add_fuel(width as u64);
                self.advance()
            },
        }
    }

    /// Counts one object of `width` words, and asks whether a collection has
    /// become due.
    fn count_object(&mut self, width: usize)
        ensures
            *final(self) == (FrameVm {
                heap_stats: HeapStats {
                    allocated_objects: crate::budget::tallied(
                        old(self).heap_stats.allocated_objects as int,
                        1,
                    ) as u64,
                    allocated_bytes: crate::budget::tallied(
                        old(self).heap_stats.allocated_bytes as int,
                        8 * width,
                    ) as u64,
                    ..old(self).heap_stats
                },
                due: old(self).due || old(self).heap.is_due(),
                ..*old(self)
            }),
    {
        self.heap_stats.allocated_objects = tally(self.heap_stats.allocated_objects, 1);
        let bytes: u64 = if width as u64 <= u64::MAX / 8 {
            8 * width as u64
        } else {
            u64::MAX
        };
        self.heap_stats.allocated_bytes = tally(self.heap_stats.allocated_bytes, bytes);
        self.due = self.due || self.heap.should_collect();
    }

    /// An interpolation: the operands rendered and a text made of them.
    fn concat(&mut self, count: u32) -> (pause: Pause)
        requires
            old(self).wf(),
            old(self)@.pc < usize::MAX,
            old(self)@.frames.len() > 0,
        ensures
            final(self).wf(),
            final(self).fixed(*old(self)),
            shows(
                crate::frame::machine::concat(
                    old(self).of(),
                    old(self)@,
                    crate::frame::machine::running(old(self).of(), old(self)@),
                    count as int,
                ),
                final(self)@,
                pause,
            ),
    {
        let here: FunctionId = self.frames[self.frames.len() - 1].function;
        proof {
            assert(self.program.has_function(self.frames@[self.frames@.len() - 1].function));
            assert(self.tables.operands@[here.0 as int]@ == crate::frame::operands::operands_of(
                *self.program,
                self.program.functions@[here.0 as int],
            ));
        }
        let kinds = match self.tables.operands[here.0 as usize].top(self.pc, count as usize) {
            Some(kinds) => kinds,
            None => {
                return Pause::Stuck;
            },
        };
        let values = match self.take_arguments(&kinds) {
            Some(values) => values,
            None => {
                return Pause::Stuck;
            },
        };
        let text: String = show_all(&values);
        let length: u64 = text.as_str().as_bytes().len() as u64;
        self.add_fuel(tally(count as u64, length));
        match self.make_text(text.as_str()) {
            None => Pause::Stuck,
            Some(handle) => {
                let ghost extra: Set<u64> = set![handle];
                proof {
                    self.lemma_root_reached(extra, handle);
                }
                self.push_word(handle, true, Ghost(extra));
                self.advance()
            },
        }
    }

    /// Compares two texts, byte by byte.
    fn compare_string_handles(&mut self, op: crate::ir::BinaryOp) -> (pause: Pause)
        requires
            old(self).wf(),
            old(self)@.pc < usize::MAX,
        ensures
            final(self).wf(),
            final(self).fixed(*old(self)),
            shows(crate::frame::machine::compare(old(self)@, op), final(self)@, pause),
    {
        if self.words.len() < 2 || !op.is_comparison() {
            return Pause::Stuck;
        }
        let last: usize = self.words.len() - 1;
        if !self.refs.read(last) || !self.refs.read(last - 1) {
            return Pause::Stuck;
        }
        let rhs: u64 = self.words[last];
        let lhs: u64 = self.words[last - 1];
        proof {
            assert(self@.refs[last - 1]);
            assert(self@.top_ref());
            self.lemma_word_held(last as int);
            self.lemma_word_held(last - 1);
        }
        let left = match self.bytes_of(lhs) {
            Some(bytes) => bytes,
            None => {
                return Pause::Stuck;
            },
        };
        let right = match self.bytes_of(rhs) {
            Some(bytes) => bytes,
            None => {
                return Pause::Stuck;
            },
        };
        let order: i32 = crate::frame::arithmetic::order_bytes(&left, &right);
        let yes: bool = crate::frame::arithmetic::answers(op, order);
        self.cut(last - 1);
        self.push_word(crate::frame::word::Word::of_bool(yes), false, Ghost(Set::empty()));
        self.advance()
    }
}

/// A field stands at one position.
proof fn lemma_one_position(program: Program, name: Seq<char>, a: int, b: int)
    requires
        crate::frame::layout::settles(program, name, a),
        crate::frame::layout::settles(program, name, b),
    ensures
        a == b,
{
    let s = choose|s: int| crate::frame::layout::has_field(program, name, s, a);
    assert(crate::frame::layout::has_field(program, name, s, a));
}

/// The texts some values show as, in a row.
fn show_all(values: &Vec<Value>) -> (text: String)
    ensures
        text@ == crate::frame::machine::all_shown(crate::value::data(values@)),
{
    let mut text: String = String::new();
    let ghost data = crate::value::data(values@);
    let mut i: usize = 0;
    proof {
        assert(text@ =~= crate::frame::machine::all_shown(data.take(0)));
    }
    while i < values.len()
        invariant
            data == crate::value::data(values@),
            i <= values@.len(),
            text@ == crate::frame::machine::all_shown(data.take(i as int)),
        decreases values@.len() - i,
    {
        text.append(values[i].show().as_str());
        proof {
            assert(data.take(i + 1).drop_last() =~= data.take(i as int));
            assert(data.take(i + 1).last() == values@[i as int]@);
        }
        i = i + 1;
    }
    proof {
        assert(data.take(i as int) =~= data);
    }
    text
}

impl<'a> FrameVm<'a> {
    /// The case test: whether the object on top is the case asked for.
    fn test_case(&mut self, id: crate::ir::ConstId) -> (pause: Pause)
        requires
            old(self).wf(),
            old(self)@.pc < usize::MAX,
            old(self).of().has_const(id),
        ensures
            final(self).wf(),
            final(self).fixed(*old(self)),
            forall|function: Function|
                shows(
                    #[trigger] crate::frame::machine::object_step(
                        old(self).of(),
                        old(self)@,
                        function,
                        Inst::TestCase(id),
                    ),
                    final(self)@,
                    pause,
                ),
    {
        let handle: u64 = match self.top_names() {
            Some(handle) => handle,
            None => {
                return Pause::Stuck;
            },
        };
        let program = self.program;
        let name = program.const_name(id);
        let matched: bool = match self.heap.layout_of(handle) {
            None => false,
            Some(layout) => match &layout.case {
                Some(pair) => crate::frame::layout::case_matches(
                    pair.0.as_str(),
                    pair.1.as_str(),
                    name,
                ),
                None => false,
            },
        };
        self.push_word(crate::frame::word::Word::of_bool(matched), false, Ghost(Set::empty()));
        self.advance()
    }

    /// Whether a declared payload position holds a handle.
    fn declared_payload(&self, of: crate::ir::EnumId, case: u32, at: u32) -> (is_ref: Option<bool>)
        requires
            self.of().has_enum(of),
        ensures
            is_ref == crate::frame::machine::payload_is_ref(
                self.of(),
                of,
                case as int,
                at as int,
            ),
    {
        let cases = &self.program.enums[of.0 as usize].cases;
        if (case as usize) < cases.len() && (at as usize) < cases[case as usize].payload.len() {
            Some(
                match cases[case as usize].payload[at as usize] {
                    crate::ir::SlotKind::Scalar(_) => false,
                    _ => true,
                },
            )
        } else {
            None
        }
    }

    /// Whether a declared field holds a handle.
    fn declared_field(&self, of: crate::ir::StructId, at: u32) -> (is_ref: Option<bool>)
        requires
            self.of().has_struct(of),
        ensures
            is_ref == crate::frame::machine::field_is_ref(self.of(), of, at as int),
    {
        let fields = &self.program.structs[of.0 as usize].fields;
        if (at as usize) < fields.len() {
            Some(
                match fields[at as usize].kind {
                    crate::ir::SlotKind::Scalar(_) => false,
                    _ => true,
                },
            )
        } else {
            None
        }
    }

    /// The layout of what the instruction at hand builds, where it builds a
    /// case.
    fn site_here(&self) -> (layout: Option<usize>)
        requires
            self.wf(),
            self@.frames.len() > 0,
            self@.pc < crate::frame::machine::running(self.of(), self@).code@.len(),
        ensures
            match crate::frame::layout::construction(
                self.of(),
                crate::frame::machine::standing(
                    self.of(),
                    crate::frame::machine::running(self.of(), self@),
                ),
                self@.pc,
                crate::frame::machine::running(self.of(), self@).code@[self@.pc],
            ) {
                Some(site) => layout matches Some(id) && id < self.heap.plans().len()
                    && self.heap.plans()[id as int] == crate::frame::machine::site_plan(site),
                None => layout is None,
            },
    {
        let here: FunctionId = self.frames[self.frames.len() - 1].function;
        proof {
            assert(self.program.has_function(self.frames@[self.frames@.len() - 1].function));
            assert(self.tables.sites_ok(*self.program, self.heap.plans(), here.0 as int));
        }
        self.tables.enum_site_layout[here.0 as usize][self.pc]
    }

    /// An instruction over the object the top word names.
    fn object_step(&mut self, inst: Inst) -> (pause: Pause)
        requires
            old(self).wf(),
            old(self)@.frames.len() > 0,
            old(self)@.pc < crate::frame::machine::running(old(self).of(), old(self)@).code@.len(),
            inst == crate::frame::machine::running(old(self).of(), old(self)@).code@[old(
                self,
            )@.pc],
            old(self)@.pc < usize::MAX,
        ensures
            final(self).wf(),
            final(self).fixed(*old(self)),
            shows(
                crate::frame::machine::object_step(
                    old(self).of(),
                    old(self)@,
                    crate::frame::machine::running(old(self).of(), old(self)@),
                    inst,
                ),
                final(self)@,
                pause,
            ),
    {
        let ghost here = self.frames@[self.frames@.len() - 1].function;
        let ghost function = crate::frame::machine::running(self.of(), self@);
        proof {
            assert(self.program.has_function(here));
            assert(crate::frame::validity::well_named(
                *self.program,
                self.program.functions@[here.0 as int],
            ));
            assert(crate::ir::names_what_exists(*self.program, function.code@[self.pc as int]));
        }
        match inst {
            Inst::MakeStruct(of) => {
                let layout: usize = self.tables.shapes[of.0 as usize];
                let width: usize = self.program.structs[of.0 as usize].fields.len();
                self.build(layout, width as u64)
            },
            Inst::MakeEnum { ty: _, named: _, argc: _ } => match self.site_here() {
                None => Pause::Stuck,
                Some(layout) => {
                    let width: usize = self.heap.layout(layout).refs.len();
                    self.build(layout, width as u64)
                },
            },
            Inst::TestCase(id) => self.test_case(id),
            Inst::GetPayload { case, at } => {
                let handle: u64 = match self.top_names() {
                    Some(handle) => handle,
                    None => {
                        return Pause::Stuck;
                    },
                };
                proof {
                    assert(self@.dropped(0) == self@) by {
                        assert(self@.words.take(self@.words.len() as int) =~= self@.words);
                        assert(self@.refs.take(self@.refs.len() as int) =~= self@.refs);
                    }
                }
                match case {
                    Some((of, which)) => match self.declared_payload(of, which, at) {
                        None => Pause::Stuck,
                        Some(is_ref) => self.read_word(handle, at, Some(is_ref), 0),
                    },
                    None => self.read_word(handle, at, None, 0),
                }
            },
            Inst::GetFieldAt { of, at } => {
                let handle: u64 = match self.top_names() {
                    Some(handle) => handle,
                    None => {
                        return Pause::Stuck;
                    },
                };
                match self.declared_field(of, at) {
                    None => Pause::Stuck,
                    Some(is_ref) => self.read_word(handle, at, Some(is_ref), 1),
                }
            },
            Inst::GetFieldAtScalar(at) => {
                let handle: u64 = match self.top_names() {
                    Some(handle) => handle,
                    None => {
                        return Pause::Stuck;
                    },
                };
                self.read_word(handle, at, Some(false), 1)
            },
            Inst::SetField(id) => {
                proof {
                    assert(crate::frame::layout::writes_at(
                        *self.program,
                        id,
                        here.0 as int,
                        self.pc as int,
                    ));
                }
                self.set_field(id)
            },
            Inst::Concat(count) => self.concat(count),
            Inst::Binary(op) => self.compare_string_handles(op),
            _ => Pause::Stuck,
        }
    }

    // -------------------------------------------------------------- control

    /// Moves control within the running function, and charges the block it
    /// comes to.
    fn jump(&mut self, function: &Function, to: u32) -> (pause: Pause)
        requires
            old(self).wf(),
            function.block_fuel@.len() == function.code@.len(),
        ensures
            final(self).wf(),
            final(self).fixed(*old(self)),
            shows(
                crate::frame::machine::jump(old(self)@, *function, to as int),
                final(self)@,
                pause,
            ),
    {
        let target: usize = to as usize;
        if target >= function.code.len() {
            return Pause::Stuck;
        }
        if target <= self.pc {
            let span = function.span_at(self.pc);
            if let Err(error) = self.back_edge(span) {
                return Pause::Raised(error);
            }
        }
        match self.charge(function.block_fuel[target], function.span_at(target)) {
            Err(error) => Pause::Raised(error),
            Ok(_) => {
                self.go_to(target);
                Pause::Yielded
            },
        }
    }

    /// Takes the top word, and moves control where it says.
    fn branch(&mut self, function: &Function, to: u32, when_zero: bool) -> (pause: Pause)
        requires
            old(self).wf(),
            function.block_fuel@.len() == function.code@.len(),
            old(self)@.pc < usize::MAX,
        ensures
            final(self).wf(),
            final(self).fixed(*old(self)),
            shows(
                crate::frame::machine::branch(old(self)@, *function, to as int, when_zero),
                final(self)@,
                pause,
            ),
    {
        if self.words.len() == 0 {
            return Pause::Stuck;
        }
        let word: u64 = self.pop_word();
        if (word == 0) == when_zero {
            return self.jump(function, to);
        }
        let next: usize = self.pc + 1;
        if next >= function.code.len() {
            return Pause::Stuck;
        }
        match self.charge(function.block_fuel[next], function.span_at(next)) {
            Err(error) => Pause::Raised(error),
            Ok(_) => self.advance(),
        }
    }

    /// Whether the arguments on top can become a frame's first slots.
    fn fits_frame(&self, function: &Function, argc: u64) -> (yes: bool)
        requires
            self.wf(),
        ensures
            yes == crate::frame::machine::fits_frame(self@, *function, argc as int),
    {
        let total: usize = self.words.len();
        let width: usize = function.slots.len();
        if argc > total as u64 || argc > width as u64 {
            return false;
        }
        let count: usize = argc as usize;
        let base: usize = total - count;
        if width > usize::MAX - base || base + width > usize::MAX - 64 {
            return false;
        }
        let mut i: usize = 0;
        while i < count
            invariant
                count == argc,
                base + count == self.words@.len(),
                base + count <= usize::MAX,
                count <= function.slots@.len(),
                i <= count,
                forall|j: int|
                    0 <= j < i && #[trigger] function.slots@[j] is Value ==> self@.refs[base + j],
            decreases count - i,
        {
            let refers: bool = match function.slots[i] {
                crate::ir::SlotKind::Value => true,
                _ => false,
            };
            if refers && !self.refs.read(base + i) {
                proof {
                    assert(function.slots@[i as int] is Value);
                    assert(!self@.refs[base + i]);
                    assert(self@.refs.len() - argc + i == base + i);
                }
                return false;
            }
            i = i + 1;
        }
        proof {
            assert forall|j: int|
                0 <= j < argc && #[trigger] function.slots@[j] is Value implies self@.refs[
            self@.refs.len() - argc + j] by {
                assert(self@.refs[base + j]);
            }
        }
        true
    }

    /// Opens a frame over the arguments on top: the words it needs beyond
    /// them, and the bits that say which are handles.
    fn open(&mut self, id: FunctionId, argc: u64)
        requires
            old(self).wf(),
            old(self).of().has_function(id),
            crate::frame::machine::fits_frame(old(self)@, old(self).of().func(id), argc as int),
        ensures
            final(self).wf(),
            final(self).fixed(*old(self)),
            final(self)@ == crate::frame::machine::opened(
                old(self)@,
                old(self).of().func(id),
                argc as int,
            ),
    {
        let ghost function = self.of().func(id);
        let base: usize = self.words.len() - argc as usize;
        let width: usize = self.tables.maps[id.0 as usize].width;
        proof {
            assert(maps_function(
                self.tables.maps@[id.0 as int],
                self.program.functions@[id.0 as int],
            ));
        }
        let ghost before = self.words@;
        while self.words.len() < base + width
            invariant
                base == before.len() - argc,
                base + width <= usize::MAX,
                before.len() <= self.words@.len() <= base + width,
                self.words@ == before + Seq::new(
                    (self.words@.len() - before.len()) as nat,
                    |i: int| 0u64,
                ),
                *self == (FrameVm { words: self.words, ..*old(self) }),
            decreases base + width - self.words@.len(),
        {
            self.words.push(0);
            proof {
                assert(self.words@ =~= before + Seq::new(
                    (self.words@.len() - before.len()) as nat,
                    |i: int| 0u64,
                ));
            }
        }
        self.refs.write_frame(base, &self.tables.maps[id.0 as usize]);
        if self.words.len() > self.high_water {
            self.high_water = self.words.len();
        }
        proof {
            let expected = crate::frame::machine::opened(old(self)@, function, argc as int);
            assert(self.words@ =~= expected.words);
            assert forall|i: int| 0 <= i < self.words@.len() implies self.flags()[i]
                == #[trigger] expected.refs[i] by {
                if i < base {
                    assert(self.refs.is_ref(i) == old(self).refs.is_ref(i));
                } else {
                    assert(self.refs.is_ref(i) == self.tables.maps@[id.0 as int].names(i - base));
                }
            }
            assert(self.flags() =~= expected.refs);
            assert forall|s: u64| #[trigger] self.roots().contains(s) implies crate::slot::reaches(
                old(self).all@,
                old(self).roots().union(Set::empty()),
                s,
            ) || !old(self).all@.dom().contains(s) by {
                if exists|i: int|
                    0 <= i < self.words@.len() && self.flags()[i] && #[trigger] self.words@[i]
                        == s {
                    let i = choose|i: int|
                        0 <= i < self.words@.len() && self.flags()[i] && #[trigger] self.words@[i]
                            == s;
                    if i < before.len() {
                        assert(old(self).words@[i] == s);
                        if i >= base {
                            assert(expected.refs[i] == (function.slots@[i - base] is Value));
                            assert(function.slots@[i - base] is Value);
                            assert(old(self)@.refs[old(self)@.refs.len() - argc + (i - base)]);
                        }
                        assert(old(self).flags()[i]);
                        old(self).lemma_root_reached(Set::empty(), s);
                    } else {
                        assert(s == 0);
                    }
                } else {
                    old(self).lemma_root_reached(Set::empty(), s);
                }
            }
            self.lemma_still_held(*old(self), Set::empty());
        }
    }

    /// Too many calls stand for one more.
    fn refuse_depth(&self, callee: &Function, span: Span) -> (error: Option<RuntimeError>)
        ensures
            match crate::frame::machine::too_deep(self@, *callee, span) {
                Some(failure) => error matches Some(e) && e@ == failure,
                None => error is None,
            },
    {
        if self.frames.len() >= crate::frame::machine::MAX_CALL_DEPTH {
            let mut message: String = "call depth limit of ".to_owned();
            message.append(
                crate::text::decimal(crate::frame::machine::MAX_CALL_DEPTH as u64).as_str(),
            );
            message.append(" reached while calling `");
            message.append(callee.name.as_str());
            message.append("`");
            return Some(
                RuntimeError::new(message).with_rule(
                    "Recursion depth is a runtime control, not a proof obligation.".to_owned(),
                ).at(span),
            );
        }
        match self.budget {
            Some(budget) => match budget.limits.max_call_depth {
                Some(limit) => if self.frames.len() + 1 > limit {
                    Some(budget.to_runtime_error(Stopped::CallDepth).at(span))
                } else {
                    None
                },
                None => None,
            },
            None => None,
        }
    }

    /// Calls a function of the program.
    fn call(&mut self, function: &Function, target: FunctionId, argc: u64) -> (pause: Pause)
        requires
            old(self).wf(),
            old(self).of().has_function(target),
            old(self)@.pc < usize::MAX,
        ensures
            final(self).wf(),
            final(self).fixed(*old(self)),
            shows(
                crate::frame::machine::call(
                    old(self).of(),
                    old(self)@,
                    *function,
                    target,
                    argc as int,
                ),
                final(self)@,
                pause,
            ),
    {
        let program = self.program;
        let span = function.span_at(self.pc);
        let callee = program.function(target);
        proof {
            assert(crate::frame::validity::well_named(
                *program,
                program.functions@[target.0 as int],
            ));
        }
        if let Some(error) = self.refuse_depth(callee, span) {
            return Pause::Raised(error);
        }
        if let Err(error) = self.safepoint(span) {
            return Pause::Raised(error);
        }
        if callee.code.len() == 0 {
            return Pause::Stuck;
        }
        if let Err(error) = self.charge(callee.block_fuel[0], callee.span_at(0)) {
            return Pause::Raised(error);
        }
        if !self.fits_frame(callee, argc) {
            return Pause::Stuck;
        }
        let base: usize = self.words.len() - argc as usize;
        let return_pc: usize = self.pc + 1;
        self.open(target, argc);
        let ghost entered = *self;
        self.frames.push(Call { function: target, return_pc, base });
        self.pc = 0;
        proof {
            assert(self.flags() =~= entered.flags());
            assert(self.roots() =~= entered.roots());
        }
        Pause::Yielded
    }

    /// Closes the frame on top.
    fn close(&mut self) -> (done: Call)
        requires
            old(self).wf(),
            old(self)@.frames.len() > 0,
            old(self)@.frames.last().base <= old(self)@.words.len(),
        ensures
            final(self).wf(),
            final(self).fixed(*old(self)),
            done == old(self)@.frames.last(),
            final(self)@ == crate::frame::machine::closed(old(self)@),
    {
        let last: usize = self.frames.len() - 1;
        let done: Call = self.frames[last];
        self.cut(done.base);
        let ghost cut = *self;
        self.frames.truncate(last);
        proof {
            assert(self.frames@ =~= old(self)@.frames.drop_last());
            assert(self.flags() =~= cut.flags());
            assert(self.roots() =~= cut.roots());
        }
        done
    }

    /// Resumes the caller of a frame that has been closed.
    fn resume_caller(&mut self, done: Call) -> (pause: Pause)
        requires
            old(self).wf(),
            old(self)@.frames.len() > 0,
        ensures
            final(self).wf(),
            final(self).fixed(*old(self)),
            shows(
                crate::frame::machine::resumed(old(self).of(), old(self)@, done),
                final(self)@,
                pause,
            ),
    {
        let program = self.program;
        let here: FunctionId = self.frames[self.frames.len() - 1].function;
        proof {
            assert(self.program.has_function(self.frames@[self.frames@.len() - 1].function));
            assert(crate::frame::validity::well_named(*program, program.functions@[here.0 as int]));
        }
        let caller = program.function(here);
        let pc: usize = done.return_pc;
        if pc >= caller.code.len() {
            return Pause::Stuck;
        }
        self.go_to(pc);
        match self.charge(caller.block_fuel[pc], caller.span_at(pc)) {
            Err(error) => Pause::Raised(error),
            Ok(_) => Pause::Yielded,
        }
    }

    /// Returns one scalar word.
    fn return_scalar(&mut self, function: &Function) -> (pause: Pause)
        requires
            old(self).wf(),
            old(self)@.frames.len() > 0,
        ensures
            final(self).wf(),
            final(self).fixed(*old(self)),
            shows(
                crate::frame::machine::return_scalar(old(self).of(), old(self)@, *function),
                final(self)@,
                pause,
            ),
    {
        let program = self.program;
        let span = function.span_at(self.pc);
        if let Err(error) = self.safepoint(span) {
            return Pause::Raised(error);
        }
        let base: usize = self.frames[self.frames.len() - 1].base;
        if self.words.len() == 0 || base > self.words.len() - 1 {
            return Pause::Stuck;
        }
        let answer: u64 = self.pop_word();
        let ghost popped = self@;
        let done: Call = self.close();
        proof {
            assert(program.has_function(popped.frames[popped.frames.len() - 1].function));
        }
        if self.frames.len() > 0 {
            self.push_word(answer, false, Ghost(Set::empty()));
            self.resume_caller(done)
        } else {
            match program.function(done.function).returns {
                crate::ir::SlotKind::Scalar(crate::ir::Scalar::Int) => {
                    self.count_materialized(1);
                    Pause::Answered(Value::Int(crate::frame::word::Word::to_int(answer)))
                },
                crate::ir::SlotKind::Scalar(crate::ir::Scalar::Bool) => {
                    if answer > 1 {
                        return Pause::Stuck;
                    }
                    self.count_materialized(1);
                    Pause::Answered(Value::Bool(crate::frame::word::Word::canonical_bool(answer)))
                },
                _ => Pause::Stuck,
            }
        }
    }

    /// Leaves a frame with a value for an answer.
    fn leave_with_value(&mut self, value: Value) -> (pause: Pause)
        requires
            old(self).wf(),
            old(self)@.frames.len() > 0,
        ensures
            final(self).wf(),
            final(self).fixed(*old(self)),
            shows(
                crate::frame::machine::leave(old(self).of(), old(self)@, value@),
                final(self)@,
                pause,
            ),
    {
        let base: usize = self.frames[self.frames.len() - 1].base;
        if base > self.words.len() {
            return Pause::Stuck;
        }
        let done: Call = self.close();
        if self.frames.len() > 0 {
            self.keep_value(value);
            self.resume_caller(done)
        } else {
            Pause::Answered(value)
        }
    }

    /// Discards a word, or a value that stands over the boundary.
    fn discard(&mut self, function: &Function) -> (pause: Pause)
        requires
            old(self).wf(),
            old(self)@.frames.len() > 0,
            *function == crate::frame::machine::running(old(self).of(), old(self)@),
            crate::frame::validity::well_named(old(self).of(), *function),
            old(self)@.pc < usize::MAX,
        ensures
            final(self).wf(),
            final(self).fixed(*old(self)),
            shows(
                crate::frame::machine::discard(old(self).of(), old(self)@, *function),
                final(self)@,
                pause,
            ),
    {
        let here: FunctionId = self.frames[self.frames.len() - 1].function;
        let pc: usize = self.pc;
        proof {
            assert(self.program.has_function(self.frames@[self.frames@.len() - 1].function));
            assert(self.tables.operands@[here.0 as int]@ == crate::frame::operands::operands_of(
                *self.program,
                self.program.functions@[here.0 as int],
            ));
        }
        let crosses: bool = match self.tables.operands[here.0 as usize].top(pc, 1) {
            Some(kinds) => kinds[0] == Kind::Str || kinds[0] == Kind::Enum,
            None => false,
        };
        if crate::frame::admission::leaves_a_boundary_value(self.program, function, pc) || crosses {
            self.count_materialized(1);
            match self.pop_boundary_value() {
                None => Pause::Stuck,
                Some(_) => self.advance(),
            }
        } else {
            if self.words.len() == 0 {
                return Pause::Stuck;
            }
            let _word: u64 = self.pop_word();
            self.advance()
        }
    }

    /// The kinds of the arguments on top, where each can be read as a value.
    fn argument_kinds(&self, argc: u32) -> (kinds: Option<Vec<Kind>>)
        requires
            self.wf(),
            self@.frames.len() > 0,
        ensures
            match kinds {
                Some(list) => crate::frame::operands::boundary_kinds(
                    crate::frame::machine::standing(
                        self.of(),
                        crate::frame::machine::running(self.of(), self@),
                    ),
                    self@.pc,
                    argc as int,
                ) == Some(list@),
                None => crate::frame::operands::boundary_kinds(
                    crate::frame::machine::standing(
                        self.of(),
                        crate::frame::machine::running(self.of(), self@),
                    ),
                    self@.pc,
                    argc as int,
                ) is None,
            },
    {
        let here: FunctionId = self.frames[self.frames.len() - 1].function;
        proof {
            assert(self.program.has_function(self.frames@[self.frames@.len() - 1].function));
            assert(self.tables.operands@[here.0 as int]@ == crate::frame::operands::operands_of(
                *self.program,
                self.program.functions@[here.0 as int],
            ));
        }
        self.tables.operands[here.0 as usize].boundary(self.pc, argc as usize)
    }

    /// Calls a builtin: builds a case where the case is known, and hands the
    /// arguments over elsewhere.
    fn make_builtin(&mut self, function: &Function, name: crate::ir::ConstId, argc: u32) -> (pause:
        Pause)
        requires
            old(self).wf(),
            old(self)@.frames.len() > 0,
            *function == crate::frame::machine::running(old(self).of(), old(self)@),
            old(self)@.pc < function.code@.len(),
            old(self)@.pc < usize::MAX,
            old(self).of().has_const(name),
        ensures
            final(self).wf(),
            final(self).fixed(*old(self)),
            shows(
                crate::frame::machine::make_builtin(
                    old(self).of(),
                    old(self)@,
                    *function,
                    name,
                    argc as int,
                ),
                final(self)@,
                pause,
            ),
    {
        let program = self.program;
        let span = function.span_at(self.pc);
        if let Some(layout) = self.site_here() {
            return self.build(layout, 0);
        }
        let kinds = match self.argument_kinds(argc) {
            Some(kinds) => kinds,
            None => {
                return Pause::Stuck;
            },
        };
        match self.take_arguments(&kinds) {
            None => Pause::Stuck,
            Some(arguments) => {
                self.count_materialized(argc as u64);
                self.count_materialized(1);
                self.await_answer(Pending::Builtin);
                Pause::Builtin { name: program.const_name(name).to_owned(), arguments, span }
            },
        }
    }

    /// Waits for an answer.
    fn await_answer(&mut self, pending: Pending)
        requires
            old(self).wf(),
        ensures
            final(self).wf(),
            final(self).fixed(*old(self)),
            final(self)@ == (Machine { pending, ..old(self)@ }),
    {
        self.pending = pending;
        proof {
            assert(self.flags() =~= old(self).flags());
            assert(self.roots() =~= old(self).roots());
        }
    }

    /// Calls a host: hands the arguments over, once the budget has been asked.
    fn call_host(
        &mut self,
        function: &Function,
        module: crate::ir::ConstId,
        op: crate::ir::ConstId,
        argc: u32,
    ) -> (pause: Pause)
        requires
            old(self).wf(),
            old(self)@.frames.len() > 0,
            *function == crate::frame::machine::running(old(self).of(), old(self)@),
            old(self).of().has_const(module),
            old(self).of().has_const(op),
        ensures
            final(self).wf(),
            final(self).fixed(*old(self)),
            shows(
                crate::frame::machine::call_host(
                    old(self).of(),
                    old(self)@,
                    *function,
                    module,
                    op,
                    argc as int,
                ),
                final(self)@,
                pause,
            ),
    {
        let program = self.program;
        let span = function.span_at(self.pc);
        let kinds = match self.argument_kinds(argc) {
            Some(kinds) => kinds,
            None => {
                return Pause::Stuck;
            },
        };
        match self.take_arguments(&kinds) {
            None => Pause::Stuck,
            Some(arguments) => {
                self.count_materialized(argc as u64);
                if let Err(error) = self.ask_budget(span) {
                    return Pause::Raised(error);
                }
                self.await_answer(Pending::Host);
                Pause::Host {
                    module: program.const_name(module).to_owned(),
                    op: program.const_name(op).to_owned(),
                    arguments,
                    span,
                }
            },
        }
    }

    /// A `?`: what it opens goes on, and what it cannot is the answer.
    fn try_value(&mut self, function: &Function, payload: crate::ir::SlotKind) -> (pause: Pause)
        requires
            old(self).wf(),
            old(self)@.frames.len() > 0,
            *function == crate::frame::machine::running(old(self).of(), old(self)@),
            function.block_fuel@.len() == function.code@.len(),
            old(self)@.pc < usize::MAX,
        ensures
            final(self).wf(),
            final(self).fixed(*old(self)),
            shows(
                crate::frame::machine::try_value(
                    old(self).of(),
                    old(self)@,
                    *function,
                    payload,
                ),
                final(self)@,
                pause,
            ),
    {
        let span = function.span_at(self.pc);
        let value = match self.pop_boundary_value() {
            Some(value) => value,
            None => {
                return Pause::Stuck;
            },
        };
        self.count_materialized(1);
        match open_value(value) {
            None => Pause::Raised(
                RuntimeError::new("`?` needs a `Result` or an `Option`".to_owned()).at(span),
            ),
            Some(Ok(answer)) => {
                match payload {
                    crate::ir::SlotKind::Scalar(crate::ir::Scalar::Int) => match answer {
                        Value::Int(n) => {
                            self.push_word(
                                crate::frame::word::Word::of_int(n),
                                false,
                                Ghost(Set::empty()),
                            );
                        },
                        _ => {
                            return Pause::Stuck;
                        },
                    },
                    crate::ir::SlotKind::Scalar(crate::ir::Scalar::Bool) => match answer {
                        Value::Bool(flag) => {
                            self.push_word(
                                crate::frame::word::Word::of_bool(flag),
                                false,
                                Ghost(Set::empty()),
                            );
                        },
                        _ => {
                            return Pause::Stuck;
                        },
                    },
                    _ => {
                        self.keep_value(answer);
                    },
                }
                let next: usize = self.pc + 1;
                if next >= function.code.len() {
                    return Pause::Stuck;
                }
                match self.charge(function.block_fuel[next], function.span_at(next)) {
                    Err(error) => Pause::Raised(error),
                    Ok(_) => self.advance(),
                }
            },
            Some(Err(failure)) => {
                if let Err(error) = self.safepoint(span) {
                    return Pause::Raised(error);
                }
                self.leave_with_value(failure)
            },
        }
    }

    /// Returns a value.
    fn return_value(&mut self, function: &Function) -> (pause: Pause)
        requires
            old(self).wf(),
            old(self)@.frames.len() > 0,
            *function == crate::frame::machine::running(old(self).of(), old(self)@),
        ensures
            final(self).wf(),
            final(self).fixed(*old(self)),
            shows(
                crate::frame::machine::return_value(old(self).of(), old(self)@, *function),
                final(self)@,
                pause,
            ),
    {
        let span = function.span_at(self.pc);
        if let Err(error) = self.safepoint(span) {
            return Pause::Raised(error);
        }
        self.count_materialized(1);
        match self.pop_boundary_value() {
            None => Pause::Stuck,
            Some(value) => self.leave_with_value(value),
        }
    }
}

/// What `?` makes of a value.
fn open_value(value: Value) -> (result: Option<Result<Value, Value>>)
    ensures
        match crate::frame::machine::tried(value@) {
            None => result is None,
            Some(Ok(datum)) => result matches Some(Ok(v)) && v@ == datum,
            Some(Err(datum)) => result matches Some(Err(v)) && v@ == datum,
        },
{
    let opens: u8 = match &value {
        Value::Enum { kind_name, case, payload } => {
            proof {
                lemma_enum_view(value);
            }
            let result: bool = crate::text::same(kind_name.as_str(), "Result");
            let option: bool = crate::text::same(kind_name.as_str(), "Option");
            if result && crate::text::same(case.as_str(), "Ok") && payload.len() == 1 {
                1
            } else if option && crate::text::same(case.as_str(), "Some") && payload.len() == 1 {
                1
            } else if result && crate::text::same(case.as_str(), "Err") {
                2
            } else if option && crate::text::same(case.as_str(), "None") {
                2
            } else {
                0
            }
        },
        _ => 0,
    };
    if opens == 0 {
        None
    } else if opens == 2 {
        Some(Err(value))
    } else {
        match value {
            Value::Enum { kind_name: _, case: _, payload } => {
                let mut rest: Vec<Value> = payload;
                match rest.pop() {
                    Some(first) => Some(Ok(first)),
                    None => None,
                }
            },
            other => Some(Err(other)),
        }
    }
}

impl<'a> FrameVm<'a> {
    /// An instruction that moves control, or reaches over the boundary.
    fn flow_step(&mut self, function: &Function, inst: Inst) -> (pause: Pause)
        requires
            old(self).wf(),
            old(self)@.frames.len() > 0,
            *function == crate::frame::machine::running(old(self).of(), old(self)@),
            crate::frame::validity::well_named(old(self).of(), *function),
            old(self)@.pc < function.code@.len(),
            inst == function.code@[old(self)@.pc],
        ensures
            final(self).wf(),
            final(self).fixed(*old(self)),
            shows(
                crate::frame::machine::flow_step(old(self).of(), old(self)@, *function, inst),
                final(self)@,
                pause,
            ),
    {
        proof {
            assert(crate::ir::names_what_exists(self.of(), function.code@[self.pc as int]));
        }
        match inst {
            Inst::Jump(to) => self.jump(function, to),
            Inst::JumpIfFalseScalar(to) => self.branch(function, to, true),
            Inst::JumpIfTrueScalar(to) => self.branch(function, to, false),
            Inst::JumpIfFalse(to) => self.branch(function, to, true),
            Inst::JumpIfTrue(to) => self.branch(function, to, false),
            Inst::Call { function: target, scalar_argc, value_argc, place_argc: _ } => self.call(
                function,
                target,
                scalar_argc as u64 + value_argc as u64,
            ),
            Inst::ReturnScalar => self.return_scalar(function),
            Inst::Pop => self.discard(function),
            Inst::MakeBuiltin { name, argc } => self.make_builtin(function, name, argc),
            Inst::CallHost { module, op, argc } => self.call_host(function, module, op, argc),
            Inst::Try { payload } => self.try_value(function, payload),
            Inst::Return => self.return_value(function),
            _ => Pause::Stuck,
        }
    }

    /// Runs one instruction.
    fn step(&mut self) -> (pause: Pause)
        requires
            old(self).wf(),
        ensures
            final(self).wf(),
            final(self).fixed(*old(self)),
            shows(
                crate::frame::machine::step(old(self).of(), old(self)@),
                final(self)@,
                pause,
            ),
    {
        let waiting: bool = match self.pending {
            Pending::Nothing => false,
            _ => true,
        };
        if waiting || self.frames.len() == 0 {
            return Pause::Stuck;
        }
        let program = self.program;
        let here: FunctionId = self.frames[self.frames.len() - 1].function;
        proof {
            assert(self.program.has_function(self.frames@[self.frames@.len() - 1].function));
            assert(crate::frame::validity::well_named(*program, program.functions@[here.0 as int]));
        }
        let function = program.function(here);
        if self.pc >= function.code.len() {
            return Pause::Stuck;
        }
        let inst: Inst = function.code[self.pc];
        proof {
            assert(crate::ir::names_what_exists(*program, function.code@[self.pc as int]));
        }
        match inst {
            Inst::LoadScalar(_) => self.slot_step(inst),
            Inst::StoreScalar(_) => self.slot_step(inst),
            Inst::LoadLocal(_) => self.slot_step(inst),
            Inst::StoreLocal(_) => self.slot_step(inst),
            Inst::ScalarConst(_) => self.word_step(function, inst),
            Inst::ScalarPop => self.word_step(function, inst),
            Inst::IntBinary(_) => self.word_step(function, inst),
            Inst::Dup => self.word_step(function, inst),
            Inst::ScalarToValue(_) => self.word_step(function, inst),
            Inst::ValueToScalar => self.word_step(function, inst),
            Inst::Const(_) => self.word_step(function, inst),
            Inst::MakeStruct(_) => self.object_step(inst),
            Inst::MakeEnum { ty: _, named: _, argc: _ } => self.object_step(inst),
            Inst::TestCase(_) => self.object_step(inst),
            Inst::GetPayload { case: _, at: _ } => self.object_step(inst),
            Inst::GetFieldAt { of: _, at: _ } => self.object_step(inst),
            Inst::GetFieldAtScalar(_) => self.object_step(inst),
            Inst::SetField(_) => self.object_step(inst),
            Inst::Concat(_) => self.object_step(inst),
            Inst::Binary(_) => self.object_step(inst),
            _ => self.flow_step(function, inst),
        }
    }

    /// Hands over the fuel of a run that has ended.
    fn settle(&mut self, pause: &Pause)
        requires
            old(self).wf(),
        ensures
            final(self).wf(),
            final(self).of() == old(self).of(),
            final(self).held_outside() == old(self).held_outside(),
            final(self).waited() == old(self).waited(),
            final(self).keeps_collecting(*old(self)),
            forall|outcome: crate::frame::machine::Outcome|
                shows(outcome, old(self)@, *pause) ==> #[trigger] shows(
                    crate::frame::machine::ended(outcome),
                    final(self)@,
                    *pause,
                ),
    {
        match pause {
            Pause::Answered(_) => self.spend_pending_fuel(),
            Pause::Raised(_) => self.spend_pending_fuel(),
            _ => {},
        }
    }

    /// Runs on for at most so many instructions. A run that ends hands over
    /// the fuel it had charged and not yet spent.
    pub fn execute(&mut self, steps: u64) -> (pause: Pause)
        requires
            old(self).wf(),
        ensures
            final(self).wf(),
            final(self).of() == old(self).of(),
            final(self).held_outside() == old(self).held_outside(),
            final(self).waited() == old(self).waited(),
            final(self).keeps_collecting(*old(self)),
            shows(
                crate::frame::machine::ended(
                    crate::frame::machine::run_for(old(self).of(), old(self)@, steps as nat),
                ),
                final(self)@,
                pause,
            ),
    {
        let mut left: u64 = steps;
        let ghost program = self.of();
        let ghost whole = crate::frame::machine::run_for(program, self@, steps as nat);
        while left > 0
            invariant
                self.wf(),
                program == self.of(),
                program == old(self).of(),
                self.held_outside() == old(self).held_outside(),
                self.waited() == old(self).waited(),
                self.keeps_collecting(*old(self)),
                left <= steps,
                crate::frame::machine::run_for(program, self@, left as nat) == whole,
                whole == crate::frame::machine::run_for(
                    old(self).of(),
                    old(self)@,
                    steps as nat,
                ),
            decreases left,
        {
            let pause = self.step();
            match pause {
                Pause::Yielded => {},
                other => {
                    self.settle(&other);
                    return other;
                },
            }
            left = left - 1;
        }
        Pause::Yielded
    }

    /// Begins a run: clears the stack, opens the entry's frame, takes a
    /// safepoint and charges the first block.
    fn begin(&mut self, entry: FunctionId) -> (pause: Pause)
        requires
            old(self).wf(),
            old(self).of().has_function(entry),
        ensures
            final(self).wf(),
            final(self).of() == old(self).of(),
            final(self).held_outside() == old(self).held_outside(),
            final(self).waited() == old(self).waited(),
            final(self).keeps_collecting(*old(self)),
            shows(
                crate::frame::machine::begun(old(self).of(), old(self)@, entry),
                final(self)@,
                pause,
            ),
    {
        let program = self.program;
        let function = program.function(entry);
        proof {
            assert(crate::frame::validity::well_named(*program, program.functions@[entry.0 as int]));
        }
        self.cut(0);
        let ghost cut = *self;
        self.boundary = Vec::new();
        self.fuel = 0;
        self.pc = 0;
        self.pending = Pending::Nothing;
        let mut frames: Vec<Call> = Vec::new();
        frames.push(Call { function: entry, return_pc: 0, base: 0 });
        self.frames = frames;
        proof {
            assert(self.flags() =~= cut.flags());
            assert(self.roots() =~= cut.roots());
            assert(self.words@ =~= Seq::<u64>::empty());
            assert(self.flags() =~= Seq::<bool>::empty());
            assert(crate::value::data(self.boundary@) =~= Seq::empty());
            assert(self.frames@ =~= seq![Call { function: entry, return_pc: 0, base: 0 }]);
        }
        if function.code.len() == 0 || !self.fits_frame(function, 0) {
            return Pause::Stuck;
        }
        self.open(entry, 0);
        if let Err(error) = self.safepoint(function.span) {
            return Pause::Raised(error);
        }
        match self.charge(function.block_fuel[0], function.span_at(0)) {
            Err(error) => Pause::Raised(error),
            Ok(_) => Pause::Yielded,
        }
    }

    /// Runs a function that takes no arguments, for at most so many
    /// instructions.
    fn run(&mut self, entry: FunctionId, steps: u64) -> (pause: Pause)
        requires
            old(self).wf(),
            old(self).of().has_function(entry),
        ensures
            final(self).wf(),
            final(self).of() == old(self).of(),
            final(self).held_outside() == old(self).held_outside(),
            final(self).waited() == old(self).waited(),
            final(self).keeps_collecting(*old(self)),
            shows(
                crate::frame::machine::ended(
                    crate::frame::machine::started(
                        old(self).of(),
                        old(self)@,
                        entry,
                        steps as nat,
                    ),
                ),
                final(self)@,
                pause,
            ),
    {
        let pause = self.begin(entry);
        match pause {
            Pause::Yielded => self.execute(steps),
            other => {
                self.settle(&other);
                other
            },
        }
    }

    /// Runs `module.name` if it and everything it reaches is admitted, for at
    /// most so many instructions.
    ///
    /// A run that is not admitted fails before any side effect.
    pub fn run_entry(&mut self, module: &str, name: &str, steps: u64) -> (pause: Pause)
        requires
            old(self).wf(),
        ensures
            final(self).wf(),
            final(self).of() == old(self).of(),
            final(self).held_outside() == old(self).held_outside(),
            final(self).waited() == old(self).waited(),
            final(self).keeps_collecting(*old(self)),
            crate::frame::admission::declares_nothing(old(self).of(), module@, name@) ==> shows(
                crate::frame::machine::Outcome::Raised(
                    old(self)@,
                    crate::frame::machine::refused(
                        crate::frame::admission::undeclared(module@, name@),
                    ),
                ),
                final(self)@,
                pause,
            ),
            forall|entry: FunctionId| #[trigger]
                crate::frame::admission::entry_is(old(self).of(), module@, name@, entry) ==> shows(
                    crate::frame::machine::entered(
                        old(self).of(),
                        old(self)@,
                        module@,
                        name@,
                        entry,
                        steps as nat,
                    ),
                    final(self)@,
                    pause,
                ),
    {
        let program = self.program;
        match crate::frame::admission::admits(program, module, name) {
            Err(refused) => {
                proof {
                    assert forall|entry: FunctionId| #[trigger]
                        crate::frame::admission::entry_is(
                            *program,
                            module@,
                            name@,
                            entry,
                        ) implies crate::frame::admission::refusals_from(*program, entry).len() > 0
                        && refused@ == crate::frame::admission::refusals_from(*program, entry)[0] by {
                        if !crate::frame::admission::declares_nothing(*program, module@, name@) {
                            let other = choose|other: FunctionId| #[trigger]
                                crate::frame::admission::entry_is(
                                    *program,
                                    module@,
                                    name@,
                                    other,
                                ) && crate::frame::admission::refusals_from(
                                    *program,
                                    other,
                                ).len() > 0 && refused@ == crate::frame::admission::refusals_from(
                                    *program,
                                    other,
                                )[0];
                            lemma_one_entry(*program, module@, name@, entry, other);
                        }
                    }
                    if crate::frame::admission::declares_nothing(*program, module@, name@) {
                        assert forall|entry: FunctionId| !#[trigger]
                            crate::frame::admission::entry_is(*program, module@, name@, entry) by {}
                    }
                }
                let error = RuntimeError::new(refused.show()).with_rule(
                    "A run on the 8-byte frame either finishes on it or fails before any side effect; it never falls back to another backend.".to_owned(),
                );
                match refused.span {
                    Some(span) => Pause::Raised(error.at(span)),
                    None => Pause::Raised(error),
                }
            },
            Ok(id) => {
                let entry = program.function(id);
                let count: usize = entry.params.len();
                proof {
                    assert forall|other: FunctionId| #[trigger]
                        crate::frame::admission::entry_is(
                            *program,
                            module@,
                            name@,
                            other,
                        ) implies other == id by {
                        lemma_one_entry(*program, module@, name@, id, other);
                    }
                }
                if count != 0 {
                    let mut message: String = "entry `".to_owned();
                    message.append(module);
                    message.append(".");
                    message.append(name);
                    message.append("` declares ");
                    message.append(crate::text::decimal(count as u64).as_str());
                    message.append(" parameter(s), which the 8-byte frame cannot supply");
                    return Pause::Raised(RuntimeError::new(message).at(entry.span));
                }
                self.run(id, steps)
            },
        }
    }

    /// Takes in what a host answered, and runs on for at most so many
    /// instructions.
    pub fn answer_host(&mut self, answer: Result<Value, RuntimeError>, steps: u64) -> (pause: Pause)
        requires
            old(self).wf(),
        ensures
            final(self).wf(),
            final(self).of() == old(self).of(),
            final(self).held_outside() == old(self).held_outside(),
            final(self).waited() == old(self).waited(),
            final(self).keeps_collecting(*old(self)),
            shows(
                crate::frame::machine::ended(
                    crate::frame::machine::taken_up(
                        old(self).of(),
                        crate::frame::machine::host_answered(
                            old(self).of(),
                            old(self)@,
                            crate::frame::machine::running(old(self).of(), old(self)@),
                            match answer {
                                Ok(value) => Ok(value@),
                                Err(error) => Err(error@),
                            },
                        ),
                        steps as nat,
                    ),
                ),
                final(self)@,
                pause,
            ),
    {
        if !self.waits_for(Pending::Host) {
            return Pause::Stuck;
        }
        let pause = self.take_host_answer(answer);
        match pause {
            Pause::Yielded => self.execute(steps),
            other => {
                self.settle(&other);
                other
            },
        }
    }

    /// Whether the run waits for an answer, at an instruction of the running
    /// function.
    fn waits_for(&self, pending: Pending) -> (yes: bool)
        requires
            self.wf(),
        ensures
            yes == crate::frame::machine::waits(
                self@,
                crate::frame::machine::running(self.of(), self@),
                pending,
            ),
    {
        if self.pending != pending || self.frames.len() == 0 {
            return false;
        }
        let here: FunctionId = self.frames[self.frames.len() - 1].function;
        proof {
            assert(self.program.has_function(self.frames@[self.frames@.len() - 1].function));
        }
        self.pc < self.program.function(here).code.len()
    }

    /// Takes in what a host answered.
    fn take_host_answer(&mut self, answer: Result<Value, RuntimeError>) -> (pause: Pause)
        requires
            old(self).wf(),
            old(self)@.frames.len() > 0,
            old(self)@.pc < crate::frame::machine::running(old(self).of(), old(self)@).code@.len(),
        ensures
            final(self).wf(),
            final(self).of() == old(self).of(),
            final(self).held_outside() == old(self).held_outside(),
            final(self).waited() == old(self).waited(),
            final(self).keeps_collecting(*old(self)),
            shows(
                crate::frame::machine::host_taken(
                    old(self).of(),
                    old(self)@,
                    crate::frame::machine::running(old(self).of(), old(self)@),
                    match answer {
                        Ok(value) => Ok(value@),
                        Err(error) => Err(error@),
                    },
                ),
                final(self)@,
                pause,
            ),
    {
        let program = self.program;
        let here: FunctionId = self.frames[self.frames.len() - 1].function;
        proof {
            assert(self.program.has_function(self.frames@[self.frames@.len() - 1].function));
            assert(crate::frame::validity::well_named(*program, program.functions@[here.0 as int]));
            assert(self.tables.hosts_ok(*program, here.0 as int));
        }
        let function = program.function(here);
        let inst: Inst = function.code[self.pc];
        proof {
            assert(crate::ir::names_what_exists(*program, function.code@[self.pc as int]));
            assert(self.tables.host_ok(*program, function.code@[self.pc as int]));
        }
        match inst {
            Inst::CallHost { module, op, argc: _ } => {
                let span = function.span_at(self.pc);
                self.await_answer(Pending::Nothing);
                match answer {
                    Err(error) => Pause::Raised(error.at(span)),
                    Ok(value) => {
                        let declared = crate::frame::kinds::host_operation_result(
                            program,
                            program.const_name(module),
                            program.const_name(op),
                        );
                        match declared {
                            Some(ty) => match crate::frame::kinds::host_part(ty) {
                                Some(part) => self.take_word_answer(&value, ty, part),
                                None => self.keep_answer(value),
                            },
                            None => self.keep_answer(value),
                        }
                    },
                }
            },
            _ => Pause::Stuck,
        }
    }

    /// Takes in an answer that is a word.
    fn take_word_answer(&mut self, value: &Value, ty: &HostType, part: Part) -> (pause: Pause)
        requires
            old(self).wf(),
            old(self).tables.type_ok(*ty),
            crate::frame::kinds::host_word(*ty) == Some(part),
            old(self)@.pc < usize::MAX,
        ensures
            final(self).wf(),
            final(self).of() == old(self).of(),
            final(self).held_outside() == old(self).held_outside(),
            final(self).waited() == old(self).waited(),
            final(self).keeps_collecting(*old(self)),
            match crate::frame::machine::worded(old(self)@, value@, *ty) {
                Some(pair) => pause is Yielded && final(self)@ == pair.1.push(
                    pair.0,
                    part == Part::Nested,
                ).advanced(),
                None => pause is Stuck,
            },
    {
        proof {
            lemma_words_keep_the_pc(self@, value@, *ty);
        }
        match self.host_value_to_word(value, ty) {
            None => Pause::Stuck,
            Some(word) => {
                let nested: bool = part == Part::Nested;
                let ghost extra: Set<u64> = if nested {
                    set![word]
                } else {
                    Set::empty()
                };
                proof {
                    if nested {
                        self.lemma_root_reached(extra, word);
                    }
                }
                self.push_word(word, nested, Ghost(extra));
                self.advance()
            },
        }
    }

    /// Keeps an answer that is no word.
    fn keep_answer(&mut self, value: Value) -> (pause: Pause)
        requires
            old(self).wf(),
            old(self)@.pc < usize::MAX,
        ensures
            final(self).wf(),
            final(self).of() == old(self).of(),
            final(self).held_outside() == old(self).held_outside(),
            final(self).waited() == old(self).waited(),
            final(self).keeps_collecting(*old(self)),
            shows(
                crate::frame::machine::answer_kept(old(self)@, value@),
                final(self)@,
                pause,
            ),
    {
        self.count_materialized(1);
        self.keep_value(value);
        self.advance()
    }

    /// Takes in what a builtin answered, and runs on for at most so many
    /// instructions. An assertion that failed is remembered.
    pub fn answer_builtin(
        &mut self,
        answer: Result<Value, RuntimeError>,
        assertion: bool,
        steps: u64,
    ) -> (pause: Pause)
        requires
            old(self).wf(),
        ensures
            final(self).wf(),
            final(self).of() == old(self).of(),
            final(self).held_outside() == old(self).held_outside(),
            final(self).waited() == old(self).waited(),
            final(self).keeps_collecting(*old(self)),
            shows(
                crate::frame::machine::ended(
                    crate::frame::machine::taken_up(
                        old(self).of(),
                        crate::frame::machine::builtin_answered(
                            old(self)@,
                            crate::frame::machine::running(old(self).of(), old(self)@),
                            match answer {
                                Ok(value) => Ok(value@),
                                Err(error) => Err(error@),
                            },
                            assertion,
                        ),
                        steps as nat,
                    ),
                ),
                final(self)@,
                pause,
            ),
    {
        if !self.waits_for(Pending::Builtin) {
            return Pause::Stuck;
        }
        let program = self.program;
        let here: FunctionId = self.frames[self.frames.len() - 1].function;
        proof {
            assert(self.program.has_function(self.frames@[self.frames@.len() - 1].function));
        }
        let function = program.function(here);
        self.await_answer(Pending::Nothing);
        let ghost resumed = self@;
        let pause = match answer {
            Err(error) => Pause::Raised(error),
            Ok(value) => {
                if assertion {
                    if let Some(text) = failure_text(&value) {
                        let ghost before = *self;
                        self.assertion_failure = Some((function.span_at(self.pc), text));
                        proof {
                            assert(self.flags() =~= before.flags());
                            assert(self.roots() =~= before.roots());
                        }
                    }
                }
                self.keep_value(value);
                self.advance()
            },
        };
        match pause {
            Pause::Yielded => self.execute(steps),
            other => {
                self.settle(&other);
                other
            },
        }
    }
}

/// What an assertion that failed says.
pub(crate) fn failure_text(value: &Value) -> (text: Option<String>)
    ensures
        match text {
            Some(t) => crate::frame::machine::failed_assertion(value@) == Some(t@),
            None => crate::frame::machine::failed_assertion(value@) is None,
        },
{
    match value {
        Value::Enum { kind_name, case, payload } => {
            proof {
                lemma_enum_view(*value);
            }
            if crate::text::same(kind_name.as_str(), "Result") && crate::text::same(
                case.as_str(),
                "Err",
            ) && payload.len() > 0 {
                Some(payload[0].show())
            } else {
                None
            }
        },
        _ => None,
    }
}

/// Making words of an answer moves nothing else.
proof fn lemma_words_keep_the_pc(m: Machine, value: crate::value::Datum, ty: HostType)
    ensures
        crate::frame::machine::worded(m, value, ty) matches Some(pair) ==> pair.1.pc == m.pc,
    decreases ty,
{
    match ty {
        HostType::Option(inner) => {
            if let crate::value::Datum::Enum(_, _, payload) = value {
                lemma_words_keep_the_pc(m, crate::frame::machine::first_of(payload), *inner);
            }
        },
        HostType::Result(ok, err) => {
            if let crate::value::Datum::Enum(_, _, payload) = value {
                lemma_words_keep_the_pc(m, crate::frame::machine::first_of(payload), *ok);
                lemma_words_keep_the_pc(m, crate::frame::machine::first_of(payload), *err);
            }
        },
        _ => {},
    }
}

/// One function is first under a name.
pub(crate) proof fn lemma_one_entry(
    program: Program,
    module: Seq<char>,
    name: Seq<char>,
    a: FunctionId,
    b: FunctionId,
)
    requires
        crate::frame::admission::entry_is(program, module, name, a),
        crate::frame::admission::entry_is(program, module, name, b),
    ensures
        a == b,
{
    if a.0 < b.0 {
        assert(program.declares(module, name, a.0 as int));
    } else if b.0 < a.0 {
        assert(program.declares(module, name, b.0 as int));
    }
}

// ------------------------------------------------------------------ tables

/// Which of some parts are handles.
fn nested_of(parts: &Vec<Part>) -> (refs: Vec<bool>)
    ensures
        refs@ == crate::frame::machine::nested(parts@),
{
    let mut refs: Vec<bool> = Vec::new();
    let mut i: usize = 0;
    while i < parts.len()
        invariant
            i <= parts@.len(),
            refs@ == crate::frame::machine::nested(parts@).take(i as int),
        decreases parts@.len() - i,
    {
        refs.push(parts[i] == Part::Nested);
        proof {
            assert(refs@ =~= crate::frame::machine::nested(parts@).take(i + 1));
        }
        i = i + 1;
    }
    proof {
        assert(refs@ =~= crate::frame::machine::nested(parts@));
    }
    refs
}

/// The same parts again.
fn copy_parts(parts: &Vec<Part>) -> (copy: Vec<Part>)
    ensures
        copy@ == parts@,
{
    let mut copy: Vec<Part> = Vec::new();
    let mut i: usize = 0;
    while i < parts.len()
        invariant
            i <= parts@.len(),
            copy@ == parts@.take(i as int),
        decreases parts@.len() - i,
    {
        copy.push(parts[i]);
        proof {
            assert(copy@ =~= parts@.take(i + 1));
        }
        i = i + 1;
    }
    proof {
        assert(copy@ =~= parts@);
    }
    copy
}

/// A heap that has layouts and no objects yet.
spec fn blank(heap: HandleHeap) -> bool {
    heap.wf() && heap@ == Map::<u64, Object>::empty() && heap.next_handle() == 1 && heap.count() == 0
}

/// A table of layouts is right over what is registered.
spec fn table_ok(table: Seq<(EnumSite, usize)>, plans: Seq<Plan>) -> bool {
    forall|k: int|
        0 <= k < table.len() ==> (#[trigger] table[k]).1 < plans.len() && plans[table[k].1 as int]
            == crate::frame::machine::site_plan(table[k].0@)
}

/// Registers a case's layout, unless the same case has one.
fn register_enum_site(
    heap: &mut HandleHeap,
    table: &mut Vec<(EnumSite, usize)>,
    site: &EnumSite,
) -> (id: usize)
    requires
        blank(*old(heap)),
        table_ok(old(table)@, old(heap).plans()),
    ensures
        blank(*final(heap)),
        old(heap).plans().is_prefix_of(final(heap).plans()),
        table_ok(final(table)@, final(heap).plans()),
        old(table)@.is_prefix_of(final(table)@),
        id < final(heap).plans().len(),
        final(heap).plans()[id as int] == crate::frame::machine::site_plan(site@),
        registered(final(table)@, site@),
{
    let mut k: usize = 0;
    while k < table.len()
        invariant
            *heap == *old(heap),
            table@ == old(table)@,
            blank(*heap),
            table_ok(table@, heap.plans()),
            k <= table@.len(),
        decreases table@.len() - k,
    {
        let entry = &table[k];
        if crate::text::same(entry.0.kind_name.as_str(), site.kind_name.as_str())
            && crate::text::same(entry.0.case.as_str(), site.case.as_str()) && same_parts(
            &entry.0.payload,
            &site.payload,
        ) {
            proof {
                assert(table@[k as int].0@ == site@);
            }
            return entry.1;
        }
        k = k + 1;
    }
    let ghost plans = heap.plans();
    let ghost before = table@;
    let shape = match crate::frame::layout::static_case_name(
        site.kind_name.as_str(),
        site.case.as_str(),
    ) {
        Some(_) => crate::slot::Shape::Enum {
            kind_name: site.kind_name.clone(),
            case: site.case.clone(),
            payload: copy_parts(&site.payload),
        },
        None => crate::slot::Shape::Opaque,
    };
    let layout = crate::slot::Layout {
        name: crate::text::joined(site.kind_name.as_str(), ".", site.case.as_str()),
        refs: nested_of(&site.payload),
        shape,
        case: Some((site.kind_name.clone(), site.case.clone())),
    };
    proof {
        assert(layout@ == crate::frame::machine::site_plan(site@));
    }
    let id: usize = heap.register(layout);
    table.push(
        (
            EnumSite {
                kind_name: site.kind_name.clone(),
                case: site.case.clone(),
                payload: copy_parts(&site.payload),
            },
            id,
        ),
    );
    proof {
        assert(table@[before.len() as int].0@ == site@);
        assert forall|j: int| 0 <= j < table@.len() implies (#[trigger] table@[j]).1
            < heap.plans().len() && heap.plans()[table@[j].1 as int]
            == crate::frame::machine::site_plan(table@[j].0@) by {
            if j < before.len() {
                assert(table@[j] == before[j]);
            }
        }
        assert(plans.is_prefix_of(heap.plans()));
        assert(before.is_prefix_of(table@));
    }
    id
}

/// Registers the layout of every declared struct.
fn register_structs(heap: &mut HandleHeap, program: &Program) -> (shapes: Vec<usize>)
    requires
        blank(*old(heap)),
        crate::frame::layout::keeps_no_place(*program),
    ensures
        blank(*final(heap)),
        shapes@.len() == program.structs@.len(),
        forall|i: int|
            0 <= i < shapes@.len() ==> (#[trigger] shapes@[i]) < final(heap).plans().len()
                && final(heap).plans()[shapes@[i] as int] == crate::frame::machine::struct_plan(
                program.structs@[i],
            ),
{
    let parts = crate::frame::layout::struct_parts(program);
    let mut shapes: Vec<usize> = Vec::new();
    let mut i: usize = 0;
    while i < program.structs.len()
        invariant
            blank(*heap),
            parts@.len() == program.structs@.len(),
            forall|j: int|
                0 <= j < parts@.len() ==> (#[trigger] parts@[j])@
                    == crate::frame::layout::parts_of(program.structs@[j]),
            i <= program.structs@.len(),
            shapes@.len() == i,
            forall|j: int|
                0 <= j < shapes@.len() ==> (#[trigger] shapes@[j]) < heap.plans().len()
                    && heap.plans()[shapes@[j] as int] == crate::frame::machine::struct_plan(
                    program.structs@[j],
                ),
        decreases program.structs@.len() - i,
    {
        let layout = crate::slot::Layout {
            name: program.structs[i].name.clone(),
            refs: nested_of(&parts[i]),
            shape: crate::slot::Shape::Opaque,
            case: None,
        };
        proof {
            assert(layout@ == crate::frame::machine::struct_plan(program.structs@[i as int]));
        }
        let id: usize = heap.register(layout);
        shapes.push(id);
        i = i + 1;
    }
    shapes
}

/// Registers what every instruction of one function builds, and every case a
/// Host call of it may answer.
fn register_function(
    heap: &mut HandleHeap,
    table: &mut Vec<(EnumSite, usize)>,
    program: &Program,
    function: &Function,
    operands: &Operands,
) -> (sites: Vec<Option<usize>>)
    requires
        blank(*old(heap)),
        table_ok(old(table)@, old(heap).plans()),
        crate::frame::layout::keeps_no_place(*program),
        crate::frame::validity::well_named(*program, *function),
        operands@ == crate::frame::operands::operands_of(*program, *function),
    ensures
        blank(*final(heap)),
        old(heap).plans().is_prefix_of(final(heap).plans()),
        table_ok(final(table)@, final(heap).plans()),
        old(table)@.is_prefix_of(final(table)@),
        sites@.len() == function.code@.len(),
        forall|pc: int|
            0 <= pc < sites@.len() ==> site_is(
                *program,
                *function,
                final(heap).plans(),
                pc,
                #[trigger] sites@[pc],
            ),
        forall|pc: int|
            0 <= pc < function.code@.len() ==> call_is_known(
                final(table)@,
                *program,
                #[trigger] function.code@[pc],
            ),
{
    let mut sites: Vec<Option<usize>> = Vec::new();
    let mut pc: usize = 0;
    while pc < function.code.len()
        invariant
            blank(*heap),
            old(heap).plans().is_prefix_of(heap.plans()),
            table_ok(table@, heap.plans()),
            old(table)@.is_prefix_of(table@),
            crate::frame::layout::keeps_no_place(*program),
            crate::frame::validity::well_named(*program, *function),
            operands@ == crate::frame::operands::operands_of(*program, *function),
            pc <= function.code@.len(),
            sites@.len() == pc,
            forall|q: int|
                0 <= q < pc ==> site_is(
                    *program,
                    *function,
                    heap.plans(),
                    q,
                    #[trigger] sites@[q],
                ),
            forall|q: int|
                0 <= q < pc ==> call_is_known(table@, *program, #[trigger] function.code@[q]),
        decreases function.code@.len() - pc,
    {
        let inst: Inst = function.code[pc];
        proof {
            assert(crate::ir::names_what_exists(*program, function.code@[pc as int]));
        }
        let ghost plans = heap.plans();
        let ghost known = table@;
        let built = crate::frame::layout::enum_construction(program, operands, pc, inst);
        let site: Option<usize> = match &built {
            Some(site) => Some(register_enum_site(heap, table, site)),
            None => None,
        };
        let ghost middle = heap.plans();
        let ghost fewer = table@;
        if let Inst::CallHost { module, op, argc: _ } = inst {
            let answers = crate::frame::layout::host_result_layouts(
                program,
                program.const_name(module),
                program.const_name(op),
            );
            if let Some(list) = &answers {
                register_all(heap, table, list);
            }
        }
        sites.push(site);
        proof {
            assert(plans.is_prefix_of(heap.plans()));
            assert(known.is_prefix_of(table@));
            assert forall|q: int| 0 <= q < pc + 1 implies site_is(
                *program,
                *function,
                heap.plans(),
                q,
                #[trigger] sites@[q],
            ) by {
                if q < pc {
                    assert(site_is(*program, *function, plans, q, sites@[q]));
                }
            }
            assert forall|q: int| 0 <= q < pc + 1 implies call_is_known(
                table@,
                *program,
                #[trigger] function.code@[q],
            ) by {
                if q < pc {
                    assert(call_is_known(known, *program, function.code@[q]));
                    lemma_known_stays(known, table@, *program, function.code@[q]);
                }
            }
        }
        pc = pc + 1;
    }
    sites
}

/// The layout recorded for an instruction is that of what it builds.
spec fn site_is(
    program: Program,
    function: Function,
    plans: Seq<Plan>,
    pc: int,
    layout: Option<usize>,
) -> bool {
    let built = crate::frame::layout::construction(
        program,
        crate::frame::operands::operands_of(program, function),
        pc,
        function.code@[pc],
    );
    match layout {
        Some(id) => id < plans.len() && (built matches Some(site) && plans[id as int]
            == crate::frame::machine::site_plan(site)),
        None => built is None,
    }
}

/// Every case a Host call may answer is registered.
spec fn call_is_known(table: Seq<(EnumSite, usize)>, program: Program, inst: Inst) -> bool {
    match inst {
        Inst::CallHost { module, op, argc: _ } => match crate::frame::kinds::host_answer(
            program,
            program.name_text(module),
            program.name_text(op),
        ) {
            Some(ty) => crate::frame::kinds::host_word(ty) is Some ==> forall|k: int|
                0 <= k < crate::frame::layout::host_sites(ty).len() ==> registered(
                    table,
                    #[trigger] crate::frame::layout::host_sites(ty)[k],
                ),
            None => true,
        },
        _ => true,
    }
}

proof fn lemma_registered_stays(
    table: Seq<(EnumSite, usize)>,
    more: Seq<(EnumSite, usize)>,
    site: crate::frame::layout::Site,
)
    requires
        table.is_prefix_of(more),
        registered(table, site),
    ensures
        registered(more, site),
{
    let k = choose|k: int| 0 <= k < table.len() && (#[trigger] table[k]).0@ == site;
    assert(more[k].0@ == site);
}

proof fn lemma_known_stays(
    table: Seq<(EnumSite, usize)>,
    more: Seq<(EnumSite, usize)>,
    program: Program,
    inst: Inst,
)
    requires
        table.is_prefix_of(more),
        call_is_known(table, program, inst),
    ensures
        call_is_known(more, program, inst),
{
    if let Inst::CallHost { module, op, argc: _ } = inst {
        if let Some(ty) = crate::frame::kinds::host_answer(
            program,
            program.name_text(module),
            program.name_text(op),
        ) {
            if crate::frame::kinds::host_word(ty) is Some {
                assert forall|k: int|
                    0 <= k < crate::frame::layout::host_sites(ty).len() implies registered(
                    more,
                    #[trigger] crate::frame::layout::host_sites(ty)[k],
                ) by {
                    lemma_registered_stays(
                        table,
                        more,
                        crate::frame::layout::host_sites(ty)[k],
                    );
                }
            }
        }
    }
}

/// Registers every case of a list.
fn register_all(heap: &mut HandleHeap, table: &mut Vec<(EnumSite, usize)>, list: &Vec<EnumSite>)
    requires
        blank(*old(heap)),
        table_ok(old(table)@, old(heap).plans()),
    ensures
        blank(*final(heap)),
        old(heap).plans().is_prefix_of(final(heap).plans()),
        table_ok(final(table)@, final(heap).plans()),
        old(table)@.is_prefix_of(final(table)@),
        forall|k: int|
            0 <= k < list@.len() ==> registered(
                final(table)@,
                #[trigger] crate::frame::layout::sites_of(list@)[k],
            ),
{
    let mut i: usize = 0;
    while i < list.len()
        invariant
            blank(*heap),
            old(heap).plans().is_prefix_of(heap.plans()),
            table_ok(table@, heap.plans()),
            old(table)@.is_prefix_of(table@),
            i <= list@.len(),
            forall|k: int|
                0 <= k < i ==> registered(
                    table@,
                    #[trigger] crate::frame::layout::sites_of(list@)[k],
                ),
        decreases list@.len() - i,
    {
        let ghost known = table@;
        let _id: usize = register_enum_site(heap, table, &list[i]);
        proof {
            assert forall|k: int| 0 <= k < i + 1 implies registered(
                table@,
                #[trigger] crate::frame::layout::sites_of(list@)[k],
            ) by {
                if k < i {
                    lemma_registered_stays(
                        known,
                        table@,
                        crate::frame::layout::sites_of(list@)[k],
                    );
                }
            }
        }
        i = i + 1;
    }
}

/// The handle of a text constant is one more than how many come before it.
proof fn lemma_const_handle(constants: Seq<Const>, id: int)
    requires
        0 <= id <= constants.len(),
    ensures
        1 <= crate::frame::machine::const_handle(constants, id) <= id + 1,
    decreases id,
{
    if id > 0 {
        lemma_const_handle(constants, id - 1);
    }
}

/// No object of the text constants has a handle past the last of them.
proof fn lemma_text_objects(constants: Seq<Const>, count: int)
    requires
        0 <= count <= constants.len(),
        constants.len() <= u32::MAX,
    ensures
        forall|s: u64| #[trigger]
            crate::frame::machine::text_objects(constants, count).dom().contains(s) ==> 1 <= s
                < crate::frame::machine::const_handle(constants, count),
    decreases count,
{
    if count > 0 {
        lemma_text_objects(constants, count - 1);
        lemma_const_handle(constants, count - 1);
        let fewer = crate::frame::machine::text_objects(constants, count - 1);
        let objects = crate::frame::machine::text_objects(constants, count);
        assert forall|s: u64| #[trigger] objects.dom().contains(s) implies 1 <= s
            < crate::frame::machine::const_handle(constants, count) by {
            if !fewer.dom().contains(s) {
                assert(constants[count - 1] is Str);
            }
        }
    }
}

/// What stands in a prefix stands in the whole.
proof fn lemma_prefix(a: Seq<Plan>, b: Seq<Plan>)
    requires
        a.is_prefix_of(b),
    ensures
        a.len() <= b.len(),
        forall|i: int| 0 <= i < a.len() ==> #[trigger] a[i] == b[i],
{
    assert forall|i: int| 0 <= i < a.len() implies #[trigger] a[i] == b[i] by {
        assert(b.subrange(0, a.len() as int)[i] == b[i]);
    }
}

impl<'a> FrameVm<'a> {
    /// A backend for a program: what the program says worked out, and its text
    /// constants made.
    pub fn new(program: &'a Program, budget: Option<Budget>) -> (vm: FrameVm<'a>)
        requires
            crate::frame::validity::valid(*program),
            program.constants@.len() <= u32::MAX,
        ensures
            vm.wf(),
            vm.of() == *program,
            vm@ == crate::frame::machine::initial(*program, budget),
            vm.held_outside() == 0,
            vm.waited() == 0,
            vm.collected() == (0u64, 0u64, 0u64),
            !vm.collects_always(),
    {
        let mut heap = HandleHeap::new();
        proof {
            assert forall|f: int, pc: int|
                0 <= f < program.functions@.len() && 0 <= pc
                    < program.functions@[f].code@.len() implies crate::ir::names_what_exists(
                *program,
                #[trigger] program.functions@[f].code@[pc],
            ) by {
                assert(crate::frame::validity::well_named(*program, program.functions@[f]));
            }
        }
        let field_at = crate::frame::layout::field_positions(program);
        let shapes = register_structs(&mut heap, program);
        let ghost after_structs = heap.plans();
        let no_refs: Vec<bool> = Vec::new();
        let text_layout = crate::slot::Layout {
            name: "String".to_owned(),
            refs: no_refs,
            shape: crate::slot::Shape::Str,
            case: None,
        };
        proof {
            assert(text_layout.refs@ =~= Seq::<bool>::empty());
            assert(text_layout@ == crate::frame::machine::text_plan());
        }
        let str_layout: usize = heap.register(text_layout);
        let mut one_ref: Vec<bool> = Vec::new();
        one_ref.push(true);
        let mut fields: Vec<(String, Part)> = Vec::new();
        fields.push(("message".to_owned(), Part::Nested));
        let error_shape = crate::slot::Layout {
            name: "Error".to_owned(),
            refs: one_ref,
            shape: crate::slot::Shape::Struct { kind_name: "Error".to_owned(), fields },
            case: None,
        };
        proof {
            assert(error_shape.refs@ =~= seq![true]);
            assert(Seq::new(fields@.len(), |i: int| (fields@[i].0@, fields@[i].1)) =~= seq![
                ("message"@, Part::Nested),
            ]);
            assert(error_shape@ == crate::frame::machine::error_plan());
        }
        let error_layout: usize = heap.register(error_shape);
        let ghost start = heap.plans();
        let mut table: Vec<(EnumSite, usize)> = Vec::new();
        let mut enum_site_layout: Vec<Vec<Option<usize>>> = Vec::new();
        let mut operands: Vec<Operands> = Vec::new();
        let mut maps: Vec<FrameMap> = Vec::new();
        let mut f: usize = 0;
        while f < program.functions.len()
            invariant
                crate::frame::validity::valid(*program),
                blank(heap),
                start.is_prefix_of(heap.plans()),
                table_ok(table@, heap.plans()),
                f <= program.functions@.len(),
                enum_site_layout@.len() == f,
                operands@.len() == f,
                maps@.len() == f,
                forall|g: int|
                    0 <= g < f ==> maps_function(#[trigger] maps@[g], program.functions@[g]),
                forall|g: int|
                    0 <= g < f ==> (#[trigger] operands@[g])@
                        == crate::frame::operands::operands_of(*program, program.functions@[g]),
                forall|g: int|
                    0 <= g < f ==> (#[trigger] enum_site_layout@[g])@.len()
                        == program.functions@[g].code@.len(),
                forall|g: int, pc: int|
                    0 <= g < f && 0 <= pc < program.functions@[g].code@.len() ==> site_is(
                        *program,
                        program.functions@[g],
                        heap.plans(),
                        pc,
                        #[trigger] enum_site_layout@[g]@[pc],
                    ),
                forall|g: int, pc: int|
                    0 <= g < f && 0 <= pc < program.functions@[g].code@.len() ==> call_is_known(
                        table@,
                        *program,
                        #[trigger] program.functions@[g].code@[pc],
                    ),
            decreases program.functions@.len() - f,
        {
            let function = &program.functions[f];
            proof {
                assert(crate::frame::validity::well_named(*program, program.functions@[f as int]));
                assert(crate::frame::operands::levelled(*program, program.functions@[f as int]));
            }
            let ghost plans = heap.plans();
            let ghost known = table@;
            let standing = crate::frame::operands::simulate(program, function);
            let sites = register_function(&mut heap, &mut table, program, function, &standing);
            maps.push(FrameMap::of(function));
            operands.push(standing);
            let ghost earlier = enum_site_layout@;
            enum_site_layout.push(sites);
            proof {
                assert forall|g: int, pc: int|
                    0 <= g < f + 1 && 0 <= pc < program.functions@[g].code@.len() implies site_is(
                    *program,
                    program.functions@[g],
                    heap.plans(),
                    pc,
                    #[trigger] enum_site_layout@[g]@[pc],
                ) by {
                    if g < f {
                        assert(enum_site_layout@[g] == earlier[g]);
                        assert(site_is(
                            *program,
                            program.functions@[g],
                            plans,
                            pc,
                            earlier[g]@[pc],
                        ));
                    }
                }
                assert forall|g: int, pc: int|
                    0 <= g < f + 1 && 0 <= pc
                        < program.functions@[g].code@.len() implies call_is_known(
                    table@,
                    *program,
                    #[trigger] program.functions@[g].code@[pc],
                ) by {
                    if g < f {
                        lemma_known_stays(
                            known,
                            table@,
                            *program,
                            program.functions@[g].code@[pc],
                        );
                    }
                }
            }
            f = f + 1;
        }
        let ghost plans = heap.plans();
        proof {
            lemma_prefix(start, plans);
            assert(start[str_layout as int] == plans[str_layout as int]);
            assert(start[error_layout as int] == plans[error_layout as int]);
        }
        let mut constants: Vec<u64> = Vec::new();
        let mut string_constants: Vec<u64> = Vec::new();
        let mut i: usize = 0;
        while i < program.constants.len()
            invariant
                heap.wf(),
                heap.plans() == plans,
                str_layout < plans.len(),
                plans[str_layout as int] == crate::frame::machine::text_plan(),
                program.constants@.len() <= u32::MAX,
                i <= program.constants@.len(),
                constants@.len() == i,
                heap.next_handle() == crate::frame::machine::const_handle(
                    program.constants@,
                    i as int,
                ),
                heap@ == crate::frame::machine::text_objects(program.constants@, i as int),
                heap.count() == string_constants@.len(),
                forall|j: int|
                    0 <= j < i ==> #[trigger] constants@[j] == crate::frame::machine::constant(
                        *program,
                        crate::ir::ConstId(j as u32),
                    ),
                forall|j: int|
                    0 <= j < i && #[trigger] program.constants@[j] is Str
                        ==> string_constants@.contains(
                        crate::frame::machine::constant(*program, crate::ir::ConstId(j as u32)),
                    ),
                forall|k: int|
                    0 <= k < string_constants@.len() ==> 1 <= (#[trigger] string_constants@[k])
                        < heap.next_handle(),
            decreases program.constants@.len() - i,
        {
            proof {
                lemma_const_handle(program.constants@, i as int);
                assert(crate::ir::ConstId(i as int as u32).0 == i);
            }
            let ghost strings = string_constants@;
            match &program.constants[i] {
                Const::Str(text) => {
                    let words = crate::frame::packing::pack_string_words(
                        text.as_str().as_bytes(),
                    );
                    match heap.allocate(str_layout, words) {
                        Some(handle) => {
                            string_constants.push(handle);
                            constants.push(handle);
                            proof {
                                assert(string_constants@[strings.len() as int] == handle);
                            }
                        },
                        None => {
                            constants.push(0);
                        },
                    }
                },
                other => {
                    constants.push(crate::frame::layout::const_word(other));
                },
            }
            proof {
                assert forall|j: int|
                    0 <= j < i + 1
                        && #[trigger] program.constants@[j] is Str implies string_constants@.contains(
                    crate::frame::machine::constant(*program, crate::ir::ConstId(j as u32)),
                ) by {
                    let word = crate::frame::machine::constant(
                        *program,
                        crate::ir::ConstId(j as u32),
                    );
                    if j < i {
                        let k = choose|k: int| 0 <= k < strings.len() && strings[k] == word;
                        assert(string_constants@[k] == word);
                    } else {
                        assert(string_constants@[strings.len() as int] == word);
                    }
                }
            }
            i = i + 1;
        }
        let tables = Tables {
            shapes,
            str_layout,
            error_layout,
            enum_layouts: table,
            enum_site_layout,
            field_at,
            maps,
            operands,
            constants,
            string_constants,
        };
        proof {
            assert forall|g: int| 0 <= g < program.functions@.len() implies tables.sites_ok(
                *program,
                heap.plans(),
                g,
            ) by {
                assert forall|pc: int|
                    0 <= pc < tables.enum_site_layout@[g]@.len() implies site_is(
                    *program,
                    program.functions@[g],
                    heap.plans(),
                    pc,
                    #[trigger] tables.enum_site_layout@[g]@[pc],
                ) by {}
            }
            assert forall|g: int| 0 <= g < program.functions@.len() implies tables.hosts_ok(
                *program,
                g,
            ) by {
                assert forall|pc: int|
                    0 <= pc < program.functions@[g].code@.len() implies tables.host_ok(
                    *program,
                    #[trigger] program.functions@[g].code@[pc],
                ) by {
                    assert(call_is_known(table@, *program, program.functions@[g].code@[pc]));
                }
            }
            assert forall|k: int| 0 <= k < tables.shapes@.len() implies (
            #[trigger] tables.shapes@[k]) < plans.len() && plans[tables.shapes@[k] as int]
                == crate::frame::machine::struct_plan(program.structs@[k]) by {
                assert(after_structs[shapes@[k] as int] == start[shapes@[k] as int]);
                assert(start[shapes@[k] as int] == plans[shapes@[k] as int]);
            }
            assert(tables.ok(*program, heap.plans()));
        }
        let ghost objects = heap@;
        let vm = FrameVm {
            program,
            tables,
            words: Vec::new(),
            refs: Bitmap::with_limbs(0),
            heap,
            temps: Vec::new(),
            due: false,
            frames: Vec::new(),
            pc: 0,
            boundary: Vec::new(),
            pending: Pending::Nothing,
            materialized: 0,
            heap_stats: HeapStats {
                allocated_objects: 0,
                allocated_bytes: 0,
                collections: 0,
                freed_objects: 0,
                live_objects: 0,
                live_bytes: 0,
                peak_bytes: 0,
                pause: 0,
            },
            roots_yielded: 0,
            expansions: 0,
            marked: 0,
            most_roots_at_once: 0,
            most_expansions_at_once: 0,
            fuel: 0,
            instructions: 0,
            budget,
            assertion_failure: None,
            high_water: 0,
            wait: 0,
            safepoints: Ghost(0),
            sweeps: Ghost(Seq::empty()),
            all: Ghost(objects),
        };
        proof {
            lemma_text_objects(program.constants@, program.constants@.len() as int);
            assert(vm.flags() =~= Seq::<bool>::empty());
            assert(vm.words@ =~= Seq::<u64>::empty());
            assert(vm.frames@ =~= Seq::<Call>::empty());
            assert(crate::value::data(vm.boundary@) =~= Seq::empty());
            assert(vm.sound());
            assert(crate::slot::covers(vm.all@, vm.heap@, vm.roots().union(Set::empty())));
        }
        vm
    }

    /// How many instructions have been charged.
    pub fn instructions(&self) -> (count: u64)
        ensures
            count == self@.instructions,
    {
        self.instructions
    }

    /// How many values have been made of words, or taken for one.
    pub fn materialized(&self) -> (count: u64)
        ensures
            count == self@.materialized,
    {
        self.materialized
    }

    /// The deepest the one stack has grown, in words.
    pub fn high_water_words(&self) -> (count: usize)
        ensures
            count == self@.high_water,
    {
        self.high_water
    }

    /// What the run did with its heap.
    pub fn heap_stats(&self) -> (stats: HeapStats)
        ensures
            stats == self.stats(),
            stats.allocated_objects == self@.allocated_objects,
            stats.allocated_bytes == self@.allocated_bytes,
    {
        self.heap_stats
    }

    /// What the run did with its heap.
    pub closed spec fn stats(self) -> HeapStats {
        self.heap_stats
    }

    /// The assertion that failed last, and what it said.
    pub fn assertion_failure(&self) -> (failure: Option<(Span, &str)>)
        ensures
            match failure {
                Some(pair) => self@.assertion_failure == Some((pair.0, pair.1@)),
                None => self@.assertion_failure is None,
            },
    {
        match &self.assertion_failure {
            Some(pair) => Some((pair.0, pair.1.as_str())),
            None => None,
        }
    }

    /// What the run has spent.
    pub fn budget(&self) -> (budget: Option<Budget>)
        ensures
            budget == self@.budget,
    {
        self.budget
    }

    /// How long the run has waited for hosts, in nanoseconds.
    pub closed spec fn waited(self) -> u64 {
        self.wait
    }

    /// How long the run has waited for hosts, in nanoseconds.
    pub fn wait(&self) -> (nanoseconds: u64)
        ensures
            nanoseconds == self.waited(),
    {
        self.wait
    }

    /// Adds to how long the run has waited for hosts.
    pub fn charge_wait(&mut self, nanoseconds: u64)
        requires
            old(self).wf(),
        ensures
            final(self).wf(),
            final(self).of() == old(self).of(),
            final(self).held_outside() == old(self).held_outside(),
            final(self).keeps_collecting(*old(self)),
            final(self)@ == old(self)@,
            final(self).waited() == crate::budget::tallied(
                old(self).waited() as int,
                nanoseconds as int,
            ),
    {
        self.wait = tally(self.wait, nanoseconds);
        proof {
            assert(self.flags() =~= old(self).flags());
            assert(self.roots() =~= old(self).roots());
        }
    }

    /// Gives the run another budget to spend.
    pub fn replace_budget(&mut self, budget: Option<Budget>)
        requires
            old(self).wf(),
        ensures
            final(self).wf(),
            final(self).of() == old(self).of(),
            final(self).held_outside() == old(self).held_outside(),
            final(self).waited() == old(self).waited(),
            final(self).keeps_collecting(*old(self)),
            final(self)@ == (Machine { budget, ..old(self)@ }),
    {
        self.budget = budget;
        proof {
            assert(self.flags() =~= old(self).flags());
            assert(self.roots() =~= old(self).roots());
        }
    }

    /// Cancels the run: the next safepoint ends it. A run without a budget
    /// cannot be cancelled.
    pub fn cancel(&mut self)
        requires
            old(self).wf(),
        ensures
            final(self).wf(),
            final(self).of() == old(self).of(),
            final(self).held_outside() == old(self).held_outside(),
            final(self).waited() == old(self).waited(),
            final(self).keeps_collecting(*old(self)),
            final(self)@ == (Machine {
                budget: match old(self)@.budget {
                    Some(budget) => Some(Budget { cancelled: true, ..budget }),
                    None => None,
                },
                ..old(self)@
            }),
    {
        if let Some(found) = self.budget {
            let mut budget: Budget = found;
            budget.cancel();
            self.budget = Some(budget);
        }
        proof {
            assert(self.flags() =~= old(self).flags());
            assert(self.roots() =~= old(self).roots());
        }
    }

    /// Every opportunity to collect is to be taken, the next one included.
    pub closed spec fn collects_always(self) -> bool {
        self.heap.is_stressed() && self.due
    }

    /// There are as many collections as there were, or more; and where every
    /// opportunity is to be taken, it still is, and there was a collection at
    /// each safepoint that was passed.
    pub open spec fn keeps_collecting(self, before: Self) -> bool {
        let passed = self@.safepoints - before@.safepoints;
        &&& passed >= 0
        &&& self.collected().0 >= before.collected().0
        &&& goes_on_from(self.swept_so_far(), before.swept_so_far())
        &&& before.collects_always() ==> self.collects_always() && self.collected().0
            >= crate::budget::tallied(before.collected().0 as int, passed)
    }

    /// Collects at every opportunity from here on.
    pub fn stress(&mut self)
        requires
            old(self).wf(),
        ensures
            final(self).wf(),
            final(self).of() == old(self).of(),
            final(self).held_outside() == old(self).held_outside(),
            final(self).waited() == old(self).waited(),
            final(self).keeps_collecting(*old(self)),
            final(self)@ == old(self)@,
            final(self).collects_always(),
    {
        self.heap.stress(true);
        self.due = true;
        proof {
            assert(self.flags() =~= old(self).flags());
            assert(self.roots() =~= old(self).roots());
        }
    }

    /// How many collections there were, how many roots they walked and how
    /// many objects they expanded.
    pub fn collections(&self) -> (counts: (u64, u64, u64))
        ensures
            counts == self.collected(),
    {
        (self.heap_stats.collections, self.roots_yielded, self.expansions)
    }

    /// How many collections there were, how many roots they walked and how
    /// many objects they expanded.
    pub closed spec fn collected(self) -> (u64, u64, u64) {
        (self.heap_stats.collections, self.roots_yielded, self.expansions)
    }

    /// What each collection found and did.
    pub closed spec fn swept_so_far(self) -> Seq<Sweep> {
        self.sweeps@
    }

    /// The counts a backend gives of its collections are what those
    /// collections come to: the totals, what the last one found live, and the
    /// most there was at once.
    pub proof fn the_counts_are_what_the_collections_come_to(self)
        requires
            self.wf(),
        ensures
            ({
                let account = account_of(self.swept_so_far());
                let stats = self.stats();
                &&& self.collected() == (account.collections, account.roots, account.marked)
                &&& self.marks() == account.marked
                &&& self.peaks() == (account.most_roots, account.most_marked)
                &&& stats.collections == account.collections
                &&& stats.freed_objects == account.freed_objects
                &&& stats.live_objects == account.live_objects
                &&& stats.live_bytes == account.live_bytes
                &&& stats.peak_bytes == account.peak_bytes
                &&& stats.pause == account.pause
            }),
    {
    }

    /// How many objects all the collections together found live.
    pub closed spec fn marks(self) -> u64 {
        self.marked
    }

    /// How many objects all the collections together found live.
    pub fn marked(&self) -> (count: u64)
        ensures
            count == self.marks(),
    {
        self.marked
    }

    /// The most roots one collection walked, and the most objects one expanded.
    pub closed spec fn peaks(self) -> (u64, u64) {
        (self.most_roots_at_once, self.most_expansions_at_once)
    }

    /// The most roots one collection walked.
    pub fn most_roots_at_once(&self) -> (count: u64)
        ensures
            count == self.peaks().0,
    {
        self.most_roots_at_once
    }

    /// The most objects one collection expanded.
    pub fn most_expansions_at_once(&self) -> (count: u64)
        ensures
            count == self.peaks().1,
    {
        self.most_expansions_at_once
    }

    /// How many handles are held outside the stack.
    pub fn rooted_outside_the_stack(&self) -> (count: usize)
        ensures
            count == self.held_outside(),
    {
        self.temps.len()
    }

    /// How many handles are held outside the stack.
    pub closed spec fn held_outside(self) -> nat {
        self.temps@.len()
    }

    /// How many objects stand in the heap.
    pub closed spec fn standing(self) -> nat {
        self.heap.count()
    }

    /// How many texts the program came with.
    pub closed spec fn built_in(self) -> nat {
        self.tables.string_constants@.len()
    }

    /// What stands in the heap.
    pub closed spec fn held_objects(self) -> Map<u64, Object> {
        self.heap@
    }
}

/// Two pauses say the same.
pub open spec fn say_the_same(a: Pause, b: Pause) -> bool {
    match (a, b) {
        (Pause::Yielded, Pause::Yielded) => true,
        (Pause::Answered(x), Pause::Answered(y)) => x@ == y@,
        (Pause::Raised(x), Pause::Raised(y)) => x@ == y@,
        (
            Pause::Host { module: m, op: o, arguments: x, span: s },
            Pause::Host { module: n, op: p, arguments: y, span: t },
        ) => m@ == n@ && o@ == p@ && crate::value::data(x@) == crate::value::data(y@) && s == t,
        (
            Pause::Builtin { name: m, arguments: x, span: s },
            Pause::Builtin { name: n, arguments: y, span: t },
        ) => m@ == n@ && crate::value::data(x@) == crate::value::data(y@) && s == t,
        (Pause::Stuck, Pause::Stuck) => true,
        _ => false,
    }
}

/// No program can tell when its heap is collected: two backends in one state,
/// whatever either has freed and however eager it is to, come to the same
/// after the same steps, and to one state again.
pub proof fn no_program_can_tell_a_collection(
    program: Program,
    m: Machine,
    steps: nat,
    after: Machine,
    pause: Pause,
    other: Machine,
    said: Pause,
)
    requires
        shows(
            crate::frame::machine::ended(crate::frame::machine::run_for(program, m, steps)),
            after,
            pause,
        ),
        shows(
            crate::frame::machine::ended(crate::frame::machine::run_for(program, m, steps)),
            other,
            said,
        ),
    ensures
        say_the_same(pause, said),
        !(pause is Stuck) ==> after == other,
{
}

/// The words of a stack that are handles.
pub open spec fn on_the_stack(m: Machine) -> Set<u64> {
    Set::new(
        |s: u64|
            exists|i: int| 0 <= i < m.words.len() && m.refs[i] && #[trigger] m.words[i] == s,
    )
}

/// Nothing a run can still name is ever freed: of every object that was made,
/// one that a word of the stack names, or that is found along the handles of
/// what the stack names, stands in the heap as it was made.
pub proof fn nothing_a_run_can_name_is_freed(vm: FrameVm, handle: u64)
    requires
        vm.wf(),
        vm@.objects.dom().contains(handle),
        crate::slot::reaches(vm@.objects, on_the_stack(vm@), handle),
    ensures
        vm.held_objects().dom().contains(handle),
        vm.held_objects()[handle] == vm@.objects[handle],
{
    let roots = vm.roots().union(Set::empty());
    let path = choose|path: Seq<u64>| #[trigger]
        crate::slot::trail(vm@.objects, path) && on_the_stack(vm@).contains(path[0])
            && path.last() == handle;
    assert(vm.roots().contains(path[0])) by {
        let i = choose|i: int|
            0 <= i < vm@.words.len() && vm@.refs[i] && #[trigger] vm@.words[i] == path[0];
        assert(vm.words@[i] == path[0] && vm.flags()[i]);
    }
    assert(roots.contains(path[0]));
    assert(crate::slot::reaches(vm.all@, roots, handle));
}

/// Nothing stands in the heap that was not made, nor other than it was made.
pub proof fn what_stands_was_made(vm: FrameVm, handle: u64)
    requires
        vm.wf(),
        vm.held_objects().dom().contains(handle),
    ensures
        vm@.objects.dom().contains(handle),
        vm.held_objects()[handle] == vm@.objects[handle],
{
}

/// Nothing a run made goes missing: every object it made, and every text the
/// program came with, still stands or has been freed.
pub proof fn what_is_made_stands_or_was_freed(vm: FrameVm)
    requires
        vm.wf(),
        vm.stats().allocated_objects + vm.built_in() < u64::MAX,
    ensures
        vm.stats().allocated_objects + vm.built_in() == vm.stats().freed_objects + vm.standing(),
{
}

/// However many places name an object, a collection that finds it live follows
/// its handles once.
pub proof fn an_object_is_expanded_once_each_time_it_is_found_live(vm: FrameVm)
    requires
        vm.wf(),
    ensures
        vm.collected().2 == vm.marks(),
{
}

/// What collections come to grows with each by what that one did: the totals by
/// as much, the peaks to what it found where that is more, and what is live is
/// what it found.
pub proof fn collections_add_up(sweeps: Seq<Sweep>, last: Sweep)
    ensures
        account_of(Seq::<Sweep>::empty()).collections == 0,
        account_of(Seq::<Sweep>::empty()).freed_objects == 0,
        account_of(Seq::<Sweep>::empty()).peak_bytes == 0,
        account_of(Seq::<Sweep>::empty()).roots == 0,
        account_of(Seq::<Sweep>::empty()).marked == 0,
        account_of(Seq::<Sweep>::empty()).pause == 0,
        ({
            let before = account_of(sweeps);
            let after = account_of(sweeps.push(last));
            &&& before.collections < u64::MAX ==> after.collections == before.collections + 1
            &&& before.freed_objects + last.freed_objects <= u64::MAX ==> after.freed_objects
                == before.freed_objects + last.freed_objects
            &&& before.pause + last.pause <= u64::MAX ==> after.pause == before.pause + last.pause
            &&& before.roots + last.roots <= u64::MAX ==> after.roots == before.roots + last.roots
            &&& before.marked + last.live_objects <= u64::MAX ==> after.marked == before.marked
                + last.live_objects
            &&& after.live_objects == last.live_objects
            &&& after.live_bytes == last.live_bytes
            &&& after.peak_bytes >= before.peak_bytes && after.peak_bytes >= last.live_bytes && (
            after.peak_bytes == before.peak_bytes || after.peak_bytes == last.live_bytes)
            &&& after.most_roots >= before.most_roots && after.most_roots >= last.roots && (
            after.most_roots == before.most_roots || after.most_roots == last.roots)
            &&& after.most_marked >= before.most_marked && after.most_marked >= last.live_objects
                && (after.most_marked == before.most_marked || after.most_marked
                == last.live_objects)
        }),
{
    assert(sweeps.push(last).drop_last() =~= sweeps);
}

} // verus!
