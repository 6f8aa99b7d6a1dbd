//! A run together with the hosts it calls.
use crate::error::RuntimeError;
use crate::frame::machine::Machine;
use crate::frame::vm::{FrameVm, Pause};
use crate::host::{Boundary, Event, HostCall, HostRegistry, Reply, ENTRY_TASK};
use crate::ir::Program;
use crate::value::{Datum, Value};
use vstd::prelude::*;

verus! {

/// What a registry replies to one call, whatever its host answered and however
/// long that took.
#[verifier::opaque]
pub open spec fn replies(
    before: Boundary,
    after: Boundary,
    module: Seq<char>,
    op: Seq<char>,
    args: Seq<Datum>,
    reply: Reply,
) -> bool {
    match crate::host::the_module(before.schemas, module) {
        None => after == before && reply.fails(crate::host::unknown_module(module), None),
        Some(schema) => reply.comes_of(
            before,
            after,
            ENTRY_TASK,
            crate::host::module_call(schema, module, op),
            crate::host::the_operation(schema.operations@, op),
            crate::host::needed(schema, crate::host::the_operation(schema.operations@, op)),
            None,
            op,
            args,
        ),
    }
}

/// A run that was given this for its answer comes to this after some steps.
pub open spec fn goes_on(
    program: Program,
    m: Machine,
    result: Result<Value, RuntimeError>,
    steps: u64,
    after: Machine,
    pause: Pause,
) -> bool {
    crate::frame::vm::shows(
        crate::frame::machine::ended(
            crate::frame::machine::taken_up(
                program,
                crate::frame::machine::host_answered(
                    program,
                    m,
                    crate::frame::machine::running(program, m),
                    match result {
                        Ok(value) => Ok(value@),
                        Err(error) => Err(error@),
                    },
                ),
                steps as nat,
            ),
        ),
        after,
        pause,
    )
}

/// The events of some calls, mathematically.
pub open spec fn events_of(calls: Seq<HostCall>) -> Seq<Event> {
    Seq::new(calls.len(), |i: int| calls[i]@)
}

/// Where a run and its hosts stand: what the hosts have become, what the run
/// has become and come to, how long it has waited for hosts, and every call
/// that was traced so far.
pub ghost struct Turn {
    pub hosts: Boundary,
    pub machine: Machine,
    pub pause: Pause,
    pub waited: u64,
    pub events: Seq<Event>,
}

/// A run and its hosts have one budget, and the hosts keep it: the run with
/// what is left of it.
pub open spec fn funded(m: Machine, hosts: Boundary) -> Machine {
    Machine { budget: hosts.budget, ..m }
}

/// A run and its hosts have one budget, and the hosts keep it: the hosts with
/// what the run left of it.
pub open spec fn returned(hosts: Boundary, m: Machine) -> Boundary {
    Boundary { budget: m.budget, ..hosts }
}

/// The run was given what the hosts replied to the call, and ran on; and the
/// call was traced like this, if it was.
#[verifier::opaque]
pub open spec fn served(
    program: Program,
    steps: u64,
    hosts: Boundary,
    m: Machine,
    module: Seq<char>,
    op: Seq<char>,
    args: Seq<Datum>,
    event: Option<Event>,
    after_hosts: Boundary,
    after: Machine,
    pause: Pause,
) -> bool {
    exists|reply: Reply, called: Boundary|
        {
            &&& #[trigger] replies(hosts, called, module, op, args, reply)
            &&& reply.traced() == event
            &&& goes_on(program, funded(m, called), reply.result, steps, after, pause)
            &&& after_hosts == returned(called, after)
        }
}

/// A run that yielded ran on, or one that waited for a host was given what the
/// host's registry replied and ran on.
pub open spec fn follows(program: Program, steps: u64, before: Turn, after: Turn) -> bool {
    match before.pause {
        Pause::Yielded => {
            &&& after.hosts == returned(before.hosts, after.machine)
            &&& after.events == before.events
            &&& after.waited == before.waited
            &&& crate::frame::vm::shows(
                crate::frame::machine::ended(
                    crate::frame::machine::run_for(
                        program,
                        funded(before.machine, before.hosts),
                        steps as nat,
                    ),
                ),
                after.machine,
                after.pause,
            )
        },
        Pause::Host { module, op, arguments, span: _ } => {
            &&& after.waited >= before.waited
            &&& exists|event: Option<Event>|
                {
                    &&& #[trigger] served(
                        program,
                        steps,
                        before.hosts,
                        before.machine,
                        module@,
                        op@,
                        crate::value::data(arguments@),
                        event,
                        after.hosts,
                        after.machine,
                        after.pause,
                    )
                    &&& after.events == with_event(before.events, event)
                }
        },
        _ => false,
    }
}

/// The turns a run took with its hosts, from the first to the last: each
/// follows from the one before it.
pub open spec fn in_turn(
    program: Program,
    steps: u64,
    first: Turn,
    turns: Seq<Turn>,
    last: Turn,
) -> bool {
    &&& turns.len() > 0
    &&& turns[0] == first
    &&& turns.last() == last
    &&& forall|i: int|
        0 <= i < turns.len() - 1 ==> follows(program, steps, #[trigger] turns[i], turns[i + 1])
}

/// A run of `module.name` begins like this.
pub open spec fn begins(
    program: Program,
    m: Machine,
    hosts: Boundary,
    module: Seq<char>,
    name: Seq<char>,
    steps: u64,
    first: Turn,
) -> bool {
    &&& first.hosts == returned(hosts, first.machine)
    &&& first.events.len() == 0
    &&& crate::frame::admission::declares_nothing(program, module, name)
        ==> crate::frame::vm::shows(
        crate::frame::machine::Outcome::Raised(
            funded(m, hosts),
            crate::frame::machine::refused(crate::frame::admission::undeclared(module, name)),
        ),
        first.machine,
        first.pause,
    )
    &&& forall|entry: crate::ir::FunctionId| #[trigger]
        crate::frame::admission::entry_is(program, module, name, entry)
            ==> crate::frame::vm::shows(
            crate::frame::machine::entered(
                program,
                funded(m, hosts),
                module,
                name,
                entry,
                steps as nat,
            ),
            first.machine,
            first.pause,
        )
}

/// How a run of `module.name` with its hosts begins, and the turns it takes.
pub open spec fn took(
    program: Program,
    m: Machine,
    hosts: Boundary,
    waited: u64,
    module: Seq<char>,
    name: Seq<char>,
    steps: u64,
    turns: Seq<Turn>,
    last: Turn,
) -> bool {
    &&& begins(program, m, hosts, module, name, steps, turns[0])
    &&& turns[0].waited == waited
    &&& in_turn(program, steps, turns[0], turns, last)
}

/// The event of a call, if it was traced.
pub open spec fn event_of(call: Option<HostCall>) -> Option<Event> {
    match call {
        Some(call) => Some(call@),
        None => None,
    }
}

proof fn lemma_served(
    program: Program,
    steps: u64,
    hosts: Boundary,
    m: Machine,
    module: Seq<char>,
    op: Seq<char>,
    args: Seq<Datum>,
    reply: Reply,
    called: Boundary,
    after: Machine,
    pause: Pause,
)
    requires
        replies(hosts, called, module, op, args, reply),
        goes_on(program, funded(m, called), reply.result, steps, after, pause),
    ensures
        served(
            program,
            steps,
            hosts,
            m,
            module,
            op,
            args,
            reply.traced(),
            returned(called, after),
            after,
            pause,
        ),
{
    reveal(served);
}

/// The turns taken so far.
#[verifier::opaque]
spec fn so_far(program: Program, steps: u64, first: Turn, turns: Seq<Turn>, last: Turn) -> bool {
    in_turn(program, steps, first, turns, last)
}

proof fn lemma_no_turn_yet(program: Program, steps: u64, first: Turn)
    ensures
        so_far(program, steps, first, seq![first], first),
{
    reveal(so_far);
}

proof fn lemma_one_more_turn(
    program: Program,
    steps: u64,
    first: Turn,
    turns: Seq<Turn>,
    before: Turn,
    after: Turn,
)
    requires
        so_far(program, steps, first, turns, before),
        follows(program, steps, before, after),
    ensures
        so_far(program, steps, first, turns.push(after), after),
{
    reveal(so_far);
    let longer = turns.push(after);
    assert forall|i: int| 0 <= i < longer.len() - 1 implies follows(
        program,
        steps,
        #[trigger] longer[i],
        longer[i + 1],
    ) by {
        if i < turns.len() - 1 {
            assert(longer[i] == turns[i] && longer[i + 1] == turns[i + 1]);
        } else {
            assert(longer[i] == turns.last());
        }
    }
}

/// Some events and then one more, if there is one.
pub open spec fn with_event(events: Seq<Event>, event: Option<Event>) -> Seq<Event> {
    match event {
        Some(event) => events.push(event),
        None => events,
    }
}

/// Makes a call outside any task.
fn ask(hosts: &mut HostRegistry, module: &str, op: &str, arguments: Vec<Value>) -> (reply: Reply)
    requires
        old(hosts).wf(),
    ensures
        final(hosts).wf(),
        replies(
            old(hosts)@,
            final(hosts)@,
            module@,
            op@,
            crate::value::data(arguments@),
            reply,
        ),
{
    reveal(replies);
    hosts.call(module, op, arguments)
}

impl<'a> FrameVm<'a> {
    /// Makes the call a run waits for, hands the run what came of it, and runs
    /// on for at most so many instructions. The run spends the hosts' budget.
    /// What is handed back is what the run came to, the call, if it was traced,
    /// and how long it took.
    pub fn serve(
        &mut self,
        hosts: &mut HostRegistry,
        module: &str,
        op: &str,
        arguments: Vec<Value>,
        steps: u64,
    ) -> (came: (Pause, Option<HostCall>, u64))
        requires
            old(self).wf(),
            old(hosts).wf(),
        ensures
            final(self).wf(),
            final(self).of() == old(self).of(),
            final(self).held_outside() == old(self).held_outside(),
            final(self).waited() == crate::budget::tallied(old(self).waited() as int, came.2 as int),
            final(self).keeps_collecting(*old(self)),
            final(hosts).wf(),
            final(hosts)@.budget == final(self)@.budget,
            served(
                old(self).of(),
                steps,
                old(hosts)@,
                old(self)@,
                module@,
                op@,
                crate::value::data(arguments@),
                event_of(came.1),
                final(hosts)@,
                final(self)@,
                came.0,
            ),
    {
        let started = crate::host::now();
        let reply = ask(hosts, module, op, arguments);
        let wait: u64 = crate::host::nanoseconds_since(&started);
        self.charge_wait(wait);
        let ghost said = reply;
        let ghost called = hosts@;
        let event = reply.event;
        self.replace_budget(hosts.budget());
        let pause = self.answer_host(reply.result, steps);
        hosts.replace_budget(self.budget());
        proof {
            assert(said.traced() == event_of(event));
            assert(goes_on(
                old(self).of(),
                funded(old(self)@, called),
                said.result,
                steps,
                self@,
                pause,
            ));
            assert(hosts@ == returned(called, self@));
            lemma_served(
                old(self).of(),
                steps,
                old(hosts)@,
                old(self)@,
                module@,
                op@,
                crate::value::data(arguments@),
                said,
                called,
                self@,
                pause,
            );
        }
        (pause, event, wait)
    }

    /// Runs `module.name` with its hosts: a run that waits for a host is served
    /// and goes on, for at most so many turns of so many instructions each. It
    /// spends the hosts' budget. What is handed back is what the run came to
    /// and every call that was traced, in order.
    pub fn run_hosted(
        &mut self,
        hosts: &mut HostRegistry,
        module: &str,
        name: &str,
        steps: u64,
        turns: u64,
    ) -> (came: (Pause, Vec<HostCall>))
        requires
            old(self).wf(),
            old(hosts).wf(),
        ensures
            final(self).wf(),
            final(self).of() == old(self).of(),
            final(self).held_outside() == old(self).held_outside(),
            final(self).waited() >= old(self).waited(),
            final(self).keeps_collecting(*old(self)),
            final(hosts).wf(),
            final(hosts)@.budget == final(self)@.budget,
            exists|all: Seq<Turn>| #[trigger]
                took(
                    old(self).of(),
                    old(self)@,
                    old(hosts)@,
                    old(self).waited(),
                    module@,
                    name@,
                    steps,
                    all,
                    Turn {
                        hosts: final(hosts)@,
                        machine: final(self)@,
                        pause: came.0,
                        waited: final(self).waited(),
                        events: events_of(came.1@),
                    },
                ) && (all.len() == turns + 1 || !(came.0 is Yielded || came.0 is Host)),
    {
        self.replace_budget(hosts.budget());
        let pause = self.run_entry(module, name, steps);
        hosts.replace_budget(self.budget());
        let ghost first = Turn {
            hosts: hosts@,
            machine: self@,
            pause,
            waited: self.waited(),
            events: Seq::empty(),
        };
        proof {
            assert(begins(
                old(self).of(),
                old(self)@,
                old(hosts)@,
                module@,
                name@,
                steps,
                first,
            ));
        }
        let ghost program = self.of();
        let came = self.resume_hosted(hosts, pause, steps, turns);
        proof {
            let last = Turn {
                hosts: hosts@,
                machine: self@,
                pause: came.0,
                waited: self.waited(),
                events: events_of(came.1@),
            };
            let all = choose|all: Seq<Turn>| #[trigger]
                in_turn(program, steps, first, all, last) && (all.len() == turns + 1 || !(
                came.0 is Yielded || came.0 is Host));
            assert(took(
                program,
                old(self)@,
                old(hosts)@,
                old(self).waited(),
                module@,
                name@,
                steps,
                all,
                last,
            ));
        }
        came
    }

    /// Takes a run up where it paused, with its hosts, for at most so many
    /// turns of so many instructions each. The run spends the hosts' budget as
    /// it finds it: a run whose hosts' budget was cancelled goes no further
    /// than its next safepoint.
    pub fn resume_hosted(
        &mut self,
        hosts: &mut HostRegistry,
        pause: Pause,
        steps: u64,
        turns: u64,
    ) -> (came: (Pause, Vec<HostCall>))
        requires
            old(self).wf(),
            old(hosts).wf(),
        ensures
            final(self).wf(),
            final(self).of() == old(self).of(),
            final(self).held_outside() == old(self).held_outside(),
            final(self).waited() >= old(self).waited(),
            final(self).keeps_collecting(*old(self)),
            final(hosts).wf(),
            turns > 0 && (pause is Yielded || pause is Host) || old(hosts)@.budget
                == old(self)@.budget ==> final(hosts)@.budget == final(self)@.budget,
            exists|all: Seq<Turn>| #[trigger]
                in_turn(
                    old(self).of(),
                    steps,
                    Turn {
                        hosts: old(hosts)@,
                        machine: old(self)@,
                        pause,
                        waited: old(self).waited(),
                        events: Seq::empty(),
                    },
                    all,
                    Turn {
                        hosts: final(hosts)@,
                        machine: final(self)@,
                        pause: came.0,
                        waited: final(self).waited(),
                        events: events_of(came.1@),
                    },
                ) && (all.len() == turns + 1 || !(came.0 is Yielded || came.0 is Host)),
    {
        let ghost program = self.of();
        let mut calls: Vec<HostCall> = Vec::new();
        let mut pause = pause;
        let ghost first = Turn {
            hosts: hosts@,
            machine: self@,
            pause,
            waited: self.waited(),
            events: Seq::empty(),
        };
        let ghost mut last: Turn = first;
        let ghost mut all: Seq<Turn> = seq![first];
        let mut taken: u64 = 0;
        proof {
            assert(events_of(calls@) =~= Seq::<Event>::empty());
            lemma_no_turn_yet(program, steps, first);
        }
        while taken < turns && goes(&pause)
            invariant
                self.wf(),
                hosts.wf(),
                program == self.of(),
                program == old(self).of(),
                self.held_outside() == old(self).held_outside(),
                self.waited() >= old(self).waited(),
                self.keeps_collecting(*old(self)),
                taken <= turns,
                all.len() == taken + 1,
                taken > 0 || old(hosts)@.budget == old(self)@.budget ==> hosts@.budget
                    == self@.budget,
                taken == 0 ==> pause == first.pause,
                last.hosts == hosts@,
                last.machine == self@,
                last.pause == pause,
                last.waited == self.waited(),
                last.events == events_of(calls@),
                so_far(program, steps, first, all, last),
            decreases turns - taken,
        {
            let ghost were = calls@;
            let ghost before = last;
            let (next, event) = self.turn(hosts, pause, steps, Ghost(events_of(were)));
            let ghost noted = event_of(event);
            if let Some(call) = event {
                calls.push(call);
                proof {
                    assert(events_of(calls@) =~= events_of(were).push(call@));
                }
            }
            pause = next;
            proof {
                last = Turn {
                    hosts: hosts@,
                    machine: self@,
                    pause,
                    waited: self.waited(),
                    events: events_of(calls@),
                };
                assert(last.events == with_event(before.events, noted));
                lemma_one_more_turn(program, steps, first, all, before, last);
                all = all.push(last);
            }
            taken = taken + 1;
        }
        proof {
            reveal(so_far);
            assert(in_turn(program, steps, first, all, last));
        }
        (pause, calls)
    }

    /// One turn of a run that yielded or waits for a host.
    fn turn(
        &mut self,
        hosts: &mut HostRegistry,
        pause: Pause,
        steps: u64,
        Ghost(events): Ghost<Seq<Event>>,
    ) -> (came: (Pause, Option<HostCall>))
        requires
            old(self).wf(),
            old(hosts).wf(),
            pause is Yielded || pause is Host,
        ensures
            final(self).wf(),
            final(self).of() == old(self).of(),
            final(self).held_outside() == old(self).held_outside(),
            final(self).waited() >= old(self).waited(),
            final(self).keeps_collecting(*old(self)),
            final(hosts).wf(),
            final(hosts)@.budget == final(self)@.budget,
            follows(
                old(self).of(),
                steps,
                Turn {
                    hosts: old(hosts)@,
                    machine: old(self)@,
                    pause,
                    waited: old(self).waited(),
                    events,
                },
                Turn {
                    hosts: final(hosts)@,
                    machine: final(self)@,
                    pause: came.0,
                    waited: final(self).waited(),
                    events: with_event(events, event_of(came.1)),
                },
            ),
    {
        match pause {
            Pause::Host { module: from, op, arguments, span: _ } => {
                let (next, event, _) = self.serve(
                    hosts,
                    from.as_str(),
                    op.as_str(),
                    arguments,
                    steps,
                );
                (next, event)
            },
            _ => {
                self.replace_budget(hosts.budget());
                let next = self.execute(steps);
                hosts.replace_budget(self.budget());
                (next, None)
            },
        }
    }
}

/// Whether a run that paused so may be taken up.
fn goes(pause: &Pause) -> (yes: bool)
    ensures
        yes == (pause is Yielded || pause is Host),
{
    match pause {
        Pause::Yielded => true,
        Pause::Host { .. } => true,
        _ => false,
    }
}

/// A run and its hosts have one budget: after every turn the hosts have what
/// the run left of it, and a turn adds at most one call to the trace, behind
/// those there were.
pub proof fn a_run_and_its_hosts_have_one_budget(
    program: Program,
    steps: u64,
    before: Turn,
    after: Turn,
)
    requires
        follows(program, steps, before, after),
    ensures
        after.hosts.budget == after.machine.budget,
        after.events.len() == before.events.len() || after.events.len() == before.events.len() + 1,
        after.events.take(before.events.len() as int) == before.events,
        before.pause is Yielded ==> after.events == before.events && after.hosts.hosts
            == before.hosts.hosts && after.hosts.granted == before.hosts.granted
            && after.hosts.writes == before.hosts.writes,
        before.pause is Yielded || before.pause is Host,
        after.waited >= before.waited,
{
    if before.pause is Host {
        reveal(served);
    }
    assert(after.events.take(before.events.len() as int) =~= before.events);
}

/// A call of a module there is not is told so, and changes nothing.
pub proof fn a_call_of_no_module_changes_nothing(
    before: Boundary,
    after: Boundary,
    module: Seq<char>,
    op: Seq<char>,
    args: Seq<Datum>,
    reply: Reply,
)
    requires
        replies(before, after, module, op, args, reply),
        forall|i: int|
            0 <= i < before.schemas.len() ==> (#[trigger] before.schemas[i]).name@ != module,
    ensures
        after == before,
        reply.result is Err,
        reply.result->Err_0@.message == "unknown host module `"@ + module + "`"@,
        reply.result->Err_0@.outcome == crate::error::RunOutcome::HostBoundary,
        reply.traced() is None,
{
    reveal(replies);
    if exists|i: int| crate::schema::module_at(before.schemas, module, i) {
        let i = choose|i: int| crate::schema::module_at(before.schemas, module, i);
        assert(before.schemas[i].name@ == module);
    }
}

} // verus!
