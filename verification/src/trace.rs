//! What a trace of a run is given, in the order it is given.
use crate::error::RunOutcome;
use crate::frame::vm::{FrameVm, Pause};
use crate::heap::HeapStats;
use crate::ir::Program;
use crate::value::Value;
use vstd::prelude::*;
use vstd::string::*;

verus! {

/// One event of a run. The calls it makes of its hosts are events too, each of
/// them a [`crate::host::HostCall`].
#[derive(Debug)]
pub enum TraceEvent {
    /// The entry was entered.
    EntryEnter { module: String, function: String },
    /// The entry was left: how long it computed and how long it waited, in
    /// nanoseconds.
    EntryExit { module: String, function: String, cpu: u64, wait: u64 },
    /// What the run did with its heap.
    HeapSummary {
        allocated: u64,
        allocated_bytes: u64,
        collections: u64,
        live_bytes: u64,
        peak_bytes: u64,
        pause: u64,
    },
    /// How the run ended, and what it said.
    RunEnded { outcome: RunOutcome, message: Option<String> },
}

/// One event of a run, mathematically.
pub ghost enum Noted {
    EntryEnter(Seq<char>, Seq<char>),
    EntryExit(Seq<char>, Seq<char>, u64, u64),
    HeapSummary(HeapStats),
    RunEnded(RunOutcome, Option<Seq<char>>),
}

impl TraceEvent {
    /// What the event says.
    pub open spec fn says(self, noted: Noted) -> bool {
        match noted {
            Noted::EntryEnter(m, f) => self matches TraceEvent::EntryEnter { module, function }
                && module@ == m && function@ == f,
            Noted::EntryExit(m, f, c, w) => self matches TraceEvent::EntryExit {
                module,
                function,
                cpu,
                wait,
            } && module@ == m && function@ == f && cpu == c && wait == w,
            Noted::HeapSummary(stats) => self == (TraceEvent::HeapSummary {
                allocated: stats.allocated_objects,
                allocated_bytes: stats.allocated_bytes,
                collections: stats.collections,
                live_bytes: stats.live_bytes,
                peak_bytes: stats.peak_bytes,
                pause: stats.pause,
            }),
            Noted::RunEnded(how, said) => self matches TraceEvent::RunEnded { outcome, message }
                && outcome == how && crate::error::text_of(message) == said,
        }
    }
}

/// How a run that came to this has ended, and what it said. A run that has not
/// ended has not ended in any way.
pub open spec fn ending(pause: Pause) -> Option<(RunOutcome, Option<Seq<char>>)> {
    match pause {
        Pause::Answered(value) => if answers_err(value) {
            Some((RunOutcome::Error, crate::frame::machine::failed_assertion(value@)))
        } else {
            Some((RunOutcome::Success, None))
        },
        Pause::Raised(error) => Some((error.outcome, Some(error.message@))),
        _ => None,
    }
}

/// The value is a `Result` that failed.
pub open spec fn answers_err(value: Value) -> bool {
    value matches Value::Enum { kind_name, case, payload: _ } && kind_name@ == "Result"@ && case@
        == "Err"@
}

/// How a run that came to this has ended, and what it said.
pub fn run_ended(pause: &Pause) -> (event: Option<TraceEvent>)
    ensures
        match ending(*pause) {
            Some(pair) => event matches Some(noted) && noted.says(Noted::RunEnded(pair.0, pair.1)),
            None => event is None,
        },
{
    match pause {
        Pause::Answered(value) => {
            let failed: bool = match value {
                Value::Enum { kind_name, case, payload: _ } => crate::text::same(
                    kind_name.as_str(),
                    "Result",
                ) && crate::text::same(case.as_str(), "Err"),
                _ => false,
            };
            if failed {
                Some(
                    TraceEvent::RunEnded {
                        outcome: RunOutcome::Error,
                        message: crate::frame::vm::failure_text(value),
                    },
                )
            } else {
                Some(TraceEvent::RunEnded { outcome: RunOutcome::Success, message: None })
            }
        },
        Pause::Raised(error) => Some(
            TraceEvent::RunEnded { outcome: error.outcome, message: Some(error.message.clone()) },
        ),
        _ => None,
    }
}

/// The entry is one a run can enter: it is declared, admitted and takes no
/// parameters.
pub open spec fn enters(program: Program, module: Seq<char>, name: Seq<char>) -> bool {
    exists|entry: crate::ir::FunctionId| #[trigger]
        crate::frame::admission::entry_is(program, module, name, entry)
            && crate::frame::admission::refusals_from(program, entry).len() == 0 && program.func(
            entry,
        ).params@.len() == 0
}

/// What a trace is given as a run of `module.name` begins: that the entry was
/// entered, if it is one a run can enter.
pub fn run_began(program: &Program, module: &str, name: &str) -> (event: Option<TraceEvent>)
    requires
        crate::frame::validity::valid(*program),
    ensures
        match event {
            Some(noted) => enters(*program, module@, name@) && noted.says(
                Noted::EntryEnter(module@, name@),
            ),
            None => !enters(*program, module@, name@),
        },
{
    match crate::frame::admission::admits(program, module, name) {
        Err(_) => {
            proof {
                assert forall|entry: crate::ir::FunctionId| #[trigger]
                    crate::frame::admission::entry_is(
                        *program,
                        module@,
                        name@,
                        entry,
                    ) implies crate::frame::admission::refusals_from(*program, entry).len() > 0 by {
                    if !crate::frame::admission::declares_nothing(*program, module@, name@) {
                        let other = choose|other: crate::ir::FunctionId| #[trigger]
                            crate::frame::admission::entry_is(*program, module@, name@, other)
                                && crate::frame::admission::refusals_from(*program, other).len()
                                > 0;
                        crate::frame::vm::lemma_one_entry(
                            *program,
                            module@,
                            name@,
                            entry,
                            other,
                        );
                    }
                }
            }
            None
        },
        Ok(id) => {
            proof {
                assert forall|other: crate::ir::FunctionId| #[trigger]
                    crate::frame::admission::entry_is(
                        *program,
                        module@,
                        name@,
                        other,
                    ) implies other == id by {
                    crate::frame::vm::lemma_one_entry(*program, module@, name@, id, other);
                }
            }
            if program.function(id).params.len() == 0 {
                Some(TraceEvent::EntryEnter { module: module.to_owned(), function: name.to_owned() })
            } else {
                None
            }
        },
    }
}

/// What a trace is given as a run ends: that the entry was left and what the
/// heap did, if it was entered at all, and how the run ended.
pub open spec fn closing(
    entered: bool,
    module: Seq<char>,
    name: Seq<char>,
    cpu: u64,
    wait: u64,
    stats: HeapStats,
    end: Option<(RunOutcome, Option<Seq<char>>)>,
) -> Seq<Noted> {
    (if entered {
        seq![Noted::EntryExit(module, name, cpu, wait), Noted::HeapSummary(stats)]
    } else {
        Seq::empty()
    }) + (match end {
        Some(pair) => seq![Noted::RunEnded(pair.0, pair.1)],
        None => Seq::empty(),
    })
}

/// What a trace is given as a run of `module.name` ends.
pub fn run_closed(
    vm: &FrameVm,
    entered: bool,
    module: &str,
    name: &str,
    cpu: u64,
    pause: &Pause,
) -> (events: Vec<TraceEvent>)
    ensures
        events@.len() == closing(
            entered,
            module@,
            name@,
            cpu,
            vm.waited(),
            vm.stats(),
            ending(*pause),
        ).len(),
        forall|i: int|
            0 <= i < events@.len() ==> (#[trigger] events@[i]).says(
                closing(entered, module@, name@, cpu, vm.waited(), vm.stats(), ending(*pause))[i],
            ),
{
    let mut events: Vec<TraceEvent> = Vec::new();
    if entered {
        events.push(
            TraceEvent::EntryExit {
                module: module.to_owned(),
                function: name.to_owned(),
                cpu,
                wait: vm.wait(),
            },
        );
        let stats = vm.heap_stats();
        events.push(
            TraceEvent::HeapSummary {
                allocated: stats.allocated_objects,
                allocated_bytes: stats.allocated_bytes,
                collections: stats.collections,
                live_bytes: stats.live_bytes,
                peak_bytes: stats.peak_bytes,
                pause: stats.pause,
            },
        );
    }
    if let Some(event) = run_ended(pause) {
        events.push(event);
    }
    events
}

/// A run that answered an `Err` ended in an error, and one that answered
/// anything else in success; one that was raised ended as its error says; and
/// one that waits has not ended.
pub proof fn a_run_ends_as_it_answered(pause: Pause)
    ensures
        pause matches Pause::Answered(value) ==> ending(pause) is Some && (match value {
            Value::Enum { kind_name, case, payload: _ } => if kind_name@ == "Result"@ && case@
                == "Err"@ {
                (ending(pause)->0).0 == RunOutcome::Error
            } else {
                ending(pause)->0 == (RunOutcome::Success, None::<Seq<char>>)
            },
            _ => ending(pause)->0 == (RunOutcome::Success, None::<Seq<char>>),
        }),
        pause matches Pause::Raised(error) ==> ending(pause) == Some(
            (error.outcome, Some(error.message@)),
        ),
        !(pause is Answered) && !(pause is Raised) ==> ending(pause) is None,
{
}

/// A run that was entered is told to have been left before what its heap did,
/// and how it ended comes last; one that was not entered only ended.
pub proof fn a_run_is_closed_in_order(
    module: Seq<char>,
    name: Seq<char>,
    cpu: u64,
    wait: u64,
    stats: HeapStats,
    outcome: RunOutcome,
    said: Option<Seq<char>>,
)
    ensures
        closing(true, module, name, cpu, wait, stats, Some((outcome, said))) == seq![
            Noted::EntryExit(module, name, cpu, wait),
            Noted::HeapSummary(stats),
            Noted::RunEnded(outcome, said),
        ],
        closing(true, module, name, cpu, wait, stats, None) == seq![
            Noted::EntryExit(module, name, cpu, wait),
            Noted::HeapSummary(stats),
        ],
        closing(false, module, name, cpu, wait, stats, Some((outcome, said))) == seq![
            Noted::RunEnded(outcome, said),
        ],
        closing(false, module, name, cpu, wait, stats, None) == Seq::<Noted>::empty(),
{
}

/// An event says what was noted, part for part.
pub proof fn an_event_says_what_was_noted(event: TraceEvent, noted: Noted)
    requires
        event.says(noted),
    ensures
        noted matches Noted::EntryEnter(m, f) ==> (event matches TraceEvent::EntryEnter {
            module,
            function,
        } && module@ == m && function@ == f),
        noted matches Noted::EntryExit(m, f, c, w) ==> (event matches TraceEvent::EntryExit {
            module,
            function,
            cpu,
            wait,
        } && module@ == m && function@ == f && cpu == c && wait == w),
        noted matches Noted::HeapSummary(stats) ==> (event matches TraceEvent::HeapSummary {
            allocated,
            allocated_bytes,
            collections,
            live_bytes,
            peak_bytes,
            pause,
        } && allocated == stats.allocated_objects && allocated_bytes == stats.allocated_bytes
            && collections == stats.collections && live_bytes == stats.live_bytes && peak_bytes
            == stats.peak_bytes && pause == stats.pause),
        noted matches Noted::RunEnded(how, said) ==> (event matches TraceEvent::RunEnded {
            outcome,
            message,
        } && outcome == how && (said is None <==> message is None) && (message matches Some(text)
            ==> said == Some(text@))),
{
}

} // verus!
