//! The boundary between a program and its hosts.
//!
//! A program has no authority of its own. Files, the environment, the console
//! and whatever else a host offers are capabilities, and a registry refuses
//! every call that was not granted. Each host module declares what its
//! operations take and answer, and every call is held to that on the way in
//! and on the way out.
use crate::budget::{Budget, Cancellation};
use crate::error::{RunOutcome, RuntimeError};
use crate::frame::layout::find_last_dot;
use crate::names::Names;
use crate::schema::{
    find_module, find_operation, Effect, Mismatch, ModuleSchema, OperationSchema, Part,
    ResourceSchema, TypeSchema,
};
use crate::text::{decimal, quote, same};
use crate::value::{copy_all, Datum, ResourceHandle, Value};
use vstd::prelude::*;
use vstd::string::*;

verus! {

/// The task a call belongs to when no spawned task made it.
pub const ENTRY_TASK: u64 = 0;

/// One thing a host was asked: an operation, or an operation on a handle; what
/// it was handed; and what it answered.
pub ghost struct Asked {
    pub handle: Option<ResourceHandle>,
    pub op: Seq<char>,
    pub args: Seq<Datum>,
    pub answer: Result<Value, RuntimeError>,
}

/// A history, if one is kept, with one more thing that was asked.
pub open spec fn noted(history: Option<Seq<Asked>>, asked: Asked) -> Option<Seq<Asked>> {
    match history {
        Some(before) => Some(before.push(asked)),
        None => None,
    }
}

/// One host-provided module.
///
/// The schema is the module's declaration of itself, and the boundary holds
/// every call to it: an operation arriving here has been checked against what
/// is declared.
///
/// A module may keep a history, which only proofs read: everything it was
/// asked, in order.
pub trait HostApi {
    /// Everything this module was asked, if it keeps a history.
    open spec fn asked(&self) -> Option<Seq<Asked>> {
        None
    }

    /// What this module may declare about itself.
    open spec fn declares(&self, schema: ModuleSchema) -> bool {
        true
    }

    /// The whole of what this module declares about itself.
    fn module_schema(&self) -> (schema: ModuleSchema)
        ensures
            self.declares(schema),
    ;

    /// Invokes one operation, with a way back into the program that made the
    /// call. A module that runs no callback leaves this as it is.
    ///
    /// The way back is on loan for the call and no longer.
    fn call_with<'b>(&mut self, op: &str, args: Vec<Value>, _back: &mut Box<dyn Reentry + 'b>) -> (result:
        Result<Value, RuntimeError>)
        ensures
            final(self).asked() == noted(
                old(self).asked(),
                Asked {
                    handle: None,
                    op: op@,
                    args: crate::value::data(args@),
                    answer: result,
                },
            ),
    {
        self.call(op, args)
    }

    /// Invokes one operation.
    fn call(&mut self, op: &str, args: Vec<Value>) -> (result: Result<Value, RuntimeError>)
        ensures
            final(self).asked() == noted(
                old(self).asked(),
                Asked {
                    handle: None,
                    op: op@,
                    args: crate::value::data(args@),
                    answer: result,
                },
            ),
    ;

    /// Invokes one operation on a handle this module issued, with a way back as
    /// `call_with` has one. A module that declares no resources is never asked,
    /// and says so.
    fn call_resource<'b>(
        &mut self,
        handle: &ResourceHandle,
        op: &str,
        args: Vec<Value>,
        _back: &mut Box<dyn Reentry + 'b>,
    ) -> (result: Result<Value, RuntimeError>)
        ensures
            final(self).asked() == noted(
                old(self).asked(),
                Asked {
                    handle: Some(*handle),
                    op: op@,
                    args: crate::value::data(args@),
                    answer: result,
                },
            ) || (result is Err && &*final(self) == &*old(self)),
        default_ensures
            &*final(self) == &*old(self),
            exists|schema: ModuleSchema| #[trigger]
                old(self).declares(schema) && result is Err && result->Err_0@ == no_handles(
                    schema.name@,
                    *handle,
                    op@,
                ),
    {
        let schema = self.module_schema();
        Err(issues_no_handles(schema.name.as_str(), handle, op))
    }
}

/// What a module that issues no handles says when it is asked about one,
/// mathematically.
pub open spec fn no_handles(module: Seq<char>, handle: ResourceHandle, op: Seq<char>) -> crate::error::Failure {
    crate::error::failure(
        "host module `"@ + module + "` issues no resource handles, so `"@ + (handle.module@ + "."@
            + handle.kind_name@) + "."@ + op + "` cannot be called"@,
    )
}

/// What a module that issues no handles says when it is asked about one.
pub fn issues_no_handles(module: &str, handle: &ResourceHandle, op: &str) -> (error: RuntimeError)
    ensures
        error@ == no_handles(module@, *handle, op@),
{
    let mut message: String = "host module `".to_owned();
    message.append(module);
    message.append("` issues no resource handles, so `");
    message.append(handle.qualified_type().as_str());
    message.append(".");
    message.append(op);
    message.append("` cannot be called");
    RuntimeError::new(message)
}

/// How a host runs a callback it was handed, and asks about the run it is in.
pub trait Reentry {
    /// Calls `callee` and answers what it produced.
    fn call(&mut self, callee: &Value, args: Vec<Value>) -> Result<Value, RuntimeError>;

    /// Calls `callee` and answers what it produced, unless `stop` is raised
    /// first. It bounds the call and everything inside it, beside whatever else
    /// may stop the run.
    fn call_until(&mut self, callee: &Value, args: Vec<Value>, stop: &Cancellation) -> Result<
        Value,
        RuntimeError,
    >;

    /// Whether the work that made this host call has been asked to stop.
    fn is_cancelled(&self) -> bool;

    /// How long the run has before its deadline, in nanoseconds.
    fn time_left(&self) -> Option<u64>;

    /// The task that made this host call, where that is known beforehand.
    open spec fn of_task(&self) -> Option<u64> {
        None
    }

    /// Which task made this host call.
    fn task(&self) -> (task: u64)
        ensures
            self.of_task() matches Some(known) ==> task == known,
    ;
}

/// The way back for a caller that has no program to go back to.
#[derive(Clone, Copy, Debug, PartialEq, Eq, Structural)]
pub struct NoReentry;

impl Reentry for NoReentry {
    fn call(&mut self, callee: &Value, _args: Vec<Value>) -> (result: Result<Value, RuntimeError>)
        ensures
            result matches Err(error) && error@ == crate::error::failure(
                "this host call cannot run "@ + crate::value::kind_of(callee@)
                    + ", because it was not made from a running program"@,
            ),
    {
        let mut message: String = "this host call cannot run ".to_owned();
        message.append(callee.type_text().as_str());
        message.append(", because it was not made from a running program");
        Err(RuntimeError::new(message))
    }

    fn call_until(&mut self, callee: &Value, args: Vec<Value>, _stop: &Cancellation) -> (result: Result<
        Value,
        RuntimeError,
    >)
        ensures
            result matches Err(error) && error@ == crate::error::failure(
                "this host call cannot run "@ + crate::value::kind_of(callee@)
                    + ", because it was not made from a running program"@,
            ),
    {
        self.call(callee, args)
    }

    fn is_cancelled(&self) -> (yes: bool)
        ensures
            !yes,
    {
        false
    }

    fn time_left(&self) -> (left: Option<u64>)
        ensures
            left is None,
    {
        None
    }

    open spec fn of_task(&self) -> Option<u64> {
        Some(ENTRY_TASK)
    }

    fn task(&self) -> (task: u64)
        ensures
            task == ENTRY_TASK,
    {
        ENTRY_TASK
    }
}

/// The set of capabilities granted at the execution boundary.
#[derive(Debug)]
pub struct Grants {
    granted: Names,
}

impl View for Grants {
    type V = Seq<Seq<char>>;

    closed spec fn view(&self) -> Seq<Seq<char>> {
        self.granted@
    }
}

impl Grants {
    /// These capabilities, and no others.
    pub fn new(names: Vec<String>) -> (grants: Grants)
        ensures
            crate::names::ascending(grants@),
            forall|x: Seq<char>| #[trigger]
                grants@.contains(x) <==> crate::names::texts(names@).contains(x),
    {
        let mut granted = Names::new();
        let mut i: usize = 0;
        let ghost all = crate::names::texts(names@);
        while i < names.len()
            invariant
                i <= names@.len(),
                all == crate::names::texts(names@),
                crate::names::ascending(granted@),
                forall|x: Seq<char>| #[trigger]
                    granted@.contains(x) <==> all.take(i as int).contains(x),
            decreases names@.len() - i,
        {
            granted.insert(names[i].clone());
            proof {
                let fewer = all.take(i as int);
                let more = all.take(i + 1);
                assert(more =~= fewer.push(names@[i as int]@));
                assert forall|x: Seq<char>| #[trigger] granted@.contains(x) <==> more.contains(
                    x,
                ) by {
                    if fewer.contains(x) {
                        let j = choose|j: int| 0 <= j < fewer.len() && fewer[j] == x;
                        assert(more[j] == x);
                    }
                    if x == names@[i as int]@ {
                        assert(more[i as int] == x);
                    }
                    if more.contains(x) {
                        let j = choose|j: int| 0 <= j < more.len() && more[j] == x;
                        if j < i {
                            assert(fewer[j] == x);
                        }
                    }
                }
            }
            i = i + 1;
        }
        proof {
            assert(all.take(i as int) =~= all);
        }
        Grants { granted }
    }

    /// Whether a capability is granted.
    pub fn allows(&self, capability: &str) -> (yes: bool)
        ensures
            yes == self@.contains(capability@),
    {
        self.granted.contains(capability)
    }

    /// Every capability granted, in order.
    pub fn iter(&self) -> (list: &Vec<String>)
        ensures
            crate::names::texts(list@) == self@,
            crate::names::ascending(self@),
    {
        self.granted.list()
    }
}

/// Where a run's grants came from, and so what has to change to widen them.
#[derive(Clone, Copy, Debug, PartialEq, Eq, Structural)]
pub enum GrantSource {
    /// The table a run reads when it starts.
    Config,
    /// The grants a built program carries.
    Sealed,
}

// -------------------------------------------------------------- callees

/// What one call is addressed to, mathematically: the module, the operation as
/// a trace names it, the handle it is made on, what has the operation, and
/// every operation that has.
pub ghost struct Called {
    pub module: Seq<char>,
    pub op: Seq<char>,
    pub receiver: Option<Datum>,
    pub owner: Seq<char>,
    pub known: Seq<Seq<char>>,
}

impl Called {
    /// The call as source writes it.
    pub open spec fn shown(self) -> Seq<char> {
        self.module + "."@ + self.op
    }

    /// The declared signature, qualified the way the call is named.
    pub open spec fn signature(self, declared: OperationSchema) -> Seq<char> {
        match crate::frame::layout::last_dot(self.op) {
            Some(at) => self.op.take(at) + "."@ + declared.signature_text(),
            None => declared.signature_text(),
        }
    }

    /// What a trace keeps of the arguments.
    pub open spec fn recorded(self, recording: bool, args: Seq<Datum>) -> Seq<Datum> {
        if !recording {
            Seq::empty()
        } else {
            match self.receiver {
                Some(handle) => seq![handle] + args,
                None => args,
            }
        }
    }
}

/// What one call is addressed to: a module's operation, or a handle's.
#[derive(Debug)]
struct Callee {
    module: String,
    op: String,
    receiver: Option<Value>,
    owner: String,
    known: Vec<String>,
}

impl View for Callee {
    type V = Called;

    closed spec fn view(&self) -> Called {
        Called {
            module: self.module@,
            op: self.op@,
            receiver: match self.receiver {
                Some(value) => Some(value@),
                None => None,
            },
            owner: self.owner@,
            known: crate::names::texts(self.known@),
        }
    }
}

/// The operations that exist, quoted, with commas between them.
pub open spec fn listed(known: Seq<Seq<char>>, n: int) -> Seq<char>
    decreases n,
{
    if n <= 0 {
        Seq::empty()
    } else if n == 1 {
        crate::text::quoted(known[0])
    } else {
        listed(known, n - 1) + ", "@ + crate::text::quoted(known[n - 1])
    }
}

impl Callee {
    /// The call as source writes it.
    fn shown(&self) -> (text: String)
        ensures
            text@ == self@.shown(),
    {
        crate::text::joined(self.module.as_str(), ".", self.op.as_str())
    }

    /// The operation's own name, without the resource that answers it.
    fn bare_op(&self) -> (text: String)
        ensures
            text@ == crate::frame::layout::short_name(self@.op),
    {
        let op = self.op.as_str();
        match find_last_dot(op) {
            Some(at) => {
                let total: usize = op.unicode_len();
                let bare = op.substring_char(at + 1, total);
                proof {
                    assert(bare@ =~= op@.skip(at + 1));
                }
                bare.to_owned()
            },
            None => self.op.clone(),
        }
    }

    /// The declared signature, qualified the way this callee is named.
    fn signature(&self, declared: &OperationSchema) -> (text: String)
        ensures
            text@ == self@.signature(*declared),
    {
        let op = self.op.as_str();
        match find_last_dot(op) {
            Some(at) => {
                let resource = op.substring_char(0, at);
                proof {
                    assert(resource@ =~= op@.take(at as int));
                }
                crate::text::joined(resource, ".", declared.signature().as_str())
            },
            None => declared.signature(),
        }
    }

    /// The operations that exist, quoted, with commas between them.
    fn listing(&self) -> (text: String)
        ensures
            text@ == listed(self@.known, self@.known.len() as int),
    {
        proof {
            reveal_strlit("");
            assert(""@ =~= Seq::<char>::empty());
        }
        let mut text: String = "".to_owned();
        let mut i: usize = 0;
        while i < self.known.len()
            invariant
                i <= self.known@.len(),
                text@ == listed(self@.known, i as int),
            decreases self.known@.len() - i,
        {
            if i > 0 {
                text.append(", ");
            }
            text.append(quote(self.known[i].as_str()).as_str());
            proof {
                assert(text@ =~= listed(self@.known, i + 1));
            }
            i = i + 1;
        }
        text
    }

    /// The arguments of a call as a trace keeps them, the handle it is made on
    /// first; and nothing where no trace is kept.
    fn record_call(&self, recording: bool, args: &Vec<Value>) -> (recorded: Vec<Value>)
        ensures
            crate::value::data(recorded@) == self@.recorded(recording, crate::value::data(args@)),
    {
        if !recording {
            let recorded: Vec<Value> = Vec::new();
            proof {
                assert(crate::value::data(recorded@) =~= Seq::<Datum>::empty());
            }
            return recorded;
        }
        let mut recorded: Vec<Value> = copy_all(args);
        match &self.receiver {
            None => {},
            Some(handle) => {
                let ghost were = crate::value::data(recorded@);
                let first = handle.copy();
                let ghost it = first@;
                recorded.insert(0, first);
                proof {
                    assert(crate::value::data(recorded@) =~= seq![it] + were);
                }
            },
        }
        recorded
    }
}

// --------------------------------------------------------------- events

/// How a traced call ended.
#[derive(Debug)]
pub enum HostOutcome {
    /// What the host answered.
    Value(Value),
    /// The message the host failed with.
    Error(String),
    /// The schema says that the answer is not written down.
    NotRecordable,
}

/// One call as a trace keeps it.
#[derive(Debug)]
pub struct HostCall {
    pub task: u64,
    pub module: String,
    pub op: String,
    pub capability: String,
    /// How long the host took, in nanoseconds.
    pub wait: u64,
    pub granted: bool,
    pub args: Vec<Value>,
    pub outcome: Option<HostOutcome>,
}

/// How a traced call ended, mathematically.
pub ghost enum Ending {
    Value(Datum),
    Error(Seq<char>),
    NotRecordable,
}

/// One call as a trace keeps it, mathematically.
pub ghost struct Event {
    pub task: u64,
    pub module: Seq<char>,
    pub op: Seq<char>,
    pub capability: Seq<char>,
    pub wait: u64,
    pub granted: bool,
    pub args: Seq<Datum>,
    pub outcome: Option<Ending>,
}

impl View for HostCall {
    type V = Event;

    open spec fn view(&self) -> Event {
        Event {
            task: self.task,
            module: self.module@,
            op: self.op@,
            capability: self.capability@,
            wait: self.wait,
            granted: self.granted,
            args: crate::value::data(self.args@),
            outcome: match self.outcome {
                None => None,
                Some(HostOutcome::Value(value)) => Some(Ending::Value(value@)),
                Some(HostOutcome::Error(message)) => Some(Ending::Error(message@)),
                Some(HostOutcome::NotRecordable) => Some(Ending::NotRecordable),
            },
        }
    }
}

/// What a call comes back with: its result, and the event a trace is given.
#[derive(Debug)]
pub struct Reply {
    pub result: Result<Value, RuntimeError>,
    pub event: Option<HostCall>,
}

impl Reply {
    /// The event of this reply, mathematically.
    pub open spec fn traced(self) -> Option<Event> {
        match self.event {
            Some(event) => Some(event@),
            None => None,
        }
    }

    /// The call failed so, and the trace is given this.
    pub open spec fn fails(self, failure: crate::error::Failure, event: Option<Event>) -> bool {
        &&& self.result matches Err(error) && error@ == failure
        &&& self.traced() == event
    }
}

// ---------------------------------------------------------------- gate

/// What stands at the boundary, mathematically: what every module declares,
/// the modules themselves, what is granted and by whom, whether a trace is
/// kept, the budget, and how many irreversible calls were let through.
pub ghost struct Boundary {
    pub schemas: Seq<ModuleSchema>,
    pub hosts: Seq<Box<dyn HostApi>>,
    pub granted: Seq<Seq<char>>,
    pub source: GrantSource,
    pub recording: bool,
    pub budget: Option<Budget>,
    pub writes: u64,
}

/// What the boundary says to a call.
pub ghost enum Gate {
    /// The capability is not granted.
    Denied(crate::error::Failure),
    /// The call does not keep to the schema.
    Refused(crate::error::Failure),
    /// The budget allows no more calls.
    Stopped(crate::error::Failure),
    /// The host may be called.
    Open,
}

/// The rule a host breaks by answering something else than it declares.
pub open spec fn host_keeps_its_schema() -> Seq<char> {
    "A host operation answers the type its Host API schema declares; the schema is one description shared by the compiler, runtime, and CLI."@
}

/// The rule a call breaks by passing something else than is declared.
pub open spec fn a_call_keeps_the_schema() -> Seq<char> {
    "A Host API call passes the argument types its operation's schema declares; the schema is one description shared by the compiler, runtime, and CLI."@
}

/// What a call without its capability reports.
pub open spec fn denial(called: Called, capability: Seq<char>, source: GrantSource) -> crate::error::Failure {
    crate::error::Failure {
        rule: Some(
            "Cove code has no ambient authority; the host grants capabilities at the execution boundary."@,
        ),
        help: Some(
            match source {
                GrantSource::Config => "add `"@ + capability
                    + "` to `allow` in the run's `cove.toml` table"@,
                GrantSource::Sealed =>
                    "this binary carries the capabilities it was built with; add `"@ + capability
                    + "` to `allow` in the run's `cove.toml` table and build it again"@,
            },
        ),
        outcome: RunOutcome::HostBoundary,
        denied_capability: Some(capability),
        ..crate::error::failure(
            "`"@ + called.shown() + "` requires the `"@ + capability
                + "` capability, which this run was not granted"@,
        )
    }
}

/// What a call of an operation that does not exist reports.
pub open spec fn unknown_operation(called: Called) -> crate::error::Failure {
    crate::error::Failure {
        help: Some(
            called.owner + " exposes "@ + (if called.known.len() == 0 {
                "no operations"@
            } else {
                listed(called.known, called.known.len() as int)
            }),
        ),
        outcome: RunOutcome::HostBoundary,
        ..crate::error::failure(
            called.owner + " has no operation `"@ + crate::frame::layout::short_name(called.op)
                + "`"@,
        )
    }
}

/// The help that quotes a declaration.
pub open spec fn declares(called: Called, declared: OperationSchema) -> Seq<char> {
    "the Host API schema declares `"@ + called.module + "."@ + called.signature(declared) + "`"@
}

/// What a call with the wrong number of arguments reports.
pub open spec fn wrong_arity(called: Called, declared: OperationSchema, argc: int) -> crate::error::Failure {
    crate::error::Failure {
        help: Some(declares(called, declared)),
        outcome: RunOutcome::HostBoundary,
        ..crate::error::failure(
            "`"@ + called.shown() + "` takes "@ + declared.arity_text() + ", but "@
                + crate::text::digits(argc as nat) + " were given"@,
        )
    }
}

/// What a call with an argument that is not admitted reports.
pub open spec fn wrong_argument(
    called: Called,
    declared: OperationSchema,
    position: int,
    what: crate::schema::Disagreement,
) -> crate::error::Failure {
    crate::error::Failure {
        rule: Some(a_call_keeps_the_schema()),
        help: Some(declares(called, declared)),
        outcome: RunOutcome::HostBoundary,
        ..crate::error::failure(
            crate::schema::complaint(what, called.shown(), Part::Argument(position as usize)),
        )
    }
}

/// What a host's answer that is not admitted is reported as.
pub open spec fn wrong_answer(
    called: Called,
    declared: OperationSchema,
    what: crate::schema::Disagreement,
) -> crate::error::Failure {
    crate::error::Failure {
        rule: Some(host_keeps_its_schema()),
        help: Some(declares(called, declared)),
        outcome: RunOutcome::HostBoundary,
        ..crate::error::failure(
            crate::schema::complaint(what, called.shown(), Part::Result),
        )
    }
}

/// The first argument, from one on, that its declaration does not admit: its
/// position, counted from one, and where it disagrees.
pub open spec fn unadmitted(declared: OperationSchema, args: Seq<Datum>, from: int) -> Option<
    (int, crate::schema::Disagreement),
>
    decreases args.len() - from,
{
    if from >= args.len() {
        None
    } else {
        match declared.declared_param(from) {
            None => None,
            Some(ty) => match crate::schema::disagreement(ty, args[from], Seq::empty()) {
                Some(what) => Some((from + 1, what)),
                None => unadmitted(declared, args, from + 1),
            },
        }
    }
}

/// A budget after one more call of a host.
pub open spec fn charged(budget: Option<Budget>) -> Option<Budget> {
    match budget {
        Some(b) => Some(
            Budget { host_calls: crate::budget::tallied(b.host_calls as int, 1) as u64, ..b },
        ),
        None => None,
    }
}

/// Why a budget stops a call, if it does.
pub open spec fn stopped_by(budget: Option<Budget>) -> Option<crate::error::Failure> {
    match budget {
        None => None,
        Some(b) => if b.cancelled {
            Some(charged(budget)->0.told(crate::budget::Stopped::Cancelled))
        } else if Budget::over(
            crate::budget::tallied(b.host_calls as int, 1),
            b.limits.max_host_calls,
        ) {
            Some(charged(budget)->0.told(crate::budget::Stopped::HostCalls))
        } else {
            None
        },
    }
}

/// What the boundary says to a call: the grant first, then whether the
/// operation exists, how many arguments it takes and which, and the budget
/// last.
pub open spec fn gate(
    boundary: Boundary,
    called: Called,
    declared: Option<OperationSchema>,
    capability: Seq<char>,
    args: Seq<Datum>,
) -> Gate {
    if !boundary.granted.contains(capability) {
        Gate::Denied(denial(called, capability, boundary.source))
    } else {
        match declared {
            None => Gate::Refused(unknown_operation(called)),
            Some(op) => if !op.takes(args.len() as int) {
                Gate::Refused(wrong_arity(called, op, args.len() as int))
            } else {
                match unadmitted(op, args, 0) {
                    Some(found) => Gate::Refused(wrong_argument(called, op, found.0, found.1)),
                    None => match stopped_by(boundary.budget) {
                        Some(failure) => Gate::Stopped(failure),
                        None => Gate::Open,
                    },
                }
            },
        }
    }
}

/// The event of a call that never reached its host.
pub open spec fn refused_event(
    task: u64,
    called: Called,
    capability: Seq<char>,
    recording: bool,
    args: Seq<Datum>,
) -> Event {
    Event {
        task,
        module: called.module,
        op: called.op,
        capability,
        wait: 0,
        granted: false,
        args: called.recorded(recording, args),
        outcome: None,
    }
}

/// The event of a call that reached its host.
pub open spec fn answered_event(
    task: u64,
    called: Called,
    capability: Seq<char>,
    recorded: Seq<Datum>,
    recordable: bool,
    result: Result<Value, RuntimeError>,
    wait: u64,
) -> Event {
    Event {
        task,
        module: called.module,
        op: called.op,
        capability,
        wait,
        granted: true,
        args: recorded,
        outcome: Some(
            if !recordable {
                Ending::NotRecordable
            } else {
                match result {
                    Ok(value) => Ending::Value(value@),
                    Err(error) => Ending::Error(error@.message),
                }
            },
        ),
    }
}

/// The first argument that the operation's declaration does not admit, and its
/// position, counted from one.
fn undeclared_argument(declared: &OperationSchema, args: &Vec<Value>) -> (found: Option<
    (usize, Mismatch),
>)
    ensures
        match found {
            Some((position, what)) => unadmitted(
                *declared,
                crate::value::data(args@),
                0,
            ) == Some((position as int, what@)),
            None => unadmitted(*declared, crate::value::data(args@), 0) is None,
        },
{
    let ghost given = crate::value::data(args@);
    let mut i: usize = 0;
    while i < args.len()
        invariant
            i <= args@.len(),
            given == crate::value::data(args@),
            unadmitted(*declared, given, i as int) == unadmitted(*declared, given, 0),
        decreases args@.len() - i,
    {
        match declared.param(i) {
            None => {
                return None;
            },
            Some(ty) => match ty.admits(&args[i]) {
                Err(what) => {
                    return Some((i + 1, what));
                },
                Ok(_) => {},
            },
        }
        i = i + 1;
    }
    None
}

/// The help that quotes a declaration.
fn quoted_declaration(callee: &Callee, declared: &OperationSchema) -> (text: String)
    ensures
        text@ == declares(callee@, *declared),
{
    let mut text: String = "the Host API schema declares `".to_owned();
    text.append(callee.module.as_str());
    text.append(".");
    text.append(callee.signature(declared).as_str());
    text.append("`");
    text
}

/// What a call without its capability reports.
fn denied(callee: &Callee, capability: &str, source: GrantSource) -> (error: RuntimeError)
    ensures
        error@ == denial(callee@, capability@, source),
{
    let mut message: String = "`".to_owned();
    message.append(callee.shown().as_str());
    message.append("` requires the `");
    message.append(capability);
    message.append("` capability, which this run was not granted");
    let help: String = match source {
        GrantSource::Config => crate::text::joined(
            "add `",
            capability,
            "` to `allow` in the run's `cove.toml` table",
        ),
        GrantSource::Sealed => crate::text::joined(
            "this binary carries the capabilities it was built with; add `",
            capability,
            "` to `allow` in the run's `cove.toml` table and build it again",
        ),
    };
    RuntimeError::new(message).with_rule(
        "Cove code has no ambient authority; the host grants capabilities at the execution boundary.".to_owned(),
    ).with_help(help).with_outcome(RunOutcome::HostBoundary).with_denied_capability(
        capability.to_owned(),
    )
}

/// What a call of an operation that does not exist reports.
fn no_such_operation(callee: &Callee) -> (error: RuntimeError)
    ensures
        error@ == unknown_operation(callee@),
{
    let mut message: String = callee.owner.clone();
    message.append(" has no operation `");
    message.append(callee.bare_op().as_str());
    message.append("`");
    let mut help: String = callee.owner.clone();
    help.append(" exposes ");
    if callee.known.len() == 0 {
        help.append("no operations");
    } else {
        help.append(callee.listing().as_str());
    }
    RuntimeError::new(message).with_help(help).with_outcome(RunOutcome::HostBoundary)
}

/// Why a call does not keep to the schema, if it does not.
fn misuse(callee: &Callee, declared: Option<&OperationSchema>, args: &Vec<Value>) -> (found: Option<
    RuntimeError,
>)
    ensures
        ({
            let op = match declared {
                Some(op) => Some(*op),
                None => None,
            };
            let given = crate::value::data(args@);
            match op {
                None => found matches Some(error) && error@ == unknown_operation(callee@),
                Some(op) => if !op.takes(given.len() as int) {
                    found matches Some(error) && error@ == wrong_arity(
                        callee@,
                        op,
                        given.len() as int,
                    )
                } else {
                    match unadmitted(op, given, 0) {
                        Some(what) => found matches Some(error) && error@ == wrong_argument(
                            callee@,
                            op,
                            what.0,
                            what.1,
                        ),
                        None => found is None,
                    }
                },
            }
        }),
{
    let op = match declared {
        None => {
            return Some(no_such_operation(callee));
        },
        Some(op) => op,
    };
    if !op.accepts(args.len()) {
        let mut message: String = "`".to_owned();
        message.append(callee.shown().as_str());
        message.append("` takes ");
        message.append(op.expected_arity().as_str());
        message.append(", but ");
        message.append(decimal(args.len() as u64).as_str());
        message.append(" were given");
        return Some(
            RuntimeError::new(message).with_help(quoted_declaration(callee, op)).with_outcome(
                RunOutcome::HostBoundary,
            ),
        );
    }
    match undeclared_argument(op, args) {
        Some((position, what)) => {
            let message: String = what.describe(
                callee.shown().as_str(),
                Part::Argument(position),
            );
            Some(
                RuntimeError::new(message).with_rule(
                    "A Host API call passes the argument types its operation's schema declares; the schema is one description shared by the compiler, runtime, and CLI.".to_owned(),
                ).with_help(quoted_declaration(callee, op)).with_outcome(
                    RunOutcome::HostBoundary,
                ),
            )
        },
        None => None,
    }
}

// --------------------------------------------------------------- lookups

/// The first module called `name`.
pub open spec fn the_module(schemas: Seq<ModuleSchema>, name: Seq<char>) -> Option<ModuleSchema> {
    if exists|i: int| crate::schema::module_at(schemas, name, i) {
        Some(schemas[choose|i: int| crate::schema::module_at(schemas, name, i)])
    } else {
        None
    }
}

proof fn lemma_the_module(schemas: Seq<ModuleSchema>, name: Seq<char>, at: int)
    requires
        crate::schema::module_at(schemas, name, at),
    ensures
        the_module(schemas, name) == Some(schemas[at]),
{
    let other = choose|i: int| crate::schema::module_at(schemas, name, i);
    if other < at {
        assert(schemas[other].name@ != name);
    }
    if at < other {
        assert(schemas[at].name@ != name);
    }
}

/// The first operation called `name`.
pub open spec fn the_operation(operations: Seq<OperationSchema>, name: Seq<char>) -> Option<
    OperationSchema,
> {
    if exists|i: int| crate::schema::operation_at(operations, name, i) {
        Some(operations[choose|i: int| crate::schema::operation_at(operations, name, i)])
    } else {
        None
    }
}

proof fn lemma_the_operation(operations: Seq<OperationSchema>, name: Seq<char>, at: int)
    requires
        crate::schema::operation_at(operations, name, at),
    ensures
        the_operation(operations, name) == Some(operations[at]),
{
    let other = choose|i: int| crate::schema::operation_at(operations, name, i);
    if other < at {
        assert(operations[other].name@ != name);
    }
    if at < other {
        assert(operations[at].name@ != name);
    }
}

/// The first kind of resource called `name` stands here.
pub open spec fn resource_at(resources: Seq<ResourceSchema>, name: Seq<char>, at: int) -> bool {
    &&& 0 <= at < resources.len()
    &&& resources[at].name@ == name
    &&& forall|j: int| 0 <= j < at ==> #[trigger] resources[j].name@ != name
}

/// The first kind of resource called `name`.
pub open spec fn the_resource(resources: Seq<ResourceSchema>, name: Seq<char>) -> Option<
    ResourceSchema,
> {
    if exists|i: int| resource_at(resources, name, i) {
        Some(resources[choose|i: int| resource_at(resources, name, i)])
    } else {
        None
    }
}

/// Where the first kind of resource called `name` stands.
fn find_resource(resources: &Vec<ResourceSchema>, name: &str) -> (found: Option<usize>)
    ensures
        match found {
            Some(at) => resource_at(resources@, name@, at as int) && the_resource(
                resources@,
                name@,
            ) == Some(resources@[at as int]),
            None => the_resource(resources@, name@) is None,
        },
{
    let mut at: usize = 0;
    while at < resources.len()
        invariant
            at <= resources@.len(),
            forall|j: int| 0 <= j < at ==> #[trigger] resources@[j].name@ != name@,
        decreases resources@.len() - at,
    {
        if same(resources[at].name.as_str(), name) {
            proof {
                assert(resource_at(resources@, name@, at as int));
                let other = choose|i: int| resource_at(resources@, name@, i);
                if other < at {
                    assert(resources@[other].name@ != name@);
                }
                if at < other {
                    assert(resources@[at as int].name@ != name@);
                }
            }
            return Some(at);
        }
        at = at + 1;
    }
    None
}

/// The first declared type called `name` stands here.
pub open spec fn type_at(types: Seq<TypeSchema>, name: Seq<char>, at: int) -> bool {
    &&& 0 <= at < types.len()
    &&& types[at].name@ == name
    &&& forall|j: int| 0 <= j < at ==> #[trigger] types[j].name@ != name
}

/// The names of some operations.
pub open spec fn operation_names(operations: Seq<OperationSchema>) -> Seq<Seq<char>> {
    Seq::new(operations.len(), |i: int| operations[i].name@)
}

/// The names of some operations.
fn names_of(operations: &Vec<OperationSchema>) -> (names: Vec<String>)
    ensures
        crate::names::texts(names@) == operation_names(operations@),
{
    let mut names: Vec<String> = Vec::new();
    let mut i: usize = 0;
    while i < operations.len()
        invariant
            i <= operations@.len(),
            names@.len() == i,
            forall|j: int| 0 <= j < i ==> (#[trigger] names@[j])@ == operations@[j].name@,
        decreases operations@.len() - i,
    {
        names.push(operations[i].name.clone());
        i = i + 1;
    }
    proof {
        assert(crate::names::texts(names@) =~= operation_names(operations@));
    }
    names
}

/// The capability a call needs: the operation's own, or the module's where
/// there is no such operation.
pub open spec fn needed(schema: ModuleSchema, declared: Option<OperationSchema>) -> Seq<char> {
    match declared {
        Some(op) => op.capability@,
        None => schema.capability@,
    }
}

/// A call of a module's operation.
pub open spec fn module_call(schema: ModuleSchema, module: Seq<char>, op: Seq<char>) -> Called {
    Called {
        module,
        op,
        receiver: None,
        owner: "host module `"@ + module + "`"@,
        known: operation_names(schema.operations@),
    }
}

/// A call of a handle's operation.
pub open spec fn resource_call(
    resource: ResourceSchema,
    handle: ResourceHandle,
    op: Seq<char>,
) -> Called {
    Called {
        module: handle.module@,
        op: handle.kind_name@ + "."@ + op,
        receiver: Some(Value::Resource(handle)@),
        owner: "`"@ + (handle.module@ + "."@ + handle.kind_name@) + "`"@,
        known: operation_names(resource.operations@),
    }
}

/// What a call into a module that does not exist reports.
pub open spec fn unknown_module(module: Seq<char>) -> crate::error::Failure {
    crate::error::Failure {
        outcome: RunOutcome::HostBoundary,
        ..crate::error::failure("unknown host module `"@ + module + "`"@)
    }
}

/// What a call on a handle of a module that does not exist reports.
pub open spec fn unknown_issuer(handle: ResourceHandle) -> crate::error::Failure {
    crate::error::Failure {
        help: Some(
            "`"@ + (handle.module@ + "."@ + handle.kind_name@)
                + "` names a resource of a host module this run has none of"@,
        ),
        ..unknown_module(handle.module@)
    }
}

/// What a call on a handle of a kind its module does not declare reports.
pub open spec fn unknown_resource(handle: ResourceHandle) -> crate::error::Failure {
    crate::error::Failure {
        outcome: RunOutcome::HostBoundary,
        ..crate::error::failure(
            "host module `"@ + handle.module@ + "` issues no `"@ + handle.kind_name@
                + "` handles"@,
        )
    }
}

// -------------------------------------------------------------- dispatch

/// What a call that does not reach its host comes back with, and nothing where
/// it does reach it.
pub open spec fn turned_away(
    boundary: Boundary,
    task: u64,
    called: Called,
    declared: Option<OperationSchema>,
    capability: Seq<char>,
    args: Seq<Datum>,
) -> Option<(crate::error::Failure, Option<Event>)> {
    let event = refused_event(task, called, capability, boundary.recording, args);
    match gate(boundary, called, declared, capability, args) {
        Gate::Denied(failure) => Some((failure, Some(event))),
        Gate::Refused(failure) => Some((failure, None)),
        Gate::Stopped(failure) => Some((failure, Some(event))),
        Gate::Open => None,
    }
}

/// The boundary after a call was let in or turned away: a call that keeps to
/// the schema is charged, and one that is let in and cannot be undone is
/// counted.
pub open spec fn after_entry(
    boundary: Boundary,
    called: Called,
    declared: Option<OperationSchema>,
    capability: Seq<char>,
    args: Seq<Datum>,
) -> Boundary {
    match gate(boundary, called, declared, capability, args) {
        Gate::Denied(_) => boundary,
        Gate::Refused(_) => boundary,
        Gate::Stopped(_) => Boundary { budget: charged(boundary.budget), ..boundary },
        Gate::Open => Boundary {
            budget: charged(boundary.budget),
            writes: if declared->0.effect == Effect::IrreversibleWrite {
                crate::host::one_more(boundary.writes)
            } else {
                boundary.writes
            },
            ..boundary
        },
    }
}

/// The next count of a counter that starts again after its last.
pub open spec fn one_more(count: u64) -> u64 {
    if count == u64::MAX {
        0
    } else {
        (count + 1) as u64
    }
}

impl Reply {
    /// The reply to a call whose host answered so.
    pub open spec fn settles(
        self,
        recording: bool,
        task: u64,
        called: Called,
        declared: OperationSchema,
        capability: Seq<char>,
        recorded: Seq<Datum>,
        answer: Result<Value, RuntimeError>,
        wait: u64,
    ) -> bool {
        &&& self.traced() == (if recording {
            Some(
                answered_event(
                    task,
                    called,
                    capability,
                    recorded,
                    declared.recordable,
                    answer,
                    wait,
                ),
            )
        } else {
            None
        })
        &&& match answer {
            Err(_) => self.result == answer,
            Ok(value) => match crate::schema::disagreement(
                declared.result,
                value@,
                Seq::empty(),
            ) {
                None => self.result == answer,
                Some(what) => self.result matches Err(error) && error@ == wrong_answer(
                    called,
                    declared,
                    what,
                ),
            },
        }
    }
}

/// A call that was let in and whose host has not answered yet.
#[derive(Debug)]
pub struct Ticket {
    task: u64,
    callee: Callee,
    capability: String,
    recorded: Vec<Value>,
    at: usize,
    resource: Option<usize>,
    operation: usize,
}

impl Ticket {
    /// The task that made the call.
    pub closed spec fn task(self) -> u64 {
        self.task
    }

    /// What the call is addressed to.
    pub closed spec fn called(self) -> Called {
        self.callee@
    }

    /// The capability the call needs.
    pub closed spec fn capability(self) -> Seq<char> {
        self.capability@
    }

    /// What a trace keeps of the arguments.
    pub closed spec fn recorded(self) -> Seq<Datum> {
        crate::value::data(self.recorded@)
    }

    /// The ticket is for an operation these modules declare.
    pub closed spec fn fits(self, schemas: Seq<ModuleSchema>) -> bool {
        &&& self.at < schemas.len()
        &&& match self.resource {
            None => self.operation < schemas[self.at as int].operations@.len(),
            Some(kind) => kind < schemas[self.at as int].resources@.len() && self.operation
                < schemas[self.at as int].resources@[kind as int].operations@.len(),
        }
    }

    /// The operation the call is of.
    pub closed spec fn declared(self, schemas: Seq<ModuleSchema>) -> OperationSchema {
        match self.resource {
            None => schemas[self.at as int].operations@[self.operation as int],
            Some(kind) => schemas[self.at as int].resources@[kind as int].operations@[self.operation
                as int],
        }
    }

    /// The place of the module the call is addressed to, among those
    /// registered.
    pub closed spec fn place(self) -> int {
        self.at as int
    }

    /// The place of the module the call is addressed to, among those
    /// registered.
    pub fn module(&self) -> (at: usize)
        ensures
            at == self.place(),
    {
        self.at
    }

    /// The ticket of a call.
    pub open spec fn is_for(
        self,
        boundary: Boundary,
        task: u64,
        called: Called,
        declared: OperationSchema,
        capability: Seq<char>,
        args: Seq<Datum>,
    ) -> bool {
        &&& self.task() == task
        &&& self.called() == called
        &&& self.capability() == capability
        &&& self.recorded() == called.recorded(boundary.recording, args)
        &&& self.fits(boundary.schemas)
        &&& self.declared(boundary.schemas) == declared
        &&& crate::schema::module_at(boundary.schemas, called.module, self.place())
    }
}

/// One registered module.
struct Host<M> {
    module: M,
}

impl<M> Host<M> {
    fn of(module: M) -> (host: Host<M>)
        ensures
            host.module == module,
    {
        Host { module }
    }
}

/// Holds every host module available to a run, and the grants that gate them.
///
/// This is the one way from a program to what a host offers, so it is where a
/// call is charged to the budget and described for a trace.
pub struct HostRegistry {
    schemas: Vec<ModuleSchema>,
    hosts: Vec<Host<Box<dyn HostApi>>>,
    grants: Grants,
    grant_source: GrantSource,
    recording: bool,
    budget: Option<Budget>,
    irreversible_writes: u64,
}

impl View for HostRegistry {
    type V = Boundary;

    closed spec fn view(&self) -> Boundary {
        Boundary {
            schemas: self.schemas@,
            hosts: Seq::new(self.hosts@.len(), |i: int| self.hosts@[i].module),
            granted: self.grants@,
            source: self.grant_source,
            recording: self.recording,
            budget: self.budget,
            writes: self.irreversible_writes,
        }
    }
}

impl HostRegistry {
    /// Every module that declared itself is there.
    pub open spec fn wf(self) -> bool {
        self@.hosts.len() == self@.schemas.len()
    }

    /// Asks the boundary about a call, and counts and charges it.
    fn dispatch(
        &mut self,
        task: u64,
        callee: Callee,
        at: usize,
        resource: Option<usize>,
        operation: Option<usize>,
        capability: String,
        args: &Vec<Value>,
        Ghost(declared): Ghost<Option<OperationSchema>>,
    ) -> (result: Result<Ticket, Reply>)
        requires
            old(self).wf(),
            crate::schema::module_at(old(self)@.schemas, callee@.module, at as int),
            match resource {
                None => true,
                Some(kind) => kind < old(self)@.schemas[at as int].resources@.len(),
            },
            match operation {
                None => declared is None,
                Some(k) => match resource {
                    None => k < old(self)@.schemas[at as int].operations@.len() && declared
                        == Some(old(self)@.schemas[at as int].operations@[k as int]),
                    Some(kind) => k
                        < old(self)@.schemas[at as int].resources@[kind as int].operations@.len()
                        && declared == Some(
                        old(self)@.schemas[at as int].resources@[kind as int].operations@[k as int],
                    ),
                },
            },
        ensures
            final(self).wf(),
            final(self)@ == after_entry(
                old(self)@,
                callee@,
                declared,
                capability@,
                crate::value::data(args@),
            ),
            match turned_away(
                old(self)@,
                task,
                callee@,
                declared,
                capability@,
                crate::value::data(args@),
            ) {
                Some((failure, event)) => result matches Err(reply) && reply.fails(failure, event),
                None => result matches Ok(ticket) && ticket.is_for(
                    old(self)@,
                    task,
                    callee@,
                    declared->0,
                    capability@,
                    crate::value::data(args@),
                ) && ticket.place() == at,
            },
    {
        let ghost before = self@;
        let ghost given = crate::value::data(args@);
        if !self.grants.allows(capability.as_str()) {
            let error = denied(&callee, capability.as_str(), self.grant_source);
            let recorded = callee.record_call(self.recording, args);
            let event = HostCall {
                task,
                module: callee.module.clone(),
                op: callee.op.clone(),
                capability: capability.clone(),
                wait: 0,
                granted: false,
                args: recorded,
                outcome: None,
            };
            return Err(Reply { result: Err(error), event: Some(event) });
        }
        let op: Option<&OperationSchema> = match operation {
            None => None,
            Some(k) => match resource {
                None => Some(&self.schemas[at].operations[k]),
                Some(kind) => Some(&self.schemas[at].resources[kind].operations[k]),
            },
        };
        match misuse(&callee, op, args) {
            Some(error) => {
                return Err(Reply { result: Err(error), event: None });
            },
            None => {},
        }
        let counts: bool = match op {
            Some(op) => match op.effect {
                Effect::IrreversibleWrite => true,
                _ => false,
            },
            None => false,
        };
        let mut stop: Option<RuntimeError> = None;
        let mut budget: Option<Budget> = None;
        std::mem::swap(&mut budget, &mut self.budget);
        match budget {
            None => {},
            Some(b) => {
                let mut b = b;
                match b.charge_host_call() {
                    Ok(_) => {},
                    Err(stopped) => {
                        stop = Some(b.to_runtime_error(stopped));
                    },
                }
                self.budget = Some(b);
            },
        }
        let recorded = callee.record_call(self.recording, args);
        match stop {
            Some(error) => {
                let event = HostCall {
                    task,
                    module: callee.module.clone(),
                    op: callee.op.clone(),
                    capability: capability.clone(),
                    wait: 0,
                    granted: false,
                    args: recorded,
                    outcome: None,
                };
                Err(Reply { result: Err(error), event: Some(event) })
            },
            None => {
                if counts {
                    self.irreversible_writes = if self.irreversible_writes == u64::MAX {
                        0
                    } else {
                        self.irreversible_writes + 1
                    };
                }
                let operation: usize = match operation {
                    Some(k) => k,
                    None => 0,
                };
                Ok(Ticket { task, callee, capability, recorded, at, resource, operation })
            },
        }
    }
}

/// The places of the first module of each name, among the first `count`.
pub open spec fn first_of_each(schemas: Seq<ModuleSchema>, count: int) -> Seq<int>
    decreases count,
{
    if count <= 0 {
        Seq::empty()
    } else if crate::schema::module_at(schemas, schemas[count - 1].name@, count - 1) {
        first_of_each(schemas, count - 1).push(count - 1)
    } else {
        first_of_each(schemas, count - 1)
    }
}

/// A module that exposes an operation.
pub open spec fn exposes(schema: ModuleSchema, op: Seq<char>) -> bool {
    !crate::schema::no_operation(schema.operations@, op)
}

/// The first module that exposes an operation stands here.
pub open spec fn exposed_at(schemas: Seq<ModuleSchema>, op: Seq<char>, at: int) -> bool {
    &&& 0 <= at < schemas.len()
    &&& exposes(schemas[at], op)
    &&& forall|j: int| 0 <= j < at ==> !exposes(#[trigger] schemas[j], op)
}

/// The declared operation `module.op`.
pub open spec fn declared_operation(
    schemas: Seq<ModuleSchema>,
    module: Seq<char>,
    op: Seq<char>,
) -> Option<OperationSchema> {
    match the_module(schemas, module) {
        Some(schema) => the_operation(schema.operations@, op),
        None => None,
    }
}

/// The moment a clock of this machine shows.
#[verifier::external_type_specification]
#[verifier::external_body]
pub struct ExInstant(std::time::Instant);

/// The moment now.
///
/// This is `std::time::Instant::now`. Nothing is claimed of it.
#[verifier::external_body]
pub(crate) fn now() -> std::time::Instant {
    std::time::Instant::now()
}

/// How many nanoseconds have passed since a moment.
///
/// This is `std::time::Instant::elapsed`, as a number. Nothing is claimed of
/// it.
#[verifier::external_body]
pub(crate) fn nanoseconds_since(started: &std::time::Instant) -> u64 {
    started.elapsed().as_nanos() as u64
}

impl HostRegistry {
    /// A registry of no modules, with these grants.
    pub fn new(grants: Grants) -> (registry: HostRegistry)
        ensures
            registry.wf(),
            registry@ == (Boundary {
                schemas: Seq::empty(),
                hosts: Seq::empty(),
                granted: grants@,
                source: GrantSource::Config,
                recording: false,
                budget: None,
                writes: 0,
            }),
    {
        let registry = HostRegistry {
            schemas: Vec::new(),
            hosts: Vec::new(),
            grants,
            grant_source: GrantSource::Config,
            recording: false,
            budget: None,
            irreversible_writes: 0,
        };
        proof {
            assert(registry@.hosts =~= Seq::empty());
        }
        registry
    }

    /// Registers a module under what it declares about itself.
    pub fn register(&mut self, module: Box<dyn HostApi>)
        requires
            old(self).wf(),
        ensures
            final(self).wf(),
            exists|schema: ModuleSchema| #[trigger]
                module.declares(schema) && final(self)@ == (Boundary {
                    schemas: old(self)@.schemas.push(schema),
                    hosts: final(self)@.hosts,
                    ..old(self)@
                }),
            final(self)@.hosts.drop_last() == old(self)@.hosts,
            final(self)@.hosts.last() == module,
    {
        let host = Host::of(module);
        let schema = host.module.module_schema();
        self.schemas.push(schema);
        self.hosts.push(host);
        proof {
            assert(self@.hosts.drop_last() =~= old(self)@.hosts);
        }
    }

    /// Registers a module under a declaration.
    pub fn register_as(&mut self, schema: ModuleSchema, module: Box<dyn HostApi>)
        requires
            old(self).wf(),
        ensures
            final(self).wf(),
            final(self)@ == (Boundary {
                schemas: old(self)@.schemas.push(schema),
                hosts: final(self)@.hosts,
                ..old(self)@
            }),
            final(self)@.hosts.drop_last() == old(self)@.hosts,
            final(self)@.hosts.last() == module,
    {
        let host = Host::of(module);
        self.schemas.push(schema);
        self.hosts.push(host);
        proof {
            assert(self@.hosts.drop_last() =~= old(self)@.hosts);
        }
    }

    /// What is granted.
    pub fn grants(&self) -> (grants: &Grants)
        ensures
            grants@ == self@.granted,
    {
        &self.grants
    }

    /// Says where the grants came from, which a refused call tells the reader
    /// to change.
    pub fn set_grant_source(&mut self, source: GrantSource)
        ensures
            final(self)@ == (Boundary { source, ..old(self)@ }),
    {
        self.grant_source = source;
    }

    /// Whether a module of this name is registered.
    pub fn contains(&self, name: &str) -> (yes: bool)
        ensures
            yes == the_module(self@.schemas, name@) is Some,
    {
        match find_module(&self.schemas, name) {
            Some(at) => {
                proof {
                    lemma_the_module(self.schemas@, name@, at as int);
                }
                true
            },
            None => false,
        }
    }

    /// Says whether anything reads what calls are described as.
    pub fn set_trace(&mut self, recording: bool)
        ensures
            final(self)@ == (Boundary { recording, ..old(self)@ }),
    {
        self.recording = recording;
    }

    /// Installs the budget every call is charged to.
    pub fn set_budget(&mut self, budget: Budget)
        ensures
            final(self)@ == (Boundary { budget: Some(budget), ..old(self)@ }),
    {
        self.budget = Some(budget);
    }

    /// Installs a budget in place of the one there is, or takes it away.
    pub fn replace_budget(&mut self, budget: Option<Budget>)
        ensures
            final(self)@ == (Boundary { budget, ..old(self)@ }),
    {
        self.budget = budget;
    }

    /// The budget, as it stands.
    pub fn budget(&self) -> (budget: Option<Budget>)
        ensures
            budget == self@.budget,
    {
        self.budget
    }

    /// The budget, if there is one.
    pub fn with_budget(&mut self) -> (budget: Option<&mut Budget>)
        ensures
            match budget {
                Some(b) => old(self)@.budget == Some(*b) && final(self)@ == (Boundary {
                    budget: Some(*final(b)),
                    ..old(self)@
                }),
                None => old(self)@.budget is None && final(self)@ == old(self)@,
            },
    {
        match &mut self.budget {
            Some(b) => Some(b),
            None => None,
        }
    }

    /// How many calls were let through that cannot be undone. A call its host
    /// answered with a failure counts too.
    pub fn irreversible_writes(&self) -> (count: u64)
        ensures
            count == self@.writes,
    {
        self.irreversible_writes
    }

    /// What each registered module declares: of two modules of one name the
    /// first, which is the one a call reaches.
    pub fn module_schemas(&self) -> (list: Vec<&ModuleSchema>)
        ensures
            list@.len() == first_of_each(self@.schemas, self@.schemas.len() as int).len(),
            forall|k: int|
                0 <= k < list@.len() ==> *(#[trigger] list@[k]) == self@.schemas[first_of_each(
                    self@.schemas,
                    self@.schemas.len() as int,
                )[k]],
    {
        let mut list: Vec<&ModuleSchema> = Vec::new();
        let mut i: usize = 0;
        while i < self.schemas.len()
            invariant
                i <= self.schemas@.len(),
                list@.len() == first_of_each(self@.schemas, i as int).len(),
                forall|k: int|
                    0 <= k < list@.len() ==> *(#[trigger] list@[k]) == self@.schemas[first_of_each(
                        self@.schemas,
                        i as int,
                    )[k]],
            decreases self.schemas@.len() - i,
        {
            let ghost were = list@;
            match find_module(&self.schemas, self.schemas[i].name.as_str()) {
                Some(at) => {
                    proof {
                        let name = self@.schemas[i as int].name@;
                        assert(at <= i) by {
                            if at > i {
                                assert(self@.schemas[i as int].name@ != name);
                            }
                        }
                        assert((at == i) == crate::schema::module_at(
                            self@.schemas,
                            name,
                            i as int,
                        )) by {
                            if at < i && crate::schema::module_at(self@.schemas, name, i as int) {
                                assert(self@.schemas[at as int].name@ != name);
                            }
                        }
                    }
                    if at == i {
                        list.push(&self.schemas[i]);
                        proof {
                            assert forall|k: int| 0 <= k < list@.len() implies *(
                            #[trigger] list@[k]) == self@.schemas[first_of_each(
                                self@.schemas,
                                i + 1,
                            )[k]] by {
                                if k < were.len() {
                                    assert(list@[k] == were[k]);
                                }
                            }
                        }
                    }
                },
                None => {
                    proof {
                        assert(self@.schemas[i as int].name@ != self@.schemas[i as int].name@);
                    }
                },
            }
            i = i + 1;
        }
        list
    }

    /// The name of the first module that exposes an operation.
    pub fn module_for_operation(&self, op: &str) -> (name: Option<&String>)
        ensures
            match name {
                Some(name) => exists|at: int|
                    #![trigger self@.schemas[at]]
                    exposed_at(self@.schemas, op@, at) && *name == self@.schemas[at].name,
                None => forall|i: int|
                    0 <= i < self@.schemas.len() ==> !exposes(#[trigger] self@.schemas[i], op@),
            },
    {
        let mut i: usize = 0;
        while i < self.schemas.len()
            invariant
                i <= self.schemas@.len(),
                forall|j: int| 0 <= j < i ==> !exposes(#[trigger] self@.schemas[j], op@),
            decreases self.schemas@.len() - i,
        {
            match find_operation(&self.schemas[i].operations, op) {
                Some(_) => {
                    proof {
                        assert(exposed_at(self@.schemas, op@, i as int));
                    }
                    return Some(&self.schemas[i].name);
                },
                None => {},
            }
            i = i + 1;
        }
        None
    }

    /// What `module.op` declares, if both exist.
    pub fn schema_for(&self, module: &str, op: &str) -> (declared: Option<&OperationSchema>)
        ensures
            match declared {
                Some(d) => declared_operation(self@.schemas, module@, op@) == Some(*d),
                None => declared_operation(self@.schemas, module@, op@) is None,
            },
    {
        let at = match find_module(&self.schemas, module) {
            Some(at) => at,
            None => {
                return None;
            },
        };
        proof {
            lemma_the_module(self.schemas@, module@, at as int);
        }
        match find_operation(&self.schemas[at].operations, op) {
            Some(k) => {
                proof {
                    lemma_the_operation(self.schemas@[at as int].operations@, op@, k as int);
                }
                Some(&self.schemas[at].operations[k])
            },
            None => None,
        }
    }

    /// The type `module.name` declares, if there is one.
    pub fn host_type(&self, module: &str, name: &str) -> (declared: Option<&TypeSchema>)
        ensures
            match the_module(self@.schemas, module@) {
                None => declared is None,
                Some(schema) => match declared {
                    Some(d) => exists|at: int|
                        #![trigger schema.types@[at]]
                        type_at(schema.types@, name@, at) && *d == schema.types@[at],
                    None => forall|i: int|
                        0 <= i < schema.types@.len() ==> (#[trigger] schema.types@[i]).name@
                            != name@,
                },
            },
    {
        let at = match find_module(&self.schemas, module) {
            Some(at) => at,
            None => {
                return None;
            },
        };
        proof {
            lemma_the_module(self.schemas@, module@, at as int);
        }
        let types = &self.schemas[at].types;
        let mut i: usize = 0;
        while i < types.len()
            invariant
                i <= types@.len(),
                at < self.schemas@.len(),
                *types == self.schemas@[at as int].types,
                the_module(self@.schemas, module@) == Some(self.schemas@[at as int]),
                forall|j: int| 0 <= j < i ==> (#[trigger] types@[j]).name@ != name@,
            decreases types@.len() - i,
        {
            if same(types[i].name.as_str(), name) {
                proof {
                    let schema = the_module(self@.schemas, module@)->0;
                    assert(type_at(schema.types@, name@, i as int));
                    assert(schema.types@[i as int] == types@[i as int]);
                }
                return Some(&types[i]);
            }
            i = i + 1;
        }
        None
    }

    /// Whether the value `module.op` produces may cross a task boundary, if
    /// there is such an operation.
    pub fn result_is_task_safe(&self, module: &str, op: &str) -> (safe: Option<bool>)
        ensures
            safe == (match declared_operation(self@.schemas, module@, op@) {
                Some(declared) => Some(declared.result_is_task_safe),
                None => None,
            }),
    {
        match self.schema_for(module, op) {
            Some(declared) => Some(declared.result_is_task_safe),
            None => None,
        }
    }

    /// Asks for a call of a module's operation. A call let in has a ticket, to
    /// be handed back with what the host answered; any other has its reply.
    pub fn begin(&mut self, task: u64, module: &str, op: &str, args: &Vec<Value>) -> (result: Result<
        Ticket,
        Reply,
    >)
        requires
            old(self).wf(),
        ensures
            final(self).wf(),
            match the_module(old(self)@.schemas, module@) {
                None => final(self)@ == old(self)@ && result is Err && result->Err_0.fails(
                    unknown_module(module@),
                    None,
                ),
                Some(schema) => {
                    let called = module_call(schema, module@, op@);
                    let declared = the_operation(schema.operations@, op@);
                    let capability = needed(schema, declared);
                    let given = crate::value::data(args@);
                    &&& final(self)@ == after_entry(
                        old(self)@,
                        called,
                        declared,
                        capability,
                        given,
                    )
                    &&& match turned_away(
                        old(self)@,
                        task,
                        called,
                        declared,
                        capability,
                        given,
                    ) {
                        Some((failure, event)) => result matches Err(reply) && reply.fails(
                            failure,
                            event,
                        ),
                        None => result matches Ok(ticket) && ticket.is_for(
                            old(self)@,
                            task,
                            called,
                            declared->0,
                            capability,
                            given,
                        ),
                    }
                },
            },
    {
        let at = match find_module(&self.schemas, module) {
            Some(at) => at,
            None => {
                let error = RuntimeError::new(
                    crate::text::joined("unknown host module `", module, "`"),
                ).with_outcome(RunOutcome::HostBoundary);
                return Err(Reply { result: Err(error), event: None });
            },
        };
        proof {
            lemma_the_module(self.schemas@, module@, at as int);
        }
        let operation = find_operation(&self.schemas[at].operations, op);
        let ghost mut declared: Option<OperationSchema> = None;
        let capability: String = match operation {
            Some(k) => {
                proof {
                    lemma_the_operation(self.schemas@[at as int].operations@, op@, k as int);
                    declared = Some(self.schemas@[at as int].operations@[k as int]);
                }
                self.schemas[at].operations[k].capability.clone()
            },
            None => self.schemas[at].capability.clone(),
        };
        let callee = Callee {
            module: module.to_owned(),
            op: op.to_owned(),
            receiver: None,
            owner: crate::text::joined("host module `", module, "`"),
            known: names_of(&self.schemas[at].operations),
        };
        proof {
            assert(callee@ == module_call(self.schemas@[at as int], module@, op@));
        }
        self.dispatch(task, callee, at, None, operation, capability, args, Ghost(declared))
    }

    /// Asks for a call of an operation on a handle. Nothing trusts the handle:
    /// its module has to exist and to declare the kind, and the kind has to
    /// have the operation.
    pub fn begin_resource(
        &mut self,
        task: u64,
        handle: &ResourceHandle,
        op: &str,
        args: &Vec<Value>,
    ) -> (result: Result<Ticket, Reply>)
        requires
            old(self).wf(),
        ensures
            final(self).wf(),
            match the_module(old(self)@.schemas, handle.module@) {
                None => final(self)@ == old(self)@ && result is Err && result->Err_0.fails(
                    unknown_issuer(*handle),
                    None,
                ),
                Some(schema) => match the_resource(schema.resources@, handle.kind_name@) {
                    None => final(self)@ == old(self)@ && result is Err && result->Err_0.fails(
                        unknown_resource(*handle),
                        None,
                    ),
                    Some(resource) => {
                        let called = resource_call(resource, *handle, op@);
                        let declared = the_operation(resource.operations@, op@);
                        let capability = needed(schema, declared);
                        let given = crate::value::data(args@);
                        &&& final(self)@ == after_entry(
                            old(self)@,
                            called,
                            declared,
                            capability,
                            given,
                        )
                        &&& match turned_away(
                            old(self)@,
                            task,
                            called,
                            declared,
                            capability,
                            given,
                        ) {
                            Some((failure, event)) => result matches Err(reply) && reply.fails(
                                failure,
                                event,
                            ),
                            None => result matches Ok(ticket) && ticket.is_for(
                                old(self)@,
                                task,
                                called,
                                declared->0,
                                capability,
                                given,
                            ),
                        }
                    },
                },
            },
    {
        let qualified: String = handle.qualified_type();
        let at = match find_module(&self.schemas, handle.module.as_str()) {
            Some(at) => at,
            None => {
                let error = RuntimeError::new(
                    crate::text::joined("unknown host module `", handle.module.as_str(), "`"),
                ).with_outcome(RunOutcome::HostBoundary).with_help(
                    crate::text::joined(
                        "`",
                        qualified.as_str(),
                        "` names a resource of a host module this run has none of",
                    ),
                );
                return Err(Reply { result: Err(error), event: None });
            },
        };
        proof {
            lemma_the_module(self.schemas@, handle.module@, at as int);
        }
        let kind = match find_resource(&self.schemas[at].resources, handle.kind_name.as_str()) {
            Some(kind) => kind,
            None => {
                let mut message: String = "host module `".to_owned();
                message.append(handle.module.as_str());
                message.append("` issues no `");
                message.append(handle.kind_name.as_str());
                message.append("` handles");
                let error = RuntimeError::new(message).with_outcome(RunOutcome::HostBoundary);
                return Err(Reply { result: Err(error), event: None });
            },
        };
        let operation = find_operation(&self.schemas[at].resources[kind].operations, op);
        let ghost mut declared: Option<OperationSchema> = None;
        let capability: String = match operation {
            Some(k) => {
                proof {
                    let operations =
                        self.schemas@[at as int].resources@[kind as int].operations@;
                    lemma_the_operation(operations, op@, k as int);
                    declared = Some(operations[k as int]);
                }
                self.schemas[at].resources[kind].operations[k].capability.clone()
            },
            None => self.schemas[at].capability.clone(),
        };
        let receiver = Value::Resource(handle.copy());
        proof {
            assert(receiver@ == Value::Resource(*handle)@);
        }
        let callee = Callee {
            module: handle.module.clone(),
            op: crate::text::joined(handle.kind_name.as_str(), ".", op),
            receiver: Some(receiver),
            owner: crate::text::joined("`", qualified.as_str(), "`"),
            known: names_of(&self.schemas[at].resources[kind].operations),
        };
        proof {
            assert(callee@ == resource_call(
                self.schemas@[at as int].resources@[kind as int],
                *handle,
                op@,
            ));
        }
        self.dispatch(task, callee, at, Some(kind), operation, capability, args, Ghost(declared))
    }

    /// Ends a call that was let in, with what its host answered and how long
    /// that took. An answer that is not what the host declared is refused; what
    /// a trace is given says what the host answered either way.
    pub fn finish(&self, ticket: Ticket, answer: Result<Value, RuntimeError>, wait: u64) -> (reply:
        Reply)
        requires
            ticket.fits(self@.schemas),
        ensures
            reply.settles(
                self@.recording,
                ticket.task(),
                ticket.called(),
                ticket.declared(self@.schemas),
                ticket.capability(),
                ticket.recorded(),
                answer,
                wait,
            ),
    {
        let declared: &OperationSchema = match ticket.resource {
            None => &self.schemas[ticket.at].operations[ticket.operation],
            Some(kind) => &self.schemas[ticket.at].resources[kind].operations[ticket.operation],
        };
        let event: Option<HostCall> = if self.recording {
            let outcome = if declared.recordable {
                match &answer {
                    Ok(value) => HostOutcome::Value(value.copy()),
                    Err(error) => HostOutcome::Error(error.message.clone()),
                }
            } else {
                HostOutcome::NotRecordable
            };
            Some(
                HostCall {
                    task: ticket.task,
                    module: ticket.callee.module.clone(),
                    op: ticket.callee.op.clone(),
                    capability: ticket.capability.clone(),
                    wait,
                    granted: true,
                    args: copy_all(&ticket.recorded),
                    outcome: Some(outcome),
                },
            )
        } else {
            None
        };
        let mismatch: Option<Mismatch> = match &answer {
            Ok(value) => match declared.result.admits(value) {
                Ok(_) => None,
                Err(what) => Some(what),
            },
            Err(_) => None,
        };
        match mismatch {
            None => Reply { result: answer, event },
            Some(what) => {
                let error = RuntimeError::new(
                    what.describe(ticket.callee.shown().as_str(), Part::Result),
                ).with_rule(
                    "A host operation answers the type its Host API schema declares; the schema is one description shared by the compiler, runtime, and CLI.".to_owned(),
                ).with_help(quoted_declaration(&ticket.callee, declared)).with_outcome(
                    RunOutcome::HostBoundary,
                );
                Reply { result: Err(error), event }
            },
        }
    }

    /// Calls a module's operation, outside any program.
    pub fn call(&mut self, module: &str, op: &str, args: Vec<Value>) -> (reply: Reply)
        requires
            old(self).wf(),
        ensures
            final(self).wf(),
            match the_module(old(self)@.schemas, module@) {
                None => final(self)@ == old(self)@ && reply.fails(unknown_module(module@), None),
                Some(schema) => reply.comes_of(
                    old(self)@,
                    final(self)@,
                    ENTRY_TASK,
                    module_call(schema, module@, op@),
                    the_operation(schema.operations@, op@),
                    needed(schema, the_operation(schema.operations@, op@)),
                    None,
                    op@,
                    crate::value::data(args@),
                ),
            },
    {
        let mut back: Box<dyn Reentry> = Box::new(NoReentry);
        self.call_with(module, op, args, &mut back)
    }

    /// Calls a module's operation for a task, with a way back into the program
    /// that made the call.
    pub fn call_with<'b>(
        &mut self,
        module: &str,
        op: &str,
        args: Vec<Value>,
        back: &mut Box<dyn Reentry + 'b>,
    ) -> (reply: Reply)
        requires
            old(self).wf(),
        ensures
            final(self).wf(),
            exists|task: u64| #[trigger]
                tasked(old(back).of_task(), task) && match the_module(old(self)@.schemas, module@) {
                    None => final(self)@ == old(self)@ && reply.fails(
                        unknown_module(module@),
                        None,
                    ),
                    Some(schema) => reply.comes_of(
                        old(self)@,
                        final(self)@,
                        task,
                        module_call(schema, module@, op@),
                        the_operation(schema.operations@, op@),
                        needed(schema, the_operation(schema.operations@, op@)),
                        None,
                        op@,
                        crate::value::data(args@),
                    ),
                },
    {
        let task: u64 = back.task();
        proof {
            assert(tasked(back.of_task(), task));
        }
        match self.begin(task, module, op, &args) {
            Err(reply) => reply,
            Ok(ticket) => {
                let at: usize = ticket.module();
                let ghost entered = self@;
                let started = now();
                let answer = self.hosts[at].module.call_with(op, args, back);
                let wait: u64 = nanoseconds_since(&started);
                proof {
                    lemma_reached(
                        entered,
                        self@,
                        module@,
                        at as int,
                        Asked {
                            handle: None,
                            op: op@,
                            args: crate::value::data(args@),
                            answer,
                        },
                    );
                }
                self.finish(ticket, answer, wait)
            },
        }
    }

    /// Calls an operation on a handle, through the same checks as any other
    /// call.
    pub fn call_resource<'b>(
        &mut self,
        handle: &ResourceHandle,
        op: &str,
        args: Vec<Value>,
        back: &mut Box<dyn Reentry + 'b>,
    ) -> (reply: Reply)
        requires
            old(self).wf(),
        ensures
            final(self).wf(),
            exists|task: u64| #[trigger]
                tasked(old(back).of_task(), task) && match the_module(
                    old(self)@.schemas,
                    handle.module@,
                ) {
                    None => final(self)@ == old(self)@ && reply.fails(
                        unknown_issuer(*handle),
                        None,
                    ),
                    Some(schema) => match the_resource(schema.resources@, handle.kind_name@) {
                        None => final(self)@ == old(self)@ && reply.fails(
                            unknown_resource(*handle),
                            None,
                        ),
                        Some(resource) => reply.comes_of(
                            old(self)@,
                            final(self)@,
                            task,
                            resource_call(resource, *handle, op@),
                            the_operation(resource.operations@, op@),
                            needed(schema, the_operation(resource.operations@, op@)),
                            Some(*handle),
                            op@,
                            crate::value::data(args@),
                        ),
                    },
                },
    {
        let task: u64 = back.task();
        proof {
            assert(tasked(back.of_task(), task));
        }
        match self.begin_resource(task, handle, op, &args) {
            Err(reply) => reply,
            Ok(ticket) => {
                let at: usize = ticket.module();
                let ghost entered = self@;
                let started = now();
                let answer = self.hosts[at].module.call_resource(handle, op, args, back);
                let wait: u64 = nanoseconds_since(&started);
                proof {
                    lemma_reached(
                        entered,
                        self@,
                        handle.module@,
                        at as int,
                        Asked {
                            handle: Some(*handle),
                            op: op@,
                            args: crate::value::data(args@),
                            answer,
                        },
                    );
                }
                self.finish(ticket, answer, wait)
            },
        }
    }
}

/// The task that made a call, where that is known.
pub open spec fn tasked(known: Option<u64>, task: u64) -> bool {
    known matches Some(expected) ==> task == expected
}

/// The call reached the host it names, and no other: the host was asked this,
/// once, and nothing else at the boundary changed. A module that issues no
/// handles refuses a call on one and stays as it was.
pub open spec fn reached(before: Boundary, after: Boundary, module: Seq<char>, asked: Asked) -> bool {
    exists|at: int| #[trigger]
        crate::schema::module_at(before.schemas, module, at) && reached_at(
            before,
            after,
            at,
            asked,
        )
}

/// The host at this place was asked this, once, and nothing else changed.
pub open spec fn reached_at(before: Boundary, after: Boundary, at: int, asked: Asked) -> bool {
    &&& after == (Boundary { hosts: after.hosts, ..before })
    &&& after.hosts.len() == before.hosts.len()
    &&& forall|i: int|
        0 <= i < before.hosts.len() && i != at ==> #[trigger] after.hosts[i] == before.hosts[i]
    &&& after.hosts[at].asked() == noted(before.hosts[at].asked(), asked) || (asked.handle is Some
        && asked.answer is Err && after.hosts[at] == before.hosts[at])
}

proof fn lemma_reached(before: Boundary, after: Boundary, module: Seq<char>, at: int, asked: Asked)
    requires
        crate::schema::module_at(before.schemas, module, at),
        reached_at(before, after, at, asked),
    ensures
        reached(before, after, module, asked),
{
}

impl Reply {
    /// The reply to a call, with the boundary before and after. A call that is
    /// turned away reaches no host. Any other reaches the one it names, with
    /// what it was handed, and the reply is what comes of the host's answer,
    /// however long that took.
    pub open spec fn comes_of(
        self,
        before: Boundary,
        after: Boundary,
        task: u64,
        called: Called,
        declared: Option<OperationSchema>,
        capability: Seq<char>,
        handle: Option<ResourceHandle>,
        op: Seq<char>,
        args: Seq<Datum>,
    ) -> bool {
        let entered = after_entry(before, called, declared, capability, args);
        match turned_away(before, task, called, declared, capability, args) {
            Some((failure, event)) => after == entered && self.fails(failure, event),
            None => exists|answer: Result<Value, RuntimeError>, wait: u64|
                {
                    &&& #[trigger] self.settles(
                        before.recording,
                        task,
                        called,
                        declared->0,
                        capability,
                        called.recorded(before.recording, args),
                        answer,
                        wait,
                    )
                    &&& reached(entered, after, called.module, Asked { handle, op, args, answer })
                },
        }
    }
}

// ------------------------------------------------------------------ laws

/// No authority but what is granted: a call whose capability is not granted
/// never reaches a host, is told which capability it lacks, and leaves every
/// host, the budget and the count of irreversible calls as they were. Whether
/// there is such an operation, or such arguments, is not asked.
pub proof fn an_ungranted_call_reaches_no_host(
    before: Boundary,
    after: Boundary,
    reply: Reply,
    task: u64,
    called: Called,
    declared: Option<OperationSchema>,
    capability: Seq<char>,
    handle: Option<ResourceHandle>,
    op: Seq<char>,
    args: Seq<Datum>,
)
    requires
        !before.granted.contains(capability),
        reply.comes_of(before, after, task, called, declared, capability, handle, op, args),
    ensures
        after == before,
        reply.result is Err,
        reply.result->Err_0@.denied_capability == Some(capability),
        reply.result->Err_0@.outcome == RunOutcome::HostBoundary,
        reply.traced() matches Some(event) && !event.granted && event.outcome is None,
{
}

/// A call reaches its host just when its capability is granted, its operation
/// is declared and takes so many arguments, each of them is what is declared,
/// and the budget admits it; and then the host it names is asked that, with
/// those arguments, once, and no other host is asked anything.
pub proof fn a_call_reaches_the_host_it_names_and_no_other(
    before: Boundary,
    after: Boundary,
    reply: Reply,
    task: u64,
    called: Called,
    declared: Option<OperationSchema>,
    capability: Seq<char>,
    op: Seq<char>,
    args: Seq<Datum>,
)
    requires
        reply.comes_of(before, after, task, called, declared, capability, None, op, args),
    ensures
        turned_away(before, task, called, declared, capability, args) is None <==> (
        before.granted.contains(capability) && declared is Some && declared->0.takes(
            args.len() as int,
        ) && unadmitted(declared->0, args, 0) is None && match before.budget {
            None => true,
            Some(budget) => !budget.cancelled && !Budget::over(
                crate::budget::tallied(budget.host_calls as int, 1),
                budget.limits.max_host_calls,
            ),
        }),
        turned_away(before, task, called, declared, capability, args) is Some ==> after.hosts
            == before.hosts,
        turned_away(before, task, called, declared, capability, args) is None ==> exists|
            answer: Result<Value, RuntimeError>,
        | #[trigger]
            reached(
                after_entry(before, called, declared, capability, args),
                after,
                called.module,
                Asked { handle: None, op, args, answer },
            ),
{
}

/// A call that does not keep to what is declared reaches no host, is not
/// charged, and leaves nothing in a trace.
pub proof fn a_call_that_breaks_the_schema_never_happened(
    boundary: Boundary,
    task: u64,
    called: Called,
    declared: Option<OperationSchema>,
    capability: Seq<char>,
    args: Seq<Datum>,
)
    requires
        boundary.granted.contains(capability),
        match declared {
            None => true,
            Some(op) => !op.takes(args.len() as int) || unadmitted(op, args, 0) is Some,
        },
    ensures
        turned_away(boundary, task, called, declared, capability, args) matches Some((failure, event))
            && failure.outcome == RunOutcome::HostBoundary && event is None,
        after_entry(boundary, called, declared, capability, args) == boundary,
{
}

/// Only a call that reaches its host and is declared irreversible is counted
/// as one.
pub proof fn only_irreversible_calls_are_counted(
    boundary: Boundary,
    task: u64,
    called: Called,
    declared: Option<OperationSchema>,
    capability: Seq<char>,
    args: Seq<Datum>,
)
    ensures
        after_entry(boundary, called, declared, capability, args).writes != boundary.writes <==> (
        turned_away(boundary, task, called, declared, capability, args) is None
            && declared is Some && declared->0.effect == Effect::IrreversibleWrite),
{
}

/// Every argument a host is handed is one its declaration admits.
pub proof fn a_host_sees_only_what_it_declares(
    boundary: Boundary,
    task: u64,
    called: Called,
    declared: Option<OperationSchema>,
    capability: Seq<char>,
    args: Seq<Datum>,
    at: int,
)
    requires
        turned_away(boundary, task, called, declared, capability, args) is None,
        0 <= at < args.len(),
    ensures
        declared matches Some(op) && op.takes(args.len() as int) && (
        op.declared_param(at) matches Some(ty) ==> crate::schema::disagreement(
            ty,
            args[at],
            Seq::empty(),
        ) is None),
{
    let op = declared->0;
    lemma_all_declared(op, args.len() as int);
    lemma_all_admitted(op, args, 0, at);
}

proof fn lemma_all_declared(op: OperationSchema, argc: int)
    requires
        op.takes(argc),
    ensures
        forall|i: int|
            0 <= i < argc && op.params@.len() > 0 ==> (#[trigger] op.declared_param(i)) is Some,
{
}

proof fn lemma_all_admitted(op: OperationSchema, args: Seq<Datum>, from: int, at: int)
    requires
        unadmitted(op, args, from) is None,
        0 <= from <= at < args.len(),
        forall|i: int|
            0 <= i < args.len() && op.params@.len() > 0 ==> (#[trigger] op.declared_param(
                i,
            )) is Some,
    ensures
        op.declared_param(at) matches Some(ty) ==> crate::schema::disagreement(
            ty,
            args[at],
            Seq::empty(),
        ) is None,
    decreases at - from,
{
    if op.params@.len() > 0 {
        assert(op.declared_param(from) is Some);
        if from < at {
            lemma_all_admitted(op, args, from + 1, at);
        }
    }
}

/// Whatever a program is answered is what the operation declares.
pub proof fn a_program_is_answered_only_what_is_declared(
    reply: Reply,
    recording: bool,
    task: u64,
    called: Called,
    declared: OperationSchema,
    capability: Seq<char>,
    recorded: Seq<Datum>,
    answer: Result<Value, RuntimeError>,
    wait: u64,
)
    requires
        reply.settles(recording, task, called, declared, capability, recorded, answer, wait),
    ensures
        reply.result matches Ok(value) ==> answer == Ok::<Value, RuntimeError>(value)
            && crate::schema::disagreement(declared.result, value@, Seq::empty()) is None,
{
}

/// What a registry says its modules declare is what its calls are held to: it
/// lists a module just where a call of that name reaches it.
pub proof fn the_schemas_listed_are_those_calls_reach(schemas: Seq<ModuleSchema>, at: int)
    requires
        0 <= at < schemas.len(),
    ensures
        first_of_each(schemas, schemas.len() as int).contains(at) <==> crate::schema::module_at(
            schemas,
            schemas[at].name@,
            at,
        ),
        first_of_each(schemas, schemas.len() as int).contains(at) ==> the_module(
            schemas,
            schemas[at].name@,
        ) == Some(schemas[at]),
{
    lemma_first_of_each(schemas, schemas.len() as int, at);
    if crate::schema::module_at(schemas, schemas[at].name@, at) {
        lemma_the_module(schemas, schemas[at].name@, at);
    }
}

proof fn lemma_first_of_each(schemas: Seq<ModuleSchema>, count: int, at: int)
    requires
        0 <= count <= schemas.len(),
    ensures
        first_of_each(schemas, count).contains(at) <==> (0 <= at < count
            && crate::schema::module_at(schemas, schemas[at].name@, at)),
    decreases count,
{
    if count > 0 {
        lemma_first_of_each(schemas, count - 1, at);
        let fewer = first_of_each(schemas, count - 1);
        let more = first_of_each(schemas, count);
        if fewer.contains(at) {
            let k = choose|k: int| 0 <= k < fewer.len() && fewer[k] == at;
            assert(more[k] == at);
        }
        if more.contains(at) && at != count - 1 {
            let k = choose|k: int| 0 <= k < more.len() && more[k] == at;
            assert(fewer[k] == at);
        }
        if at == count - 1 && crate::schema::module_at(schemas, schemas[at].name@, at) {
            assert(more[more.len() - 1] == at);
        }
    }
}

/// A call is let through just when its capability is granted, its operation is
/// declared, it has as many arguments as are declared or, where the operation
/// is variadic, no fewer than all but the last, each of them keeps to the type
/// declared in its place, the run is not cancelled, and the budget admits one
/// call more.
pub proof fn a_call_is_let_through_when_all_is_in_order(
    boundary: Boundary,
    called: Called,
    declared: Option<OperationSchema>,
    capability: Seq<char>,
    args: Seq<Datum>,
)
    ensures
        gate(boundary, called, declared, capability, args) is Open <==> {
            &&& boundary.granted.contains(capability)
            &&& declared is Some
            &&& if declared->0.variadic {
                args.len() + 1 >= declared->0.params@.len()
            } else {
                args.len() == declared->0.params@.len()
            }
            &&& forall|i: int|
                0 <= i < args.len() && declared->0.params@.len() > 0 ==> crate::schema::disagreement(
                    if i < declared->0.params@.len() {
                        declared->0.params@[i]
                    } else {
                        declared->0.params@.last()
                    },
                    #[trigger] args[i],
                    Seq::empty(),
                ) is None
            &&& boundary.budget matches Some(budget) ==> !budget.cancelled && (
            budget.limits.max_host_calls matches Some(most) ==> budget.host_calls < most || most
                == u64::MAX)
        },
{
    if boundary.granted.contains(capability) && declared is Some {
        let op = declared->0;
        if op.takes(args.len() as int) {
            lemma_what_is_unadmitted(op, args, 0);
        }
    }
}

proof fn lemma_what_is_unadmitted(op: OperationSchema, args: Seq<Datum>, from: int)
    requires
        op.takes(args.len() as int),
        0 <= from <= args.len(),
    ensures
        unadmitted(op, args, from) is None <==> forall|i: int|
            from <= i < args.len() && op.params@.len() > 0 ==> crate::schema::disagreement(
                if i < op.params@.len() {
                    op.params@[i]
                } else {
                    op.params@.last()
                },
                #[trigger] args[i],
                Seq::empty(),
            ) is None,
    decreases args.len() - from,
{
    if from < args.len() {
        lemma_what_is_unadmitted(op, args, from + 1);
    }
}

/// The first argument that does not keep to its declaration is the one that is
/// reported, counted from one.
pub proof fn the_first_wrong_argument_is_reported(
    boundary: Boundary,
    called: Called,
    op: OperationSchema,
    capability: Seq<char>,
    args: Seq<Datum>,
    at: int,
)
    requires
        boundary.granted.contains(capability),
        op.takes(args.len() as int),
        0 <= at < args.len(),
        at < op.params@.len(),
        crate::schema::disagreement(op.params@[at], args[at], Seq::empty()) is Some,
        forall|j: int|
            0 <= j < at ==> crate::schema::disagreement(
                op.params@[j],
                #[trigger] args[j],
                Seq::empty(),
            ) is None,
    ensures
        gate(boundary, called, Some(op), capability, args) == Gate::Refused(
            wrong_argument(
                called,
                op,
                at + 1,
                crate::schema::disagreement(op.params@[at], args[at], Seq::empty())->0,
            ),
        ),
{
    lemma_the_first_unadmitted(op, args, 0, at);
}

proof fn lemma_the_first_unadmitted(op: OperationSchema, args: Seq<Datum>, from: int, at: int)
    requires
        0 <= from <= at < args.len(),
        at < op.params@.len(),
        crate::schema::disagreement(op.params@[at], args[at], Seq::empty()) is Some,
        forall|j: int|
            0 <= j < at ==> crate::schema::disagreement(
                op.params@[j],
                #[trigger] args[j],
                Seq::empty(),
            ) is None,
    ensures
        unadmitted(op, args, from) == Some(
            (at + 1, crate::schema::disagreement(op.params@[at], args[at], Seq::empty())->0),
        ),
    decreases at - from,
{
    if from < at {
        assert(crate::schema::disagreement(op.params@[from], args[from], Seq::empty()) is None);
        lemma_the_first_unadmitted(op, args, from + 1, at);
    }
}

/// A call that keeps to the schema is counted once against the budget, whether
/// the budget then stops it or not; one that is denied or does not keep to the
/// schema is not counted; and a stopped call is traced as one that did not
/// reach its host.
pub proof fn a_call_is_counted_once(
    boundary: Boundary,
    task: u64,
    called: Called,
    declared: Option<OperationSchema>,
    capability: Seq<char>,
    args: Seq<Datum>,
    budget: Budget,
)
    requires
        boundary.budget == Some(budget),
        budget.host_calls < u64::MAX,
    ensures
        ({
            let said = gate(boundary, called, declared, capability, args);
            let after = after_entry(boundary, called, declared, capability, args);
            &&& said is Open || said is Stopped ==> after.budget == Some(
                Budget { host_calls: (budget.host_calls + 1) as u64, ..budget },
            )
            &&& said is Denied || said is Refused ==> after == boundary
            &&& said is Stopped ==> (turned_away(
                boundary,
                task,
                called,
                declared,
                capability,
                args,
            ) matches Some((failure, event)) && event is Some && !(event->0).granted && (
            failure.outcome == RunOutcome::Budget || failure.outcome == RunOutcome::Cancelled))
            &&& said is Denied <==> !boundary.granted.contains(capability)
            &&& after.hosts == boundary.hosts && after.granted == boundary.granted
        }),
{
}

/// A trace is given nothing of the arguments unless it is recording, and then
/// the handle a call is made on before the arguments it was given; and of what
/// may not be written down it is not given the answer.
pub proof fn a_trace_is_given_what_may_be_recorded(
    called: Called,
    task: u64,
    capability: Seq<char>,
    args: Seq<Datum>,
    recorded: Seq<Datum>,
    result: Result<Value, RuntimeError>,
    wait: u64,
)
    ensures
        called.recorded(false, args) == Seq::<Datum>::empty(),
        called.receiver is None ==> called.recorded(true, args) == args,
        called.receiver matches Some(handle) ==> called.recorded(true, args).len() == args.len() + 1
            && called.recorded(true, args)[0] == handle && called.recorded(true, args).skip(1)
            == args,
        answered_event(task, called, capability, recorded, false, result, wait).outcome == Some(
            Ending::NotRecordable,
        ),
        result matches Ok(value) ==> answered_event(
            task,
            called,
            capability,
            recorded,
            true,
            result,
            wait,
        ).outcome == Some(Ending::Value(value@)),
        result matches Err(error) ==> answered_event(
            task,
            called,
            capability,
            recorded,
            true,
            result,
            wait,
        ).outcome == Some(Ending::Error(error.message@)),
        answered_event(task, called, capability, recorded, true, result, wait).granted,
{
    if let Some(handle) = called.receiver {
        assert(called.recorded(true, args).skip(1) =~= args);
    }
}

/// The capability a call needs is its operation's own, and its module's where
/// there is no such operation.
pub proof fn a_call_needs_its_operations_capability(schema: ModuleSchema, op: OperationSchema)
    ensures
        needed(schema, Some(op)) == op.capability@,
        needed(schema, None) == schema.capability@,
{
}

/// A call on a handle is named by the handle's module and kind, and so is the
/// operation it is held to; one of a module by the module alone.
pub proof fn a_call_is_named_by_what_it_is_made_on(
    schema: ModuleSchema,
    resource: ResourceSchema,
    handle: ResourceHandle,
    module: Seq<char>,
    op: Seq<char>,
    declared: OperationSchema,
)
    requires
        !op.contains('.'),
    ensures
        module_call(schema, module, op).shown() == module + "."@ + op,
        module_call(schema, module, op).receiver is None,
        module_call(schema, module, op).signature(declared) == declared.signature_text(),
        resource_call(resource, handle, op).shown() == handle.module@ + "."@ + (
        handle.kind_name@ + "."@ + op),
        resource_call(resource, handle, op).signature(declared) == handle.kind_name@ + "."@
            + declared.signature_text(),
        resource_call(resource, handle, op).receiver == Some(Value::Resource(handle)@),
{
    reveal_strlit(".");
    assert("."@ =~= seq!['.']);
    lemma_a_last_dot(op);
    lemma_the_dot_before(handle.kind_name@, op);
    let named = handle.kind_name@ + "."@ + op;
    assert(named.take(handle.kind_name@.len() as int) =~= handle.kind_name@);
}

proof fn lemma_a_last_dot(text: Seq<char>)
    ensures
        !text.contains('.') ==> crate::frame::layout::last_dot(text) is None,
    decreases text.len(),
{
    if text.len() > 0 && !text.contains('.') {
        assert(text[text.len() - 1] != '.');
        let shorter = text.drop_last();
        assert forall|i: int| 0 <= i < shorter.len() implies shorter[i] != '.' by {
            assert(text[i] != '.');
        }
        lemma_a_last_dot(shorter);
    }
}

proof fn lemma_the_dot_before(before: Seq<char>, last: Seq<char>)
    requires
        !last.contains('.'),
    ensures
        crate::frame::layout::last_dot(before + "."@ + last) == Some(before.len() as int),
    decreases last.len(),
{
    reveal_strlit(".");
    let text = before + "."@ + last;
    if last.len() > 0 {
        let shorter = last.drop_last();
        assert(last[last.len() - 1] != '.');
        assert forall|i: int| 0 <= i < shorter.len() implies shorter[i] != '.' by {
            assert(last[i] != '.');
        }
        lemma_the_dot_before(before, shorter);
        assert(text.drop_last() =~= before + "."@ + shorter);
    } else {
        assert(text.last() == '.');
    }
}

/// A call that is turned away says what it called and why: which capability it
/// lacked, which operation there is not, how many arguments it had, or which
/// argument was of the wrong type.
pub proof fn a_call_that_is_turned_away_says_why(
    called: Called,
    op: OperationSchema,
    capability: Seq<char>,
    source: GrantSource,
    argc: nat,
    what: crate::schema::Disagreement,
    position: usize,
)
    ensures
        denial(called, capability, source).message == "`"@ + (called.module + "."@ + called.op)
            + "` requires the `"@ + capability + "` capability, which this run was not granted"@,
        denial(called, capability, source).denied_capability == Some(capability),
        denial(called, capability, source).outcome == RunOutcome::HostBoundary,
        unknown_operation(called).message == called.owner + " has no operation `"@
            + crate::frame::layout::short_name(called.op) + "`"@,
        unknown_operation(called).outcome == RunOutcome::HostBoundary,
        wrong_arity(called, op, argc as int).message == "`"@ + (called.module + "."@ + called.op)
            + "` takes "@ + op.arity_text() + ", but "@ + crate::text::digits(argc)
            + " were given"@,
        wrong_arity(called, op, argc as int).outcome == RunOutcome::HostBoundary,
        wrong_argument(called, op, position as int, what).outcome == RunOutcome::HostBoundary,
        what.path.len() == 0 ==> wrong_argument(called, op, position as int, what).message == "`"@
            + (called.module + "."@ + called.op) + "` was given `"@ + what.found
            + "` as argument "@ + crate::text::digits(position as nat)
            + ", but its schema declares `"@ + what.declared + "` there"@,
        what.path.len() == 0 ==> wrong_answer(called, op, what).message == "`"@ + (called.module
            + "."@ + called.op) + "` answered `"@ + what.found + "`, but its schema declares `"@
            + what.declared + "`"@,
        wrong_answer(called, op, what).outcome == RunOutcome::HostBoundary,
{
}

/// A module exposes just the operations it declares.
pub proof fn a_module_exposes_what_it_declares(schema: ModuleSchema, op: Seq<char>)
    ensures
        exposes(schema, op) <==> exists|i: int|
            0 <= i < schema.operations@.len() && (#[trigger] schema.operations@[i]).name@ == op,
{
}

/// A call that is let in and cannot be undone is one more of those.
pub proof fn an_irreversible_call_is_one_more(
    boundary: Boundary,
    called: Called,
    op: OperationSchema,
    capability: Seq<char>,
    args: Seq<Datum>,
)
    requires
        gate(boundary, called, Some(op), capability, args) is Open,
        boundary.writes < u64::MAX,
    ensures
        op.effect == Effect::IrreversibleWrite ==> after_entry(
            boundary,
            called,
            Some(op),
            capability,
            args,
        ).writes == boundary.writes + 1,
        op.effect != Effect::IrreversibleWrite ==> after_entry(
            boundary,
            called,
            Some(op),
            capability,
            args,
        ).writes == boundary.writes,
{
}

/// What is looked up by name is the first of that name, and nothing where there
/// is none.
pub proof fn what_is_looked_up_is_the_first_of_its_name(
    schemas: Seq<ModuleSchema>,
    operations: Seq<OperationSchema>,
    resources: Seq<ResourceSchema>,
    name: Seq<char>,
    at: int,
)
    ensures
        0 <= at < schemas.len() && schemas[at].name@ == name && (forall|j: int|
            0 <= j < at ==> #[trigger] schemas[j].name@ != name) ==> the_module(schemas, name)
            == Some(schemas[at]),
        (forall|j: int| 0 <= j < schemas.len() ==> #[trigger] schemas[j].name@ != name)
            ==> the_module(schemas, name) is None,
        0 <= at < operations.len() && operations[at].name@ == name && (forall|j: int|
            0 <= j < at ==> #[trigger] operations[j].name@ != name) ==> the_operation(
            operations,
            name,
        ) == Some(operations[at]),
        (forall|j: int| 0 <= j < operations.len() ==> #[trigger] operations[j].name@ != name)
            ==> the_operation(operations, name) is None,
        0 <= at < resources.len() && resources[at].name@ == name && (forall|j: int|
            0 <= j < at ==> #[trigger] resources[j].name@ != name) ==> the_resource(resources, name)
            == Some(resources[at]),
        (forall|j: int| 0 <= j < resources.len() ==> #[trigger] resources[j].name@ != name)
            ==> the_resource(resources, name) is None,
{
    if 0 <= at < schemas.len() && schemas[at].name@ == name && (forall|j: int|
        0 <= j < at ==> #[trigger] schemas[j].name@ != name) {
        lemma_the_module(schemas, name, at);
    }
    if forall|j: int| 0 <= j < schemas.len() ==> #[trigger] schemas[j].name@ != name {
        if exists|i: int| crate::schema::module_at(schemas, name, i) {
            let i = choose|i: int| crate::schema::module_at(schemas, name, i);
            assert(schemas[i].name@ == name);
        }
    }
    if 0 <= at < operations.len() && operations[at].name@ == name && (forall|j: int|
        0 <= j < at ==> #[trigger] operations[j].name@ != name) {
        lemma_the_operation(operations, name, at);
    }
    if forall|j: int| 0 <= j < operations.len() ==> #[trigger] operations[j].name@ != name {
        if exists|i: int| crate::schema::operation_at(operations, name, i) {
            let i = choose|i: int| crate::schema::operation_at(operations, name, i);
            assert(operations[i].name@ == name);
        }
    }
    if 0 <= at < resources.len() && resources[at].name@ == name && (forall|j: int|
        0 <= j < at ==> #[trigger] resources[j].name@ != name) {
        assert(resource_at(resources, name, at));
        let other = choose|i: int| resource_at(resources, name, i);
        if other < at {
            assert(resources[other].name@ != name);
        }
        if at < other {
            assert(resources[at].name@ != name);
        }
    }
    if forall|j: int| 0 <= j < resources.len() ==> #[trigger] resources[j].name@ != name {
        if exists|i: int| resource_at(resources, name, i) {
            let i = choose|i: int| resource_at(resources, name, i);
            assert(resources[i].name@ == name);
        }
    }
}

/// A call into a module there is not, or on a handle of a kind there is not, is
/// told which.
pub proof fn what_there_is_not_is_named(module: Seq<char>, handle: ResourceHandle, op: Seq<char>)
    ensures
        unknown_module(module).message == "unknown host module `"@ + module + "`"@,
        unknown_module(module).outcome == RunOutcome::HostBoundary,
        unknown_issuer(handle).message == "unknown host module `"@ + handle.module@ + "`"@,
        unknown_issuer(handle).outcome == RunOutcome::HostBoundary,
        unknown_resource(handle).message == "host module `"@ + handle.module@ + "` issues no `"@
            + handle.kind_name@ + "` handles"@,
        unknown_resource(handle).outcome == RunOutcome::HostBoundary,
        no_handles(module, handle, op).message == "host module `"@ + module
            + "` issues no resource handles, so `"@ + (handle.module@ + "."@ + handle.kind_name@)
            + "."@ + op + "` cannot be called"@,
{
}

/// Operations are listed in order, each between backquotes, with a comma and a
/// space between them.
pub proof fn operations_are_listed_in_order(known: Seq<Seq<char>>, last: Seq<char>)
    ensures
        listed(seq![last], 1) == seq!['`'] + last + seq!['`'],
        known.len() > 0 ==> listed(known.push(last), known.len() + 1int) == listed(
            known,
            known.len() as int,
        ) + ", "@ + (seq!['`'] + last + seq!['`']),
{
    lemma_listed(known, known.push(last), known.len() as int);
}

proof fn lemma_listed(a: Seq<Seq<char>>, b: Seq<Seq<char>>, n: int)
    requires
        n <= a.len(),
        n <= b.len(),
        forall|i: int| 0 <= i < n ==> #[trigger] a[i] == b[i],
    ensures
        listed(a, n) == listed(b, n),
    decreases n,
{
    if n > 0 {
        assert(a[n - 1] == b[n - 1]);
        assert(a[0] == b[0]);
        lemma_listed(a, b, n - 1);
    }
}

/// What a trace is given of a call is whose it was, what it called, what it
/// needed and was given, and how long it waited; of one that did not reach its
/// host, that it waited for nothing and was not granted.
pub proof fn a_trace_is_given_whose_call_it_was(
    task: u64,
    called: Called,
    capability: Seq<char>,
    recording: bool,
    args: Seq<Datum>,
    recorded: Seq<Datum>,
    recordable: bool,
    result: Result<Value, RuntimeError>,
    wait: u64,
)
    ensures
        ({
            let away = refused_event(task, called, capability, recording, args);
            &&& away.task == task
            &&& away.module == called.module
            &&& away.op == called.op
            &&& away.capability == capability
            &&& away.wait == 0
            &&& !away.granted
            &&& away.args == called.recorded(recording, args)
            &&& away.outcome is None
        }),
        ({
            let answered = answered_event(
                task,
                called,
                capability,
                recorded,
                recordable,
                result,
                wait,
            );
            &&& answered.task == task
            &&& answered.module == called.module
            &&& answered.op == called.op
            &&& answered.capability == capability
            &&& answered.wait == wait
            &&& answered.granted
            &&& answered.args == recorded
            &&& answered.outcome is Some
        }),
{
}

/// Whoever lacks a capability is told where to grant it.
pub proof fn who_lacks_a_capability_is_told_where_to_grant_it(
    called: Called,
    capability: Seq<char>,
)
    ensures
        denial(called, capability, GrantSource::Config).help == Some(
            "add `"@ + capability + "` to `allow` in the run's `cove.toml` table"@,
        ),
        denial(called, capability, GrantSource::Sealed).help == Some(
            "this binary carries the capabilities it was built with; add `"@ + capability
                + "` to `allow` in the run's `cove.toml` table and build it again"@,
        ),
{
}

} // verus!
