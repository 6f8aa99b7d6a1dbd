//! What holds of every run.
use crate::frame::kinds::Part;
use crate::frame::layout::Site;
use crate::frame::machine::{Machine, Outcome, MAX_CALL_DEPTH};
use crate::ir::{Function, FunctionId, Inst, Program, SlotKind};
use crate::schema::HostType;
use crate::slot::Form;
use crate::value::Datum;
use vstd::prelude::*;

verus! {

/// The state a run is left in, where it is left in one.
pub open spec fn left(outcome: Outcome) -> Option<Machine> {
    match outcome {
        Outcome::Next(m) => Some(m),
        Outcome::Answered(m, _) => Some(m),
        Outcome::Raised(m, _) => Some(m),
        Outcome::Host(m, _, _, _, _) => Some(m),
        Outcome::Builtin(m, _, _, _) => Some(m),
        Outcome::Stuck => None,
    }
}

/// The fuel a run has been charged: what its budget counts and what is still
/// to be handed over.
pub open spec fn account(m: Machine) -> int {
    m.budget->0.fuel_spent + m.fuel
}

/// A run has a budget to account to.
pub open spec fn accounts(m: Machine) -> bool {
    m.budget is Some && 0 <= m.fuel <= u64::MAX && 0 <= m.instructions <= u64::MAX
}

/// From one state to a later one no fuel was lost, and every instruction was
/// charged, unless the count is past what it can show; and no call stands
/// deeper than may be.
pub open spec fn in_order(m: Machine, n: Machine) -> bool {
    &&& accounts(m) ==> {
        &&& accounts(n)
        &&& n.instructions >= m.instructions
        &&& account(n) >= u64::MAX || account(n) - account(m) >= n.instructions - m.instructions
    }
    &&& m.frames.len() <= MAX_CALL_DEPTH ==> n.frames.len() <= MAX_CALL_DEPTH
}

/// Between two states no frame was opened, and at most the one on top closed.
spec fn goes_back(m: Machine, n: Machine) -> bool {
    n.frames == m.frames || n.frames == m.frames.drop_last()
}

/// Between two states one frame was opened, of this function.
spec fn enters(m: Machine, n: Machine, target: FunctionId) -> bool {
    n.frames.len() > 0 && n.frames == m.frames.push(n.frames.last())
        && n.frames.last().function == target
}

/// Between two states the frame of what an instruction calls was opened.
spec fn enters_by(m: Machine, n: Machine, inst: Inst) -> bool {
    inst matches Inst::Call { function, scalar_argc: _, value_argc: _, place_argc: _ } && enters(
        m,
        n,
        function,
    )
}

proof fn lemma_in_order_goes_on(a: Machine, b: Machine, c: Machine)
    requires
        in_order(a, b),
        in_order(b, c),
    ensures
        in_order(a, c),
{
}

proof fn lemma_safepoint(m: Machine, span: crate::error::Span)
    ensures
        match crate::frame::machine::safepoint(m, span) {
            Ok(n) => in_order(m, n) && n.frames == m.frames,
            Err(stopped) => in_order(m, stopped.0) && stopped.0.frames == m.frames,
        },
{
}

proof fn lemma_charge(m: Machine, block: int, span: crate::error::Span)
    requires
        block >= 0,
    ensures
        match crate::frame::machine::charge(m, block, span) {
            Ok(n) => in_order(m, n) && n.frames == m.frames,
            Err(stopped) => in_order(m, stopped.0) && stopped.0.frames == m.frames,
        },
{
    let charged = Machine {
        instructions: crate::budget::tallied(m.instructions, block),
        ..m.fuelled(block * crate::frame::machine::INSTRUCTION_FUEL)
    };
    lemma_safepoint(charged, span);
}

proof fn lemma_jump(m: Machine, function: Function, to: int)
    ensures
        left(crate::frame::machine::jump(m, function, to)) matches Some(n) ==> in_order(m, n) && n.frames == m.frames,
{
    lemma_safepoint(m, function.spot(m.pc));
    let n = if to <= m.pc {
        crate::frame::machine::back_edge(m, function.spot(m.pc))
    } else {
        Ok(m)
    };
    if n is Ok {
        lemma_charge(n->Ok_0, function.block_fuel@[to] as int, function.spot(to));
    }
}

proof fn lemma_branch(m: Machine, function: Function, to: int, when_zero: bool)
    ensures
        left(crate::frame::machine::branch(m, function, to, when_zero)) matches Some(n) ==> in_order(
            m,
            n,
        ) && n.frames == m.frames,
{
    let n = m.dropped(1);
    lemma_jump(n, function, to);
    lemma_charge(n, function.block_fuel@[m.pc + 1] as int, function.spot(m.pc + 1));
}

proof fn lemma_call(
    program: Program,
    m: Machine,
    function: Function,
    target: FunctionId,
    argc: int,
)
    ensures
        left(crate::frame::machine::call(program, m, function, target, argc)) matches Some(n)
            ==> in_order(m, n) && (n.frames == m.frames || enters(m, n, target)),
{
    let span = function.spot(m.pc);
    let callee = program.func(target);
    lemma_safepoint(m, span);
    let n = crate::frame::machine::safepoint(m, span);
    if n is Ok {
        lemma_charge(n->Ok_0, callee.block_fuel@[0] as int, callee.spot(0));
    }
}

proof fn lemma_resumed(program: Program, m: Machine, done: crate::frame::machine::Call)
    ensures
        left(crate::frame::machine::resumed(program, m, done)) matches Some(n) ==> in_order(m, n) && n.frames == m.frames,
{
    let caller = program.func(m.frames.last().function);
    let pc = done.return_pc as int;
    lemma_charge(m.goes_to(pc), caller.block_fuel@[pc] as int, caller.spot(pc));
}

proof fn lemma_return_scalar(program: Program, m: Machine, function: Function)
    requires
        m.frames.len() > 0,
    ensures
        left(crate::frame::machine::return_scalar(program, m, function)) matches Some(n)
            ==> in_order(m, n) && goes_back(m, n),
{
    lemma_safepoint(m, function.spot(m.pc));
    let n = crate::frame::machine::safepoint(m, function.spot(m.pc));
    if n is Ok {
        let n = n->Ok_0;
        let out = crate::frame::machine::closed(n.dropped(1));
        lemma_resumed(program, out.push(n.top(), false), n.frames.last());
    }
}

proof fn lemma_leave(program: Program, m: Machine, value: Datum)
    requires
        m.frames.len() > 0,
    ensures
        left(crate::frame::machine::leave(program, m, value)) matches Some(n) ==> in_order(m, n) && goes_back(m, n),
{
    let out = crate::frame::machine::closed(m);
    lemma_resumed(
        program,
        Machine { boundary: out.boundary.push(value), ..out },
        m.frames.last(),
    );
}

/// Two states that differ in nothing the account knows of.
spec fn same_account(m: Machine, n: Machine) -> bool {
    n.budget == m.budget && n.fuel == m.fuel && n.instructions == m.instructions && n.frames
        == m.frames
}

proof fn lemma_taken(program: Program, m: Machine, function: Function)
    ensures
        crate::frame::machine::taken(program, m, function) matches Some(pair) ==> same_account(
            m,
            pair.1,
        ),
{
}

proof fn lemma_arguments(program: Program, m: Machine, kinds: Seq<crate::frame::kinds::Kind>)
    ensures
        crate::frame::machine::arguments(program, m, kinds) matches Some(pair) ==> same_account(
            m,
            pair.1,
        ),
{
}

proof fn lemma_try(program: Program, m: Machine, function: Function, payload: SlotKind)
    requires
        m.frames.len() > 0,
    ensures
        left(crate::frame::machine::try_value(program, m, function, payload)) matches Some(n)
            ==> in_order(m, n) && goes_back(m, n),
{
    lemma_taken(program, m, function);
    let found = crate::frame::machine::taken(program, m, function);
    if found is Some {
        let n = (found->0).1.materializing(1);
        lemma_safepoint(n, function.spot(m.pc));
        let after = crate::frame::machine::safepoint(n, function.spot(m.pc));
        if after is Ok {
            match crate::frame::machine::tried((found->0).0) {
                Some(Err(value)) => {
                    lemma_leave(program, after->Ok_0, value);
                },
                Some(Ok(answer)) => {
                    let opened = crate::frame::machine::opened_payload(n, answer, payload);
                    if opened is Some {
                        lemma_charge(
                            opened->0,
                            function.block_fuel@[m.pc + 1] as int,
                            function.spot(m.pc + 1),
                        );
                    }
                },
                None => {},
            }
        } else {
            match crate::frame::machine::tried((found->0).0) {
                Some(Ok(answer)) => {
                    let opened = crate::frame::machine::opened_payload(n, answer, payload);
                    if opened is Some {
                        lemma_charge(
                            opened->0,
                            function.block_fuel@[m.pc + 1] as int,
                            function.spot(m.pc + 1),
                        );
                    }
                },
                _ => {},
            }
        }
    }
}

proof fn lemma_return_value(program: Program, m: Machine, function: Function)
    requires
        m.frames.len() > 0,
    ensures
        left(crate::frame::machine::return_value(program, m, function)) matches Some(n)
            ==> in_order(m, n) && goes_back(m, n),
{
    lemma_safepoint(m, function.spot(m.pc));
    let n = crate::frame::machine::safepoint(m, function.spot(m.pc));
    if n is Ok {
        let n = n->Ok_0.materializing(1);
        lemma_taken(program, n, function);
        let found = crate::frame::machine::taken(program, n, function);
        if found is Some {
            lemma_leave(program, (found->0).1, (found->0).0);
        }
    }
}

proof fn lemma_flow_step(program: Program, m: Machine, function: Function, inst: Inst)
    requires
        m.frames.len() > 0,
    ensures
        left(crate::frame::machine::flow_step(program, m, function, inst)) matches Some(n)
            ==> in_order(m, n) && (goes_back(m, n) || enters_by(m, n, inst)),
{
    match inst {
        Inst::Jump(to) => {
            lemma_jump(m, function, to as int);
        },
        Inst::JumpIfFalseScalar(to) => {
            lemma_branch(m, function, to as int, true);
        },
        Inst::JumpIfTrueScalar(to) => {
            lemma_branch(m, function, to as int, false);
        },
        Inst::JumpIfFalse(to) => {
            lemma_branch(m, function, to as int, true);
        },
        Inst::JumpIfTrue(to) => {
            lemma_branch(m, function, to as int, false);
        },
        Inst::Call { function: target, scalar_argc, value_argc, place_argc: _ } => {
            lemma_call(program, m, function, target, scalar_argc + value_argc);
        },
        Inst::ReturnScalar => {
            lemma_return_scalar(program, m, function);
        },
        Inst::Pop => {
            lemma_taken(program, m.materializing(1), function);
        },
        Inst::MakeBuiltin { name: _, argc } => {
            let at = crate::frame::machine::standing(program, function);
            let kinds = crate::frame::operands::boundary_kinds(at, m.pc, argc as int);
            if kinds is Some {
                lemma_arguments(program, m, kinds->0);
            }
        },
        Inst::CallHost { module: _, op: _, argc } => {
            let at = crate::frame::machine::standing(program, function);
            let kinds = crate::frame::operands::boundary_kinds(at, m.pc, argc as int);
            if kinds is Some {
                lemma_arguments(program, m, kinds->0);
                let found = crate::frame::machine::arguments(program, m, kinds->0);
                if found is Some {
                    lemma_safepoint(
                        (found->0).1.materializing(argc as int),
                        function.spot(m.pc),
                    );
                }
            }
        },
        Inst::Try { payload } => {
            lemma_try(program, m, function, payload);
        },
        Inst::Return => {
            lemma_return_value(program, m, function);
        },
        _ => {},
    }
}

proof fn lemma_object_step(program: Program, m: Machine, function: Function, inst: Inst)
    ensures
        left(crate::frame::machine::object_step(program, m, function, inst)) matches Some(n)
            ==> in_order(m, n) && n.frames == m.frames,
{
    match inst {
        Inst::Concat(count) => {
            let at = crate::frame::machine::standing(program, function);
            let kinds = crate::frame::operands::kinds_at(at, m.pc, count as int);
            if kinds is Some {
                lemma_arguments(program, m, kinds->0);
            }
        },
        _ => {},
    }
}

proof fn lemma_step(program: Program, m: Machine)
    ensures
        left(crate::frame::machine::step(program, m)) matches Some(n) ==> in_order(m, n) && (goes_back(m, n) || enters_by(
            m,
            n,
            crate::frame::machine::running(program, m).code@[m.pc],
        )),
{
    let function = crate::frame::machine::running(program, m);
    let inst = function.code@[m.pc];
    if m.frames.len() > 0 {
        lemma_flow_step(program, m, function, inst);
    }
    lemma_object_step(program, m, function, inst);
}

proof fn lemma_run(program: Program, m: Machine, steps: nat)
    ensures
        left(crate::frame::machine::run_for(program, m, steps)) matches Some(n) ==> in_order(m, n),
    decreases steps,
{
    if steps > 0 {
        lemma_step(program, m);
        match crate::frame::machine::step(program, m) {
            Outcome::Next(next) => {
                lemma_run(program, next, (steps - 1) as nat);
                match left(crate::frame::machine::run_for(program, next, (steps - 1) as nat)) {
                    Some(n) => {
                        lemma_in_order_goes_on(m, next, n);
                    },
                    None => {},
                }
            },
            _ => {},
        }
    }
}

/// A run may be taken in slices: some steps and then some more come to what
/// all of them at once come to.
pub proof fn a_run_may_be_taken_in_slices(program: Program, m: Machine, first: nat, rest: nat)
    ensures
        crate::frame::machine::run_for(program, m, first + rest) == (
        match crate::frame::machine::run_for(program, m, first) {
            Outcome::Next(n) => crate::frame::machine::run_for(program, n, rest),
            other => other,
        }),
    decreases first,
{
    if first > 0 {
        match crate::frame::machine::step(program, m) {
            Outcome::Next(n) => {
                a_run_may_be_taken_in_slices(program, n, (first - 1) as nat, rest);
                assert((first + rest - 1) as nat == (first - 1) as nat + rest);
            },
            _ => {},
        }
    }
}

/// No fuel is lost: however a run stands after some steps, it has been charged
/// for every instruction, unless the count is past what it can show; and once
/// it has ended its budget knows of all of it.
pub proof fn no_fuel_is_lost(program: Program, m: Machine, steps: nat)
    requires
        accounts(m),
    ensures
        ({
            let outcome = crate::frame::machine::ended(
                crate::frame::machine::run_for(program, m, steps),
            );
            left(outcome) matches Some(n) ==> {
                &&& accounts(n)
                &&& n.instructions >= m.instructions
                &&& account(n) >= u64::MAX || account(n) - account(m) >= n.instructions
                    - m.instructions
                &&& outcome is Answered || outcome is Raised ==> n.fuel == 0
            }
        }),
{
    lemma_run(program, m, steps);
}

/// An instruction that the frame runs.
pub open spec fn runs(inst: Inst) -> bool {
    match inst {
        Inst::LoadScalar(_) => true,
        Inst::StoreScalar(_) => true,
        Inst::LoadLocal(_) => true,
        Inst::StoreLocal(_) => true,
        Inst::ScalarConst(_) => true,
        Inst::ScalarPop => true,
        Inst::IntBinary(_) => true,
        Inst::Dup => true,
        Inst::ScalarToValue(_) => true,
        Inst::ValueToScalar => true,
        Inst::Const(_) => true,
        Inst::MakeStruct(_) => true,
        Inst::MakeEnum { ty: _, named: _, argc: _ } => true,
        Inst::TestCase(_) => true,
        Inst::GetPayload { case: _, at: _ } => true,
        Inst::GetFieldAt { of: _, at: _ } => true,
        Inst::GetFieldAtScalar(_) => true,
        Inst::SetField(_) => true,
        Inst::Concat(_) => true,
        Inst::Binary(op) => op.compares(),
        Inst::Jump(_) => true,
        Inst::JumpIfFalseScalar(_) => true,
        Inst::JumpIfTrueScalar(_) => true,
        Inst::JumpIfFalse(_) => true,
        Inst::JumpIfTrue(_) => true,
        Inst::Call { function: _, scalar_argc: _, value_argc: _, place_argc } => place_argc == 0,
        Inst::ReturnScalar => true,
        Inst::Pop => true,
        Inst::MakeBuiltin { name: _, argc: _ } => true,
        Inst::CallHost { module: _, op: _, argc: _ } => true,
        Inst::Try { payload: _ } => true,
        Inst::Return => true,
        _ => false,
    }
}

/// Every frame of a run is of a function that was walked when its entry was
/// admitted, and every instruction of those is one the frame runs.
pub open spec fn confined(program: Program, entry: FunctionId, m: Machine) -> bool {
    forall|i: int|
        0 <= i < m.frames.len() ==> is_admitted(program, entry, (#[trigger] m.frames[i]).function)
}

/// A function that a run from an entry can enter, and that is refused nothing.
pub open spec fn is_admitted(program: Program, entry: FunctionId, id: FunctionId) -> bool {
    &&& crate::frame::admission::reaches(program, entry, id)
    &&& program.has_function(id)
    &&& crate::frame::admission::refusals_in(program, program.func(id)).len() == 0
    &&& forall|pc: int|
        0 <= pc < program.func(id).code@.len() ==> runs(#[trigger] program.func(id).code@[pc])
}

proof fn lemma_nothing_refused_runs(program: Program, function: Function, count: int)
    requires
        count <= function.code@.len(),
        crate::frame::admission::refusals_before(
            program,
            function,
            crate::frame::operands::operands_of(program, function),
            count,
        ).len() == 0,
    ensures
        forall|pc: int| 0 <= pc < count ==> runs(#[trigger] function.code@[pc]),
    decreases count,
{
    if count > 0 {
        let at = crate::frame::operands::operands_of(program, function);
        let found = crate::frame::admission::reasons(program, function, at, count - 1);
        assert(crate::frame::admission::refusing(
            program,
            function,
            function.spot(count - 1),
            found,
        ).len() == found.len());
        lemma_nothing_refused_runs(program, function, count - 1);
        assert(found.len() == 0);
        assert(runs(function.code@[count - 1]));
    }
}

pub proof fn lemma_call_is_counted(function: Function, pc: int, count: int)
    requires
        0 <= pc < count <= function.code@.len(),
        function.code@[pc] is Call,
    ensures
        crate::frame::admission::calls_before(function, count).contains(
            function.code@[pc]->Call_function,
        ),
    decreases count,
{
    let target = function.code@[pc]->Call_function;
    let all = crate::frame::admission::calls_before(function, count);
    if pc == count - 1 {
        assert(all[all.len() - 1] == target);
    } else {
        lemma_call_is_counted(function, pc, count - 1);
        let fewer = crate::frame::admission::calls_before(function, count - 1);
        let i = choose|i: int| 0 <= i < fewer.len() && fewer[i] == target;
        assert(all[i] == target);
    }
}

pub proof fn lemma_reached_is_admitted(program: Program, entry: FunctionId, id: FunctionId)
    requires
        crate::frame::validity::valid(program),
        program.has_function(entry),
        crate::frame::admission::refusals_from(program, entry).len() == 0,
        crate::frame::admission::reaches(program, entry, id),
        program.has_function(id),
    ensures
        is_admitted(program, entry, id),
{
    crate::frame::admission::admission_speaks_for_every_function_reached(program, entry);
    lemma_nothing_refused_runs(
        program,
        program.func(id),
        program.func(id).code@.len() as int,
    );
}

/// A state whose frames are those of a confined one, but for one closed or the
/// one that the instruction at hand opens, is confined.
proof fn lemma_stays_confined(
    program: Program,
    entry: FunctionId,
    m: Machine,
    n: Machine,
    function: Function,
    inst: Inst,
)
    requires
        crate::frame::validity::valid(program),
        program.has_function(entry),
        crate::frame::admission::refusals_from(program, entry).len() == 0,
        confined(program, entry, m),
        m.frames.len() > 0,
        function == program.func(m.frames.last().function),
        0 <= m.pc < function.code@.len(),
        inst == function.code@[m.pc],
        goes_back(m, n) || enters_by(m, n, inst),
    ensures
        confined(program, entry, n),
{
    let here = m.frames.last().function;
    assert(is_admitted(program, entry, m.frames[m.frames.len() - 1].function));
    assert forall|i: int| 0 <= i < n.frames.len() implies is_admitted(
        program,
        entry,
        (#[trigger] n.frames[i]).function,
    ) by {
        if goes_back(m, n) || i < m.frames.len() {
            assert(n.frames[i] == m.frames[i]);
        } else {
            assert(n.frames[i] == n.frames.last());
            lemma_call_is_counted(function, m.pc, function.code@.len() as int);
            let target = inst->Call_function;
            crate::frame::admission::lemma_reaches_on(program, entry, here, target);
            assert(crate::frame::validity::well_named(
                program,
                program.functions@[here.0 as int],
            ));
            assert(crate::ir::names_what_exists(program, function.code@[m.pc]));
            lemma_reached_is_admitted(program, entry, target);
        }
    }
}

/// An instruction that leaves a state is one of a standing function.
proof fn lemma_step_stands(program: Program, m: Machine)
    ensures
        left(crate::frame::machine::step(program, m)) is Some ==> m.frames.len() > 0 && 0 <= m.pc
            < crate::frame::machine::running(program, m).code@.len(),
{
}

proof fn lemma_step_is_confined(program: Program, entry: FunctionId, m: Machine)
    requires
        crate::frame::validity::valid(program),
        program.has_function(entry),
        crate::frame::admission::refusals_from(program, entry).len() == 0,
        confined(program, entry, m),
    ensures
        left(crate::frame::machine::step(program, m)) matches Some(n) ==> confined(
            program,
            entry,
            n,
        ),
{
    lemma_step(program, m);
    lemma_step_stands(program, m);
    let outcome = left(crate::frame::machine::step(program, m));
    if outcome is Some {
        let function = crate::frame::machine::running(program, m);
        lemma_stays_confined(
            program,
            entry,
            m,
            outcome->0,
            function,
            function.code@[m.pc],
        );
    }
}

/// Once its entry is admitted a run enters no function that was not: from a
/// state that is confined to what was admitted, any number of steps comes to
/// another such state, so no instruction that the frame does not run is ever
/// come to.
pub proof fn a_run_stays_within_what_was_admitted(
    program: Program,
    entry: FunctionId,
    m: Machine,
    steps: nat,
)
    requires
        crate::frame::validity::valid(program),
        program.has_function(entry),
        crate::frame::admission::refusals_from(program, entry).len() == 0,
        confined(program, entry, m),
    ensures
        left(crate::frame::machine::run_for(program, m, steps)) matches Some(n) ==> confined(
            program,
            entry,
            n,
        ),
    decreases steps,
{
    if steps > 0 {
        lemma_step_is_confined(program, entry, m);
        match crate::frame::machine::step(program, m) {
            Outcome::Next(next) => {
                a_run_stays_within_what_was_admitted(program, entry, next, (steps - 1) as nat);
            },
            _ => {},
        }
    }
}

/// A run of an admitted entry begins within what was admitted.
pub proof fn a_run_begins_within_what_was_admitted(program: Program, entry: FunctionId, m: Machine)
    requires
        crate::frame::validity::valid(program),
        program.has_function(entry),
        crate::frame::admission::refusals_from(program, entry).len() == 0,
    ensures
        left(crate::frame::machine::begun(program, m, entry)) matches Some(n) ==> confined(
            program,
            entry,
            n,
        ),
{
    let chain = seq![entry];
    assert(crate::frame::admission::call_chain(program, chain));
    assert(chain[0] == entry && chain.last() == entry);
    lemma_reached_is_admitted(program, entry, entry);
    let function = program.func(entry);
    let cleared = Machine {
        words: Seq::empty(),
        refs: Seq::empty(),
        boundary: Seq::empty(),
        fuel: 0,
        frames: seq![
            crate::frame::machine::Call { function: entry, return_pc: 0, base: 0 },
        ],
        pc: 0,
        pending: crate::frame::machine::Pending::Nothing,
        ..m
    };
    let open = crate::frame::machine::opened(cleared, function, 0);
    lemma_safepoint(open, function.span);
    match crate::frame::machine::safepoint(open, function.span) {
        Ok(n) => {
            lemma_charge(n, function.block_fuel@[0] as int, function.spot(0));
        },
        Err(_) => {},
    }
}

proof fn lemma_words_open_no_frame(m: Machine, value: Datum, ty: crate::schema::HostType)
    ensures
        crate::frame::machine::worded(m, value, ty) matches Some(pair) ==> pair.1.frames
            == m.frames,
    decreases ty,
{
    match ty {
        crate::schema::HostType::Option(inner) => {
            if let Datum::Enum(_, _, payload) = value {
                lemma_words_open_no_frame(m, crate::frame::machine::first_of(payload), *inner);
            }
        },
        crate::schema::HostType::Result(ok, err) => {
            if let Datum::Enum(_, _, payload) = value {
                lemma_words_open_no_frame(m, crate::frame::machine::first_of(payload), *ok);
                lemma_words_open_no_frame(m, crate::frame::machine::first_of(payload), *err);
            }
        },
        _ => {},
    }
}

proof fn lemma_host_answer(
    program: Program,
    m: Machine,
    function: Function,
    answer: Result<Datum, crate::error::Failure>,
)
    ensures
        left(crate::frame::machine::host_answered(program, m, function, answer)) matches Some(n)
            ==> n.frames == m.frames,
{
    let n = Machine { pending: crate::frame::machine::Pending::Nothing, ..m };
    match (function.code@[m.pc], answer) {
        (Inst::CallHost { module, op, argc: _ }, Ok(value)) => {
            match crate::frame::kinds::host_answer(
                program,
                program.name_text(module),
                program.name_text(op),
            ) {
                Some(ty) => {
                    lemma_words_open_no_frame(n, value, ty);
                },
                None => {},
            }
        },
        _ => {},
    }
}

/// What a host or a builtin answers leads a run nowhere it was not admitted
/// to.
pub proof fn an_answer_keeps_a_run_within_what_was_admitted(
    program: Program,
    entry: FunctionId,
    m: Machine,
    answer: Result<Datum, crate::error::Failure>,
    assertion: bool,
)
    requires
        confined(program, entry, m),
    ensures
        ({
            let function = crate::frame::machine::running(program, m);
            let host = crate::frame::machine::host_answered(program, m, function, answer);
            let builtin = crate::frame::machine::builtin_answered(m, function, answer, assertion);
            &&& left(host) matches Some(n) ==> confined(program, entry, n)
            &&& left(builtin) matches Some(n) ==> confined(program, entry, n)
        }),
{
    let function = crate::frame::machine::running(program, m);
    lemma_host_answer(program, m, function, answer);
}

/// An argument becomes a parameter without moving: a call that opens a frame
/// leaves every word where it stands, its frame begins at the first argument,
/// and the slots beyond the arguments begin as nothing.
pub proof fn an_argument_becomes_a_parameter_where_it_stands(
    program: Program,
    m: Machine,
    function: Function,
    target: FunctionId,
    argc: int,
)
    requires
        m.words.len() == m.refs.len(),
        m.words.len() <= usize::MAX,
    ensures
        crate::frame::machine::call(program, m, function, target, argc) matches Outcome::Next(n)
            ==> {
            let opened = n.frames.last();
            &&& n.frames == m.frames.push(opened)
            &&& opened.function == target
            &&& opened.return_pc == (m.pc + 1) as usize
            &&& opened.base == m.words.len() - argc
            &&& n.words.take(m.words.len() as int) == m.words
            &&& n.words.len() == opened.base + program.func(target).slots@.len()
            &&& forall|i: int| m.words.len() <= i < n.words.len() ==> #[trigger] n.words[i] == 0
            &&& n.refs.take(opened.base as int) == m.refs.take(opened.base as int)
            &&& forall|i: int|
                0 <= i < program.func(target).slots@.len() ==> #[trigger] n.refs[opened.base + i]
                    == (program.func(target).slots@[i] is Value)
        },
{
    let outcome = crate::frame::machine::call(program, m, function, target, argc);
    if let Outcome::Next(n) = outcome {
        let base = m.words.len() - argc;
        assert(n.words.take(m.words.len() as int) =~= m.words);
        assert(n.refs.take(base) =~= m.refs.take(base));
        assert forall|i: int| 0 <= i < program.func(target).slots@.len() implies #[trigger] n.refs[
        base + i] == (program.func(target).slots@[i] is Value) by {
            assert(n.refs[base + i] == crate::frame::machine::frame_refs(program.func(target))[i]);
        }
    }
}

/// A return leaves its caller's words alone: its own frame's words and its
/// arguments are gone, and the answer stands where the first argument stood.
pub proof fn a_return_leaves_its_callers_words_alone(
    program: Program,
    m: Machine,
    function: Function,
)
    requires
        m.frames.len() > 1,
        m.words.len() == m.refs.len(),
    ensures
        crate::frame::machine::return_scalar(program, m, function) matches Outcome::Next(n) ==> {
            let base = m.frames.last().base as int;
            &&& n.words == m.words.take(base).push(m.words.last())
            &&& n.refs == m.refs.take(base).push(false)
            &&& n.frames == m.frames.drop_last()
            &&& n.pc == m.frames.last().return_pc
        },
{
    let outcome = crate::frame::machine::return_scalar(program, m, function);
    if let Outcome::Next(n) = outcome {
        let base = m.frames.last().base as int;
        assert(m.refs.take(m.refs.len() - 1).take(base) =~= m.refs.take(base));
        assert(m.words.take(m.words.len() - 1).take(base) =~= m.words.take(base));
    }
}

/// No run goes deeper than a run may.
pub proof fn no_run_goes_too_deep(program: Program, m: Machine, steps: nat)
    requires
        m.frames.len() <= MAX_CALL_DEPTH,
    ensures
        left(crate::frame::machine::run_for(program, m, steps)) matches Some(n) ==> n.frames.len()
            <= MAX_CALL_DEPTH,
{
    lemma_run(program, m, steps);
}

// ---------------------------------------------------- a host's answer

/// A value is one of a declared type that a word can stand for.
pub open spec fn is_of(value: Datum, ty: HostType) -> bool
    decreases ty,
{
    match ty {
        HostType::Unit => value == Datum::Unit,
        HostType::Bool => value is Bool,
        HostType::Int => value is Int && i64::MIN <= value->Int_0 <= i64::MAX,
        HostType::String => value is Str && vstd::utf8::encode_utf8(value->Str_0).len() <= u64::MAX,
        HostType::Error => exists|text: Seq<char>|
            value == #[trigger] crate::value::error_of(text) && vstd::utf8::encode_utf8(text).len()
                <= u64::MAX,
        HostType::Option(inner) => value == crate::value::none_of() || exists|held: Datum|
            value == #[trigger] crate::value::some_of(held) && is_of(held, *inner),
        HostType::Result(ok, err) => (exists|held: Datum|
            value == #[trigger] crate::value::ok_of(held) && is_of(held, *ok)) || exists|held: Datum|
            value == #[trigger] crate::value::err_of(held) && is_of(held, *err),
        _ => false,
    }
}

/// The value of a word of one part of an object: what it names, or itself.
pub open spec fn value_of(
    program: Program,
    objects: Map<u64, crate::slot::Object>,
    part: Part,
    word: u64,
) -> Option<Datum> {
    if part == Part::Nested {
        crate::frame::machine::datum_at(program, objects, word)
    } else {
        crate::frame::machine::scalar_datum(program, part, word)
    }
}

/// What an object is worth does not depend on what was made after it.
proof fn lemma_older_objects(
    program: Program,
    objects: Map<u64, crate::slot::Object>,
    newer: u64,
    object: crate::slot::Object,
    handle: u64,
)
    requires
        handle < newer,
    ensures
        crate::frame::machine::datum_at(program, objects.insert(newer, object), handle)
            == crate::frame::machine::datum_at(program, objects, handle),
    decreases handle, 1int, 0int,
{
    let more = objects.insert(newer, object);
    if objects.dom().contains(handle) {
        assert(more[handle] == objects[handle]);
        match objects[handle].plan.form {
            Form::Case { kind_name, case, payload } => {
                lemma_older_parts(
                    program,
                    objects,
                    newer,
                    object,
                    handle,
                    payload,
                    payload.len() as int,
                );
            },
            Form::Record { kind_name, fields } => {
                lemma_older_parts(
                    program,
                    objects,
                    newer,
                    object,
                    handle,
                    Seq::new(fields.len(), |i: int| fields[i].1),
                    fields.len() as int,
                );
            },
            _ => {},
        }
    }
}

proof fn lemma_older_parts(
    program: Program,
    objects: Map<u64, crate::slot::Object>,
    newer: u64,
    object: crate::slot::Object,
    handle: u64,
    parts: Seq<Part>,
    count: int,
)
    requires
        handle < newer,
        objects.dom().contains(handle),
    ensures
        crate::frame::machine::parts_at(
            program,
            objects.insert(newer, object),
            handle,
            parts,
            count,
        ) == crate::frame::machine::parts_at(program, objects, handle, parts, count),
    decreases handle, 0int, count,
{
    if count > 0 {
        lemma_older_parts(program, objects, newer, object, handle, parts, count - 1);
        let held = objects[handle];
        let at = count - 1;
        assert(objects.insert(newer, object)[handle] == held);
        if 0 <= at < held.words.len() && parts[at] == Part::Nested && held.is_ref(at)
            && held.words[at] < handle {
            lemma_older_objects(program, objects, newer, object, held.words[at]);
        }
        assert(crate::frame::machine::part_at(
            program,
            objects.insert(newer, object),
            handle,
            at,
            parts[at],
        ) == crate::frame::machine::part_at(program, objects, handle, at, parts[at]));
    }
}

/// What a text made into an object is worth.
proof fn lemma_text_is_read_back(program: Program, m: Machine, text: Seq<char>)
    requires
        0 <= m.next < u64::MAX,
        vstd::utf8::encode_utf8(text).len() <= u64::MAX,
    ensures
        crate::frame::machine::text_made(m, text) matches Some(pair) && pair.0 == m.next
            && pair.1.next == m.next + 1 && crate::frame::machine::datum_at(
            program,
            pair.1.objects,
            pair.0,
        ) == Some(Datum::Str(text)),
{
    let bytes = vstd::utf8::encode_utf8(text);
    crate::frame::packing::packing_loses_nothing(bytes);
    vstd::utf8::encode_utf8_decode_utf8(text);
    vstd::utf8::encode_utf8_valid_utf8(text);
    let words = crate::frame::packing::packed(bytes);
    assert(words[0] == bytes.len());
    assert(crate::frame::machine::packs_text(words));
}

/// What a case of one payload word is worth, once the word is worth something.
proof fn lemma_case_is_read_back(
    program: Program,
    m: Machine,
    kind_name: Seq<char>,
    case: Seq<char>,
    part: Part,
    word: u64,
    held: Datum,
)
    requires
        0 <= m.next < u64::MAX,
        crate::frame::layout::names_builtin_case(kind_name, case),
        value_of(program, m.objects, part, word) == Some(held),
        part == Part::Nested ==> word < m.next,
    ensures
        crate::frame::machine::datum_at(
            program,
            m.making(
                crate::frame::machine::site_plan(Site { kind_name, case, payload: seq![part] }),
                seq![word],
            ).objects,
            m.next as u64,
        ) == Some(Datum::Enum(kind_name, case, seq![held])),
{
    let plan = crate::frame::machine::site_plan(Site { kind_name, case, payload: seq![part] });
    let object = crate::slot::Object { plan, words: seq![word] };
    let handle = m.next as u64;
    let objects = m.objects.insert(handle, object);
    assert(objects[handle] == object);
    if part == Part::Nested {
        lemma_older_objects(program, m.objects, handle, object, word);
        assert(object.is_ref(0));
    }
    reveal_with_fuel(crate::frame::machine::parts_at, 2);
    assert(crate::frame::machine::part_at(program, objects, handle, 0, part) == Some(held));
    assert(crate::frame::machine::parts_at(program, objects, handle, seq![part], 1) == Some(
        seq![held],
    )) by {
        assert(Seq::<Datum>::empty().push(held) =~= seq![held]);
    }
}

/// Reading a host's answer out of the word it became gives the answer back.
pub proof fn a_host_answer_is_read_back(program: Program, m: Machine, value: Datum, ty: HostType)
    requires
        0 <= m.next,
        is_of(value, ty),
        crate::frame::kinds::host_word(ty) is Some,
        crate::frame::machine::worded(m, value, ty) is Some,
    ensures
        ({
            let pair = crate::frame::machine::worded(m, value, ty)->0;
            let part = crate::frame::kinds::host_word(ty)->0;
            &&& value_of(program, pair.1.objects, part, pair.0) == Some(value)
            &&& m.next <= pair.1.next
            &&& part == Part::Nested ==> pair.0 < pair.1.next
        }),
    decreases ty,
{
    reveal_strlit("Ok");
    reveal_strlit("Err");
    reveal_strlit("Some");
    reveal_strlit("None");
    reveal_strlit("Option");
    reveal_strlit("Result");
    match ty {
        HostType::String => {
            lemma_text_is_read_back(program, m, value->Str_0);
        },
        HostType::Error => {
            let text = choose|text: Seq<char>|
                value == #[trigger] crate::value::error_of(text) && vstd::utf8::encode_utf8(
                    text,
                ).len() <= u64::MAX;
            lemma_error_is_read_back(program, m, text);
        },
        HostType::Option(inner) => {
            if value == crate::value::none_of() {
                assert("None"@[0] != "Some"@[0]);
                lemma_empty_case_is_read_back(program, m);
            } else {
                let held = choose|held: Datum|
                    value == #[trigger] crate::value::some_of(held) && is_of(held, *inner);
                a_host_answer_is_read_back(program, m, held, *inner);
                let pair = crate::frame::machine::worded(m, held, *inner)->0;
                lemma_case_is_read_back(
                    program,
                    pair.1,
                    "Option"@,
                    "Some"@,
                    crate::frame::kinds::host_word(*inner)->0,
                    pair.0,
                    held,
                );
            }
        },
        HostType::Result(ok, err) => {
            assert("Err"@ != "Ok"@);
            if exists|held: Datum| value == #[trigger] crate::value::ok_of(held) && is_of(held, *ok) {
                let held = choose|held: Datum|
                    value == #[trigger] crate::value::ok_of(held) && is_of(held, *ok);
                a_host_answer_is_read_back(program, m, held, *ok);
                let pair = crate::frame::machine::worded(m, held, *ok)->0;
                lemma_case_is_read_back(
                    program,
                    pair.1,
                    "Result"@,
                    "Ok"@,
                    crate::frame::kinds::host_word(*ok)->0,
                    pair.0,
                    held,
                );
            } else {
                let held = choose|held: Datum|
                    value == #[trigger] crate::value::err_of(held) && is_of(held, *err);
                a_host_answer_is_read_back(program, m, held, *err);
                let pair = crate::frame::machine::worded(m, held, *err)->0;
                lemma_case_is_read_back(
                    program,
                    pair.1,
                    "Result"@,
                    "Err"@,
                    crate::frame::kinds::host_word(*err)->0,
                    pair.0,
                    held,
                );
            }
        },
        _ => {},
    }
}

proof fn lemma_empty_case_is_read_back(program: Program, m: Machine)
    requires
        0 <= m.next < u64::MAX,
    ensures
        crate::frame::machine::nothing_made(m) matches Some(pair) && pair.0 == m.next
            && pair.1.next == m.next + 1 && crate::frame::machine::datum_at(
            program,
            pair.1.objects,
            pair.0,
        ) == Some(crate::value::none_of()),
{
}

proof fn lemma_error_is_read_back(program: Program, m: Machine, text: Seq<char>)
    requires
        0 <= m.next,
        vstd::utf8::encode_utf8(text).len() <= u64::MAX,
        crate::frame::machine::worded(m, crate::value::error_of(text), HostType::Error) is Some,
    ensures
        ({
            let pair = crate::frame::machine::worded(
                m,
                crate::value::error_of(text),
                HostType::Error,
            )->0;
            &&& pair.0 == m.next + 1
            &&& pair.1.next == m.next + 2
            &&& crate::frame::machine::datum_at(program, pair.1.objects, pair.0) == Some(
                crate::value::error_of(text),
            )
        }),
{
    lemma_text_is_read_back(program, m, text);
    let inner = crate::frame::machine::text_made(m, text)->0;
    let plan = crate::frame::machine::error_plan();
    let object = crate::slot::Object { plan, words: seq![inner.0] };
    let handle = inner.1.next as u64;
    let objects = inner.1.objects.insert(handle, object);
    assert(objects[handle] == object);
    lemma_older_objects(program, inner.1.objects, handle, object, inner.0);
    assert(object.is_ref(0));
    let fields = seq![("message"@, Part::Nested)];
    let parts = Seq::new(fields.len(), |i: int| fields[i].1);
    assert(parts =~= seq![Part::Nested]);
    reveal_with_fuel(crate::frame::machine::parts_at, 2);
    let held = Datum::Str(text);
    assert(crate::frame::machine::part_at(program, objects, handle, 0, Part::Nested) == Some(held));
    assert(crate::frame::machine::parts_at(program, objects, handle, parts, 1) == Some(seq![held]))
        by {
        assert(Seq::<Datum>::empty().push(held) =~= seq![held]);
    }
    assert(Seq::new(fields.len(), |i: int| (fields[i].0, seq![held][i])) =~= seq![
        ("message"@, held),
    ]);
}

} // verus!
