//! An admitted run ends on the frame: it answers, it raises, or it waits for
//! an answer, and no step of it asks for what is not there.
use crate::frame::balance::{Mark, Types};
use crate::frame::machine::{Call, Machine, Outcome};
use crate::ir::{Function, FunctionId, Inst, Program};
use vstd::prelude::*;

verus! {

/// A run stands in balance and keeps to its types.
pub open spec fn in_good_order(
    program: Program,
    types: Types,
    entry: FunctionId,
    room: int,
    m: Machine,
) -> bool {
    exists|marks: Seq<Mark>| #[trigger] ordered(program, types, entry, room, m, marks)
}

pub open spec fn ordered(
    program: Program,
    types: Types,
    entry: FunctionId,
    room: int,
    m: Machine,
    marks: Seq<Mark>,
) -> bool {
    crate::frame::balance::marked(program, types, entry, m, marks)
        && crate::frame::typing::typed_by(
        program,
        types,
        room,
        m,
        marks,
        crate::frame::balance::no_move(),
    )
}

/// A run waits for an answer, and will go on in good order with one of the type
/// that is said of it.
pub open spec fn waits_in_good_order(
    program: Program,
    types: Types,
    entry: FunctionId,
    room: int,
    m: Machine,
) -> bool {
    exists|marks: Seq<Mark>| #[trigger] ordered_to_wait(program, types, entry, room, m, marks)
}

pub open spec fn ordered_to_wait(
    program: Program,
    types: Types,
    entry: FunctionId,
    room: int,
    m: Machine,
    marks: Seq<Mark>,
) -> bool {
    crate::frame::balance::waits_in_balance(program, types, entry, m, marks)
        && crate::frame::progress::waits_typed(program, types, room, m, marks)
}

/// A program whose entry is admitted, and whose operands stand in balance and
/// are typed.
#[verifier::opaque]
pub open spec fn sound(program: Program, types: Types, entry: FunctionId, room: int) -> bool {
    &&& crate::frame::validity::valid(program)
    &&& crate::frame::balance::balanced(program, types, entry)
    &&& crate::frame::rules::well_typed(program, types, entry, room)
    &&& program.has_function(entry)
    &&& crate::frame::admission::refusals_from(program, entry).len() == 0
}

/// Every text a run makes in so many steps is short enough for its length to be
/// a word.
pub open spec fn texts_fit(program: Program, m: Machine, steps: nat) -> bool {
    forall|k: nat|
        k < steps ==> (#[trigger] crate::frame::machine::run_for(program, m, k) matches Outcome::Next(
            n,
        ) ==> crate::frame::onward::says_its_length(program, n))
}

#[verifier::spinoff_prover]
proof fn lemma_one_step(
    program: Program,
    types: Types,
    entry: FunctionId,
    room: int,
    m: Machine,
    marks: Seq<Mark>,
)
    requires
        crate::frame::typed::ready(program, types, entry, room, m, marks),
        m.next < u64::MAX,
        crate::frame::onward::says_its_length(program, m),
    ensures
        crate::frame::progress::stepped_well(
            program,
            types,
            room,
            m,
            marks,
            crate::frame::machine::step(program, m),
        ),
{
    lemma_runs(program, types, entry, room, m, marks);
    let inst = crate::frame::machine::running(program, m).code@[m.pc];
    if crate::frame::rules::over_words(inst) {
        crate::frame::progress::lemma_over_words(program, types, entry, room, m, marks);
    } else if inst is Jump {
        crate::frame::flow::lemma_jumps(program, types, entry, room, m, marks);
    } else if crate::frame::flow::turns(inst) {
        crate::frame::flow::lemma_branches(program, types, entry, room, m, marks);
    } else if inst is Call {
        crate::frame::flow::lemma_calls(program, types, entry, room, m, marks);
    } else if inst is Return {
        crate::frame::flow::lemma_returns(program, types, entry, room, m, marks);
    } else if inst is ReturnScalar {
        crate::frame::flow::lemma_returns_scalar(program, types, entry, room, m, marks);
    } else if inst is Try {
        crate::frame::flow::lemma_tries(program, types, entry, room, m, marks);
    } else if inst is Pop {
        crate::frame::onward::lemma_discards(program, types, entry, room, m, marks);
    } else if inst is MakeBuiltin || inst is CallHost {
        crate::frame::onward::lemma_builtins(program, types, entry, room, m, marks);
    } else if inst is SetField {
        crate::frame::onward::lemma_writes(program, types, entry, room, m, marks);
    } else if inst is Concat {
        crate::frame::onward::lemma_interpolates(program, types, entry, room, m, marks);
    } else {
        crate::frame::progress::lemma_over_objects(program, types, entry, room, m, marks);
    }
}

/// The instruction a run stands at is one the frame runs.
proof fn lemma_runs(
    program: Program,
    types: Types,
    entry: FunctionId,
    room: int,
    m: Machine,
    marks: Seq<Mark>,
)
    requires
        crate::frame::typed::ready(program, types, entry, room, m, marks),
    ensures
        ({
            let inst = crate::frame::machine::running(program, m).code@[m.pc];
            crate::frame::rules::over_words(inst) || crate::frame::flow::turns(inst)
                || inst is Call || inst is Return || inst is ReturnScalar || inst is Try
                || inst is Pop || inst is MakeBuiltin || inst is CallHost || inst is SetField
                || inst is Concat || inst is MakeStruct || inst is MakeEnum || inst is GetFieldAt
                || inst is GetFieldAtScalar || inst is GetPayload || inst is TestCase
                || inst is Binary
        }),
{
    reveal(crate::frame::typed::ready);
    crate::frame::truth::lemma_ready(program, types, entry, m, marks);
    reveal(crate::frame::balance::balanced_at);
}

/// A step makes one object at the most.
#[verifier::spinoff_prover]
proof fn lemma_one_object(program: Program, m: Machine, n: Machine)
    requires
        m.frames.len() > 0,
        m.refs.len() == m.words.len(),
        crate::frame::machine::step(program, m) == Outcome::Next(n),
    ensures
        n.next <= m.next + 1,
{
    let function = crate::frame::machine::running(program, m);
    match function.code@[m.pc] {
        Inst::Jump(to) => {
            crate::frame::truth::lemma_jump_shape(m, function, to as int);
        },
        Inst::JumpIfFalseScalar(to) => {
            crate::frame::truth::lemma_branch_shape(m, function, to as int, true);
        },
        Inst::JumpIfTrueScalar(to) => {
            crate::frame::truth::lemma_branch_shape(m, function, to as int, false);
        },
        Inst::JumpIfFalse(to) => {
            crate::frame::truth::lemma_branch_shape(m, function, to as int, true);
        },
        Inst::JumpIfTrue(to) => {
            crate::frame::truth::lemma_branch_shape(m, function, to as int, false);
        },
        Inst::Call { function: target, scalar_argc, value_argc, place_argc: _ } => {
            crate::frame::truth::lemma_call_shape(
                program,
                m,
                function,
                target,
                scalar_argc + value_argc,
                n,
            );
        },
        Inst::ReturnScalar => {
            crate::frame::truth::lemma_return_scalar_shape(program, m, function, n);
        },
        Inst::Return => {
            lemma_return_makes_nothing(program, m, function, n);
        },
        Inst::Try { payload } => {
            lemma_try_makes_nothing(program, m, function, payload, n);
        },
        Inst::Pop => {
            crate::frame::truth::lemma_taken_shape(program, m.materializing(1), function);
        },
        _ => {},
    }
}

proof fn lemma_return_makes_nothing(program: Program, m: Machine, function: Function, n: Machine)
    requires
        m.frames.len() > 0,
        m.refs.len() == m.words.len(),
        crate::frame::machine::return_value(program, m, function) == Outcome::Next(n),
    ensures
        n.next == m.next,
{
    crate::frame::truth::lemma_charged(m, 0, function.spot(m.pc));
    let a = crate::frame::machine::safepoint(m, function.spot(m.pc))->Ok_0;
    crate::frame::truth::lemma_taken_shape(program, a.materializing(1), function);
    let pair = crate::frame::machine::taken(program, a.materializing(1), function)->0;
    crate::frame::truth::lemma_leave_shape(program, pair.1, pair.0);
}

proof fn lemma_try_makes_nothing(
    program: Program,
    m: Machine,
    function: Function,
    payload: crate::ir::SlotKind,
    n: Machine,
)
    requires
        m.frames.len() > 0,
        m.refs.len() == m.words.len(),
        crate::frame::machine::try_value(program, m, function, payload) == Outcome::Next(n),
    ensures
        n.next == m.next,
{
    crate::frame::truth::lemma_taken_shape(program, m, function);
    let pair = crate::frame::machine::taken(program, m, function)->0;
    let off = pair.1.materializing(1);
    match crate::frame::machine::tried(pair.0) {
        Some(Ok(answer)) => {
            let opened = crate::frame::machine::opened_payload(off, answer, payload)->0;
            crate::frame::truth::lemma_charged(
                opened,
                function.block_fuel@[m.pc + 1] as int,
                function.spot(m.pc + 1),
            );
        },
        Some(Err(value)) => {
            crate::frame::truth::lemma_charged(off, 0, function.spot(m.pc));
            if let Ok(a) = crate::frame::machine::safepoint(off, function.spot(m.pc)) {
                crate::frame::truth::lemma_leave_shape(program, a, value);
            }
        },
        None => {},
    }
}

/// An admitted run ends on the frame. From a state in good order, a run of any
/// number of steps is never at a loss: it answers, it raises an error, it waits
/// for a host or a builtin to answer, or it goes on, in good order, with every
/// operand of the kind the simulation says. What is asked besides is what a
/// machine limits: a handle for each object a step may make, and texts whose
/// length is a word.
pub proof fn an_admitted_run_goes_on(
    program: Program,
    types: Types,
    room: int,
    entry: FunctionId,
    m: Machine,
    steps: nat,
)
    requires
        sound(program, types, entry, room),
        in_good_order(program, types, entry, room, m),
        m.next + steps < u64::MAX,
        texts_fit(program, m, steps),
    ensures
        ({
            let end = crate::frame::machine::run_for(program, m, steps);
            &&& !(end is Stuck)
            &&& end matches Outcome::Next(n) ==> in_good_order(program, types, entry, room, n)
                && crate::frame::balance::kinds_are_true(program, types, n)
            &&& end matches Outcome::Host(n, _, _, _, _) ==> n.pending is Host
                && waits_in_good_order(program, types, entry, room, n)
            &&& end matches Outcome::Builtin(n, _, _, _) ==> n.pending is Builtin
                && waits_in_good_order(program, types, entry, room, n)
        }),
    decreases steps,
{
    let marks = choose|marks: Seq<Mark>| #[trigger]
        ordered(program, types, entry, room, m, marks);
    reveal(sound);
    if steps == 0 {
        crate::frame::balance::lemma_kinds(program, types, entry, m, marks);
    } else {
        assert(crate::frame::machine::run_for(program, m, 0) == Outcome::Next(m));
        assert(crate::frame::truth::can_step(program, types, entry, m, marks)) by {
            reveal(crate::frame::truth::can_step);
        }
        assert(crate::frame::typed::ready(program, types, entry, room, m, marks)) by {
            reveal(crate::frame::typed::ready);
        }
        crate::frame::truth::lemma_step_in_balance(program, types, entry, m, marks);
        lemma_one_step(program, types, entry, room, m, marks);
        crate::frame::truth::lemma_ready(program, types, entry, m, marks);
        match crate::frame::machine::step(program, m) {
            Outcome::Next(n) => {
                lemma_one_object(program, m, n);
                assert(ordered(
                    program,
                    types,
                    entry,
                    room,
                    n,
                    crate::frame::truth::marks_after(m, marks, n),
                ));
                assert forall|k: nat| k < steps - 1 implies (
                #[trigger] crate::frame::machine::run_for(program, n, k) matches Outcome::Next(
                    later,
                ) ==> crate::frame::onward::says_its_length(program, later)) by {
                    assert(crate::frame::machine::run_for(program, m, k + 1)
                        == crate::frame::machine::run_for(program, n, k));
                }
                an_admitted_run_goes_on(program, types, room, entry, n, (steps - 1) as nat);
            },
            Outcome::Host(n, _, _, _, _) => {
                assert(ordered_to_wait(program, types, entry, room, n, marks));
            },
            Outcome::Builtin(n, _, _, _) => {
                assert(ordered_to_wait(program, types, entry, room, n, marks));
            },
            _ => {},
        }
    }
}

} // verus!
