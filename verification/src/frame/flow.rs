//! An admitted run goes on, where control moves and where calls begin and end.
use crate::frame::balance::{Data, Mark, Move, Out, Stand, Ty, Types};
use crate::frame::kinds::Part;
use crate::frame::machine::{Call, Machine, Outcome, MAX_CALL_DEPTH};
use crate::ir::{Function, FunctionId, Inst, Program, Scalar, SlotKind};
use crate::slot::{Form, Object};
use crate::value::Datum;
use vstd::prelude::*;

verus! {

/// Where a move of control takes so many values and words.
pub open spec fn turn(inst: Inst) -> Move {
    match inst {
        Inst::Jump(_) => crate::frame::balance::no_move(),
        Inst::JumpIfFalse(_) => crate::frame::balance::moves(1, 1, Out::Nothing),
        Inst::JumpIfTrue(_) => crate::frame::balance::moves(1, 1, Out::Nothing),
        _ => crate::frame::balance::moves(0, 1, Out::Nothing),
    }
}

/// An instruction that only moves control.
pub open spec fn turns(inst: Inst) -> bool {
    inst is Jump || inst is JumpIfFalseScalar || inst is JumpIfTrueScalar || inst is JumpIfFalse
        || inst is JumpIfTrue
}

/// Where a run that only moves control comes to.
#[verifier::spinoff_prover]
proof fn lemma_turned(
    program: Program,
    types: Types,
    entry: FunctionId,
    room: int,
    m: Machine,
    marks: Seq<Mark>,
    test: Option<(Seq<char>, bool)>,
    n: Machine,
)
    requires
        crate::frame::typed::ready(program, types, entry, room, m, marks),
        turns(crate::frame::machine::running(program, m).code@[m.pc]),
        ({
            let inst = crate::frame::machine::running(program, m).code@[m.pc];
            let by = turn(inst);
            let id = m.frames.last().function;
            let s = types.stand(id, m.pc);
            let t = types.stand(id, n.pc);
            &&& n.frames == m.frames
            &&& n.objects == m.objects
            &&& n.next == m.next
            &&& n.boundary == m.boundary
            &&& n.words == m.words.take(m.words.len() - by.words)
            &&& n.refs == m.refs.take(m.refs.len() - by.words)
            &&& crate::frame::kinds::goes_to(inst, m.pc, n.pc)
            &&& crate::frame::balance::can_move(s, by)
            &&& crate::frame::balance::goes_on(program, types, id, s, by, n.pc)
            &&& crate::frame::rules::flows(types, s, by, t, test)
            &&& crate::frame::rules::keeps_slots(types, s, t, None)
            &&& test is Some ==> s.words.len() >= 2 && by.words == 1 && (
            s.words[s.words.len() - 2] is Object ==> crate::frame::typing::is_the_case(
                m.objects,
                m.words[m.words.len() - 2],
                (test->0).0,
            ) == (test->0).1)
        }),
    ensures
        crate::frame::typing::typed_by(
            program,
            types,
            room,
            n,
            crate::frame::truth::next_marks(marks, n.pc),
            crate::frame::balance::no_move(),
        ),
{
    crate::frame::typed::lemma_rules(program, types, entry, room, m, marks);
    let function = crate::frame::machine::running(program, m);
    let inst = function.code@[m.pc];
    let by = turn(inst);
    let held = crate::frame::operands::along(program, function, marks.last().path);
    assert(crate::frame::balance::leaves(program, inst, held, by, None)) by {
        reveal(crate::frame::operands::after);
        assert(crate::frame::operands::after(program, inst, held) =~= held.take(
            held.len() - by.values,
        ));
    }
    crate::frame::typed::lemma_carries(
        program,
        types,
        entry,
        room,
        m,
        marks,
        by,
        None,
        test,
        None,
        n,
    );
}

#[verifier::spinoff_prover]
pub proof fn lemma_jumps(
    program: Program,
    types: Types,
    entry: FunctionId,
    room: int,
    m: Machine,
    marks: Seq<Mark>,
)
    requires
        crate::frame::typed::ready(program, types, entry, room, m, marks),
        crate::frame::machine::running(program, m).code@[m.pc] is Jump,
    ensures
        crate::frame::progress::stepped_well(
            program,
            types,
            room,
            m,
            marks,
            crate::frame::machine::step(program, m),
        ),
{
    crate::frame::typed::lemma_rules(program, types, entry, room, m, marks);
    crate::frame::typed::lemma_moves(program, types, entry, room, m, marks);
    lemma_balanced(program, types, entry, room, m, marks);
    let function = crate::frame::machine::running(program, m);
    let inst = function.code@[m.pc];
    let to = inst->Jump_0 as int;
    reveal(crate::frame::balance::balanced_at);
    reveal(crate::frame::rules::typed_at);
    crate::frame::truth::lemma_jump_shape(m, function, to);
    assert(m.words.take(m.words.len() as int) =~= m.words);
    assert(m.refs.take(m.refs.len() as int) =~= m.refs);
    if let Outcome::Next(n) = crate::frame::machine::step(program, m) {
        lemma_turned(program, types, entry, room, m, marks, None, n);
    }
}

/// An instruction of a run that is ready is in balance.
proof fn lemma_balanced(
    program: Program,
    types: Types,
    entry: FunctionId,
    room: int,
    m: Machine,
    marks: Seq<Mark>,
)
    requires
        crate::frame::typed::ready(program, types, entry, room, m, marks),
    ensures
        crate::frame::balance::balanced_at(program, types, m.frames.last().function, m.pc),
{
    reveal(crate::frame::typed::ready);
    crate::frame::truth::lemma_ready(program, types, entry, m, marks);
}

/// Where a branch goes, and when it goes there.
pub open spec fn branch_to(inst: Inst) -> int {
    match inst {
        Inst::JumpIfFalseScalar(to) => to as int,
        Inst::JumpIfTrueScalar(to) => to as int,
        Inst::JumpIfFalse(to) => to as int,
        Inst::JumpIfTrue(to) => to as int,
        _ => 0,
    }
}

pub open spec fn when_zero(inst: Inst) -> bool {
    inst is JumpIfFalseScalar || inst is JumpIfFalse
}

proof fn lemma_branch_rules(program: Program, types: Types, id: FunctionId, pc: int)
    requires
        crate::frame::balance::balanced_at(program, types, id, pc),
        crate::frame::rules::typed_at(program, types, id, pc),
        turns(program.func(id).code@[pc]),
        !(program.func(id).code@[pc] is Jump),
    ensures
        ({
            let inst = program.func(id).code@[pc];
            let values = turn(inst).values;
            &&& crate::frame::rules::branch_typed(
                types,
                id,
                pc,
                branch_to(inst),
                values,
                when_zero(inst),
            )
            &&& crate::frame::balance::branches(program, types, id, pc, values, branch_to(inst))
            &&& turn(inst) == crate::frame::balance::moves(values, 1, Out::Nothing)
        }),
{
    reveal(crate::frame::balance::balanced_at);
    reveal(crate::frame::rules::typed_at);
}

#[verifier::spinoff_prover]
pub proof fn lemma_branches(
    program: Program,
    types: Types,
    entry: FunctionId,
    room: int,
    m: Machine,
    marks: Seq<Mark>,
)
    requires
        crate::frame::typed::ready(program, types, entry, room, m, marks),
        turns(crate::frame::machine::running(program, m).code@[m.pc]),
        !(crate::frame::machine::running(program, m).code@[m.pc] is Jump),
    ensures
        crate::frame::progress::stepped_well(
            program,
            types,
            room,
            m,
            marks,
            crate::frame::machine::step(program, m),
        ),
{
    crate::frame::typed::lemma_rules(program, types, entry, room, m, marks);
    crate::frame::typed::lemma_moves(program, types, entry, room, m, marks);
    lemma_balanced(program, types, entry, room, m, marks);
    let function = crate::frame::machine::running(program, m);
    let inst = function.code@[m.pc];
    let id = m.frames.last().function;
    let to = branch_to(inst);
    let s = types.stand(id, m.pc);
    lemma_branch_rules(program, types, id, m.pc);
    crate::frame::typed::lemma_operand(program, types, entry, room, m, marks, s.words.len() - 1);
    crate::frame::truth::lemma_branch_shape(m, function, to, when_zero(inst));
    let taken = (m.top() == 0) == when_zero(inst);
    let test = crate::frame::rules::tested(s, taken == !when_zero(inst));
    if let Outcome::Next(n) = crate::frame::machine::step(program, m) {
        lemma_turned(program, types, entry, room, m, marks, test, n);
    }
}

// ------------------------------------------------------- a call that ends

/// What a call that has answered leaves: its caller's words, and the answer.
pub open spec fn answered(program: Program, types: Types, m: Machine, n: Machine) -> bool {
    let done = m.frames.last();
    let callee = program.func(done.function);
    let base = done.base as int;
    &&& n.frames == m.frames.drop_last()
    &&& n.pc == done.return_pc
    &&& n.objects == m.objects
    &&& n.next == m.next
    &&& callee.returns is Scalar ==> {
        &&& n.words == m.words.take(base).push(n.words.last())
        &&& n.refs == m.refs.take(base).push(false)
        &&& n.boundary == m.boundary
        &&& crate::frame::typing::plain_fits(
            program,
            n.words.last(),
            crate::frame::rules::result_ty(callee),
        )
    }
    &&& !(callee.returns is Scalar) ==> {
        &&& n.words == m.words.take(base)
        &&& n.refs == m.refs.take(base)
        &&& n.boundary == m.boundary.push(n.boundary.last())
        &&& crate::frame::typing::data_is(n.boundary.last(), types.answers[done.function])
    }
}

/// The calls but the last keep to their types once the last is closed.
#[verifier::spinoff_prover]
proof fn lemma_uncovered(
    program: Program,
    types: Types,
    entry: FunctionId,
    room: int,
    m: Machine,
    marks: Seq<Mark>,
    by: Move,
)
    requires
        crate::frame::balance::stands_by(program, types, entry, m, marks, by),
        crate::frame::typing::typed_by(program, types, room, m, marks, by),
        m.frames.len() > 1,
        m.words.len() >= m.frames.last().base,
        m.boundary.len() == marks.last().low,
    ensures
        crate::frame::typing::typed_by(
            program,
            types,
            room,
            crate::frame::truth::uncovered(m),
            marks.drop_last(),
            crate::frame::truth::took(program, m),
        ),
{
    reveal(crate::frame::balance::stands_by);
    reveal(crate::frame::typing::typed_callers);
    let mid = crate::frame::truth::uncovered(m);
    let rest = marks.drop_last();
    let k = m.frames.len() as int;
    let base = m.frames.last().base as int;
    assert forall|i: int, j: int|
        #![trigger m.frames[i], m.frames[j]]
        0 <= i && j == i + 1 && j < k implies crate::frame::typing::typed_call(
        program,
        types,
        mid,
        m.frames[i],
        marks[i],
        m.frames[j].return_pc - 1,
        crate::frame::typing::taken_by(program, m.frames[i], m.frames[j]),
    ) by {
        assert(crate::frame::balance::calls(
            program,
            types,
            m.frames[i],
            marks[i],
            m.frames[j],
            marks[j],
            m.refs,
        ));
        assert(m.frames[j].base <= m.frames[k - 1].base);
        assert(marks[j].low <= marks[k - 1].low);
        crate::frame::typing::lemma_call_elsewhere(
            program,
            types,
            m,
            m.frames[i],
            marks[i],
            m.frames[j].return_pc - 1,
            crate::frame::typing::taken_by(program, m.frames[i], m.frames[j]),
            mid,
            m.frames[j].base as int,
            marks[j].low,
        );
    }
    assert(m.frames[k - 2] == mid.frames.last() && rest.last() == marks[k - 2]);
    assert(m.frames[k - 1] == m.frames.last());
    assert forall|i: int| 0 <= i < mid.frames.len() implies (#[trigger] mid.frames[i]).base <= i
        * room by {
        assert(mid.frames[i] == m.frames[i]);
    }
    assert forall|i: int, j: int|
        #![trigger rest[i], rest[j]]
        0 <= i <= j < rest.len() implies 0 <= rest[i].low <= rest[j].low by {
        assert(rest[i] == marks[i] && rest[j] == marks[j]);
    }
    assert forall|i: int, j: int|
        #![trigger mid.frames[i], mid.frames[j]]
        0 <= i && j == i + 1 && j < mid.frames.len() implies crate::frame::typing::typed_call(
        program,
        types,
        mid,
        mid.frames[i],
        rest[i],
        mid.frames[j].return_pc - 1,
        crate::frame::typing::taken_by(program, mid.frames[i], mid.frames[j]),
    ) by {
        assert(mid.frames[i] == m.frames[i] && mid.frames[j] == m.frames[j]);
        assert(rest[i] == marks[i]);
    }
}

/// The rules of a call a run waits at.
#[verifier::spinoff_prover]
proof fn lemma_call_rules(
    program: Program,
    types: Types,
    entry: FunctionId,
    room: int,
    m: Machine,
    marks: Seq<Mark>,
    by: Move,
    target: FunctionId,
)
    requires
        crate::frame::validity::valid(program),
        crate::frame::balance::balanced(program, types, entry),
        crate::frame::rules::well_typed(program, types, entry, room),
        crate::frame::balance::stands_by(program, types, entry, m, marks, by),
        crate::frame::machine::running(program, m).code@[m.pc] matches Inst::Call {
            function: called,
            scalar_argc,
            value_argc,
            place_argc: _,
        } && called == target && by == crate::frame::balance::call_move(
            program,
            target,
            scalar_argc as int,
            value_argc as int,
        ),
    ensures
        ({
            let id = m.frames.last().function;
            let s = types.stand(id, m.pc);
            &&& crate::frame::rules::call_typed(program, types, id, m.pc, target, by)
            &&& crate::frame::balance::goes_on_from_call(
                program,
                types,
                id,
                s,
                target,
                by,
                m.pc + 1,
            )
            &&& crate::frame::rules::stands_well(program, id, s)
            &&& crate::frame::rules::stands_well(program, id, types.stand(id, m.pc + 1))
            &&& crate::frame::balance::can_move(s, by)
            &&& by.words <= program.func(target).slots@.len()
            &&& crate::frame::operands::arrives(program.func(id), marks.last().path, m.pc)
            &&& crate::frame::operands::along(program, program.func(id), marks.last().path).len()
                == s.values.len()
            &&& marks.last().low >= 0
            &&& m.boundary.len() == marks.last().low + s.kept.len() - by.kept
            &&& m.words.len() == crate::frame::balance::operands_from(program, m.frames.last())
                + s.words.len() - by.words
            &&& m.refs.len() == m.words.len()
            &&& m.frames.len() > 0
            &&& m.frames.len() == marks.len()
        }),
{
    crate::frame::truth::lemma_running(program, types, entry, m, marks, by);
    let id = m.frames.last().function;
    assert(crate::frame::admission::reaches(program, entry, id));
    assert(crate::frame::rules::function_typed(program, types, id, room)) by {
        reveal(crate::frame::rules::well_typed);
    }
    assert(crate::frame::rules::typed_at(program, types, id, m.pc)
        && crate::frame::rules::stands_well(program, id, types.stand(id, m.pc))) by {
        reveal(crate::frame::rules::function_typed);
        assert(crate::frame::rules::typed_at(program, types, id, m.pc));
    }
    assert(crate::frame::rules::call_typed(program, types, id, m.pc, target, by)) by {
        reveal(crate::frame::rules::typed_at);
    }
    assert(by.words <= program.func(target).slots@.len()
        && crate::frame::balance::goes_on_from_call(
        program,
        types,
        id,
        types.stand(id, m.pc),
        target,
        by,
        m.pc + 1,
    )) by {
        reveal(crate::frame::balance::balanced_at);
    }
    assert(crate::frame::rules::stands_well(program, id, types.stand(id, m.pc + 1))) by {
        reveal(crate::frame::rules::function_typed);
        assert(crate::frame::rules::typed_at(program, types, id, m.pc + 1));
    }
    reveal(crate::frame::balance::stands_by);
}

/// A call that has answered leaves a run that keeps to its types.
#[verifier::spinoff_prover]
proof fn lemma_resumes(
    program: Program,
    types: Types,
    entry: FunctionId,
    room: int,
    m: Machine,
    marks: Seq<Mark>,
    by: Move,
    n: Machine,
)
    requires
        crate::frame::validity::valid(program),
        crate::frame::balance::balanced(program, types, entry),
        crate::frame::rules::well_typed(program, types, entry, room),
        crate::frame::balance::stands_by(program, types, entry, m, marks, by),
        crate::frame::typing::typed_by(program, types, room, m, marks, by),
        m.frames.len() > 1,
        m.words.len() >= m.frames.last().base,
        m.boundary.len() == marks.last().low,
        answered(program, types, m, n),
    ensures
        crate::frame::typing::typed_by(
            program,
            types,
            room,
            n,
            crate::frame::truth::next_marks(marks.drop_last(), n.pc),
            crate::frame::balance::no_move(),
        ),
{
    let mid = crate::frame::truth::uncovered(m);
    let rest = marks.drop_last();
    let took = crate::frame::truth::took(program, m);
    let target = m.frames.last().function;
    crate::frame::truth::lemma_uncovers(program, types, entry, m, marks, by);
    lemma_uncovered(program, types, entry, room, m, marks, by);
    assert(mid.frames.last() == m.frames[m.frames.len() - 2]);
    lemma_call_rules(program, types, entry, room, mid, rest, took, target);
    let back = crate::frame::balance::answered_move(program, target, took);
    lemma_settles(program, types, mid, rest.last(), took, target, n);
    let other = crate::frame::truth::next_marks(rest, n.pc);
    lemma_below(program, types, entry, room, mid, rest, took, n, other);
}

proof fn lemma_below(
    program: Program,
    types: Types,
    entry: FunctionId,
    room: int,
    m: Machine,
    marks: Seq<Mark>,
    by: Move,
    n: Machine,
    other: Seq<Mark>,
)
    requires
        crate::frame::balance::stands_by(program, types, entry, m, marks, by),
        crate::frame::typing::typed_by(program, types, room, m, marks, by),
        n.frames == m.frames,
        n.objects == m.objects,
        n.next == m.next,
        m.frames.len() > 0,
        other == crate::frame::truth::next_marks(marks, n.pc),
        m.words.len() >= m.frames.last().base,
        m.boundary.len() >= marks.last().low,
        marks.len() == m.frames.len(),
        forall|i: int|
            0 <= i < m.words.len() ==> #[trigger] n.words[i] == m.words[i] && n.refs[i]
                == m.refs[i],
        forall|i: int| 0 <= i < m.boundary.len() ==> #[trigger] n.boundary[i] == m.boundary[i],
    ensures
        crate::frame::typing::typed_callers(program, types, room, n, other),
        crate::frame::typing::objects_stand(program, n),
{
    crate::frame::typed::lemma_below(program, types, entry, room, m, marks, by, n, other);
}

/// A caller keeps to its types with the answer of its call.
#[verifier::spinoff_prover]
proof fn lemma_settles(
    program: Program,
    types: Types,
    mid: Machine,
    mark: Mark,
    took: Move,
    target: FunctionId,
    n: Machine,
)
    requires
        mid.frames.len() > 0,
        mid.refs.len() == mid.words.len(),
        n.frames == mid.frames,
        n.objects == mid.objects,
        n.pc == mid.pc + 1,
        crate::frame::typing::typed_call(
            program,
            types,
            mid,
            mid.frames.last(),
            mark,
            mid.pc,
            took,
        ),
        mark.low >= 0,
        ({
            let id = mid.frames.last().function;
            let s = types.stand(id, mid.pc);
            let function = program.func(id);
            let callee = program.func(target);
            &&& function.code@[mid.pc] matches Inst::Call {
                function: called,
                scalar_argc,
                value_argc,
                place_argc: _,
            } && called == target && took == crate::frame::balance::call_move(
                program,
                target,
                scalar_argc as int,
                value_argc as int,
            )
            &&& crate::frame::rules::call_typed(program, types, id, mid.pc, target, took)
            &&& crate::frame::balance::goes_on_from_call(
                program,
                types,
                id,
                s,
                target,
                took,
                mid.pc + 1,
            )
            &&& crate::frame::rules::stands_well(program, id, s)
            &&& crate::frame::rules::stands_well(program, id, types.stand(id, mid.pc + 1))
            &&& crate::frame::balance::can_move(s, took)
            &&& crate::frame::operands::arrives(function, mark.path, mid.pc)
            &&& crate::frame::operands::along(program, function, mark.path).len()
                == s.values.len()
            &&& mid.boundary.len() == mark.low + s.kept.len() - took.kept
            &&& mid.words.len() == crate::frame::balance::operands_from(program, mid.frames.last())
                + s.words.len() - took.words
            &&& callee.returns is Scalar ==> {
                &&& n.words == mid.words.push(n.words.last())
                &&& n.refs == mid.refs.push(false)
                &&& n.boundary == mid.boundary
                &&& crate::frame::typing::plain_fits(
                    program,
                    n.words.last(),
                    crate::frame::rules::result_ty(callee),
                )
            }
            &&& !(callee.returns is Scalar) ==> {
                &&& n.words == mid.words
                &&& n.refs == mid.refs
                &&& n.boundary == mid.boundary.push(n.boundary.last())
                &&& crate::frame::typing::data_is(n.boundary.last(), types.answers[target])
            }
        }),
    ensures
        crate::frame::typing::typed_call(
            program,
            types,
            n,
            n.frames.last(),
            Mark { path: mark.path.push(n.pc), low: mark.low },
            n.pc,
            crate::frame::balance::no_move(),
        ),
{
    let id = mid.frames.last().function;
    let s = types.stand(id, mid.pc);
    let t = types.stand(id, n.pc);
    let function = program.func(id);
    let callee = program.func(target);
    let by = crate::frame::balance::answered_move(program, target, took);
    let held = crate::frame::operands::along(program, function, mark.path);
    crate::frame::truth::lemma_after_call(program, function.code@[mid.pc], held, took);
    assert(crate::frame::typing::typed_call(
        program,
        types,
        mid,
        mid.frames.last(),
        mark,
        mid.pc,
        by,
    )) by {
        reveal(crate::frame::typing::typed_call);
    }
    assert(crate::frame::rules::flows(types, s, by, t, None)) by {
        reveal(crate::frame::rules::flows);
    }
    assert(crate::frame::kinds::goes_to(function.code@[mid.pc], mid.pc, n.pc));
    if callee.returns is Scalar {
        let top = s.words.len() - took.words;
        let ty = crate::frame::rules::result_ty(callee);
        assert(crate::frame::typing::fits(program, types, n.objects, n.words.last(), ty));
        crate::frame::typing::lemma_within(
            program,
            types,
            n.objects,
            n.words.last(),
            ty,
            t.words[top],
        );
    }
    crate::frame::typed::lemma_goes_on(program, types, mid, mark, by, None, None, None, n);
}

/// The place a call goes back to is one of its caller's.
proof fn lemma_goes_back(
    program: Program,
    types: Types,
    entry: FunctionId,
    room: int,
    m: Machine,
    marks: Seq<Mark>,
    by: Move,
)
    requires
        crate::frame::validity::valid(program),
        crate::frame::balance::balanced(program, types, entry),
        crate::frame::rules::well_typed(program, types, entry, room),
        crate::frame::balance::stands_by(program, types, entry, m, marks, by),
        m.frames.len() > 1,
        m.words.len() >= m.frames.last().base,
        m.boundary.len() == marks.last().low,
    ensures
        m.frames.last().return_pc < program.func(
            m.frames[m.frames.len() - 2].function,
        ).code@.len(),
{
    let mid = crate::frame::truth::uncovered(m);
    crate::frame::truth::lemma_uncovers(program, types, entry, m, marks, by);
    assert(mid.frames.last() == m.frames[m.frames.len() - 2]);
    lemma_call_rules(
        program,
        types,
        entry,
        room,
        mid,
        marks.drop_last(),
        crate::frame::truth::took(program, m),
        m.frames.last().function,
    );
}

/// What every step of a ready run rests on.
proof fn lemma_grounds(
    program: Program,
    types: Types,
    entry: FunctionId,
    room: int,
    m: Machine,
    marks: Seq<Mark>,
)
    requires
        crate::frame::typed::ready(program, types, entry, room, m, marks),
    ensures
        crate::frame::validity::valid(program),
        crate::frame::balance::balanced(program, types, entry),
        crate::frame::rules::well_typed(program, types, entry, room),
        program.has_function(entry),
        crate::frame::admission::refusals_from(program, entry).len() == 0,
        crate::frame::truth::can_step(program, types, entry, m, marks),
        crate::frame::balance::stands_by(
            program,
            types,
            entry,
            m,
            marks,
            crate::frame::balance::no_move(),
        ),
        crate::frame::typing::typed_by(
            program,
            types,
            room,
            m,
            marks,
            crate::frame::balance::no_move(),
        ),
{
    reveal(crate::frame::typed::ready);
    reveal(crate::frame::truth::can_step);
    reveal(crate::frame::balance::marked);
}

#[verifier::spinoff_prover]
pub proof fn lemma_returns_scalar(
    program: Program,
    types: Types,
    entry: FunctionId,
    room: int,
    m: Machine,
    marks: Seq<Mark>,
)
    requires
        crate::frame::typed::ready(program, types, entry, room, m, marks),
        crate::frame::machine::running(program, m).code@[m.pc] is ReturnScalar,
    ensures
        crate::frame::progress::stepped_well(
            program,
            types,
            room,
            m,
            marks,
            crate::frame::machine::step(program, m),
        ),
{
    crate::frame::typed::lemma_rules(program, types, entry, room, m, marks);
    crate::frame::typed::lemma_moves(program, types, entry, room, m, marks);
    lemma_balanced(program, types, entry, room, m, marks);
    lemma_grounds(program, types, entry, room, m, marks);
    let function = crate::frame::machine::running(program, m);
    let id = m.frames.last().function;
    let s = types.stand(id, m.pc);
    assert(function.returns is Scalar && s.words.len() > 0 && s.kept.len() == 0) by {
        reveal(crate::frame::balance::balanced_at);
    }
    let ty = crate::frame::rules::result_ty(function);
    assert(crate::frame::typing::within(
        types,
        crate::frame::rules::put_as(false, s.words.last()),
        ty,
    )) by {
        reveal(crate::frame::rules::typed_at);
    }
    crate::frame::typed::lemma_operand(program, types, entry, room, m, marks, s.words.len() - 1);
    assert(crate::frame::typing::plain_fits(program, m.top(), ty));
    if m.frames.len() > 1 {
        lemma_goes_back(
            program,
            types,
            entry,
            room,
            m,
            marks,
            crate::frame::balance::no_move(),
        );
    }
    lemma_scalar_ends(program, m, function);
    if let Outcome::Next(n) = crate::frame::machine::step(program, m) {
        crate::frame::truth::lemma_return_scalar_shape(program, m, function, n);
        lemma_resumes(
            program,
            types,
            entry,
            room,
            m,
            marks,
            crate::frame::balance::no_move(),
            n,
        );
    }
}

/// A return of a scalar ends the run or goes back.
proof fn lemma_scalar_ends(program: Program, m: Machine, function: Function)
    requires
        m.frames.len() > 0,
        function == crate::frame::machine::running(program, m),
        m.refs.len() == m.words.len(),
        m.words.len() > m.frames.last().base,
        function.returns is Scalar,
        function.returns == SlotKind::Scalar(Scalar::Bool) ==> m.top() <= 1,
        m.frames.len() > 1 ==> m.frames.last().return_pc < program.func(
            m.frames[m.frames.len() - 2].function,
        ).code@.len(),
    ensures
        !(crate::frame::machine::return_scalar(program, m, function) is Stuck),
        !(crate::frame::machine::return_scalar(program, m, function) is Host),
        !(crate::frame::machine::return_scalar(program, m, function) is Builtin),
{
    crate::frame::truth::lemma_charged(m, 0, function.spot(m.pc));
    if let Ok(a) = crate::frame::machine::safepoint(m, function.spot(m.pc)) {
        let out = crate::frame::machine::closed(a.dropped(1));
        if out.frames.len() > 0 {
            assert(out.frames.last() == m.frames[m.frames.len() - 2]);
        }
    }
}

/// A call left with a value it may answer.
#[verifier::spinoff_prover]
proof fn lemma_leaves(
    program: Program,
    types: Types,
    entry: FunctionId,
    room: int,
    m: Machine,
    marks: Seq<Mark>,
    by: Move,
    a: Machine,
    value: Datum,
)
    requires
        crate::frame::typed::ready(program, types, entry, room, m, marks),
        crate::frame::balance::stands_by(program, types, entry, a, marks, by),
        crate::frame::typing::typed_by(program, types, room, a, marks, by),
        a.frames == m.frames,
        a.refs.len() == a.words.len(),
        a.words.len() >= a.frames.last().base,
        a.boundary.len() == marks.last().low,
        !(crate::frame::machine::running(program, m).returns is Scalar),
        crate::frame::typing::data_is(value, types.answers[m.frames.last().function]),
    ensures
        crate::frame::progress::stepped_well(
            program,
            types,
            room,
            m,
            marks,
            crate::frame::machine::leave(program, a, value),
        ),
{
    lemma_grounds(program, types, entry, room, m, marks);
    crate::frame::typed::lemma_rules(program, types, entry, room, m, marks);
    crate::frame::truth::lemma_leave_shape(program, a, value);
    if a.frames.len() > 1 {
        lemma_goes_back(program, types, entry, room, a, marks, by);
    }
    if let Outcome::Next(n) = crate::frame::machine::leave(program, a, value) {
        assert(n.boundary.last() == value);
        lemma_resumes(program, types, entry, room, a, marks, by, n);
    }
}

/// The values of an object are as many as its parts.
proof fn lemma_parts_count(
    program: Program,
    objects: Map<u64, Object>,
    handle: u64,
    parts: Seq<Part>,
    count: int,
)
    requires
        0 <= count,
    ensures
        crate::frame::machine::parts_at(program, objects, handle, parts, count) matches Some(data)
            ==> data.len() == count,
    decreases count,
{
    if count > 0 {
        lemma_parts_count(program, objects, handle, parts, count - 1);
    }
}

/// What a `?` opens of the value a typed handle names.
#[verifier::spinoff_prover]
proof fn lemma_opens(
    program: Program,
    types: Types,
    objects: Map<u64, Object>,
    word: u64,
    of: Ty,
    value: Datum,
    data: Data,
)
    requires
        crate::frame::typing::fits(program, types, objects, word, of),
        data is Any || crate::frame::rules::opens_as(types, of, data),
        crate::frame::machine::datum_at(program, objects, word) == Some(value),
    ensures
        crate::frame::machine::tried(value) matches Some(Ok(opened))
            ==> crate::frame::typing::data_is(opened, data),
{
    if !(data is Any) && crate::frame::machine::tried(value) is Some {
        let plan = objects[word].plan;
        assert(types.sorts(of->Object_0).dom().contains(plan));
        if let Form::Case { kind_name, case, payload } = plan.form {
            lemma_parts_count(program, objects, word, payload, payload.len() as int);
            reveal_with_fuel(crate::frame::machine::parts_at, 2);
            if payload.len() == 1 {
                assert(crate::frame::machine::parts_at(program, objects, word, payload, 1) is Some);
            }
        }
    }
}

/// A value taken at an instruction is what is said of it.
#[verifier::spinoff_prover]
proof fn lemma_kept_value(
    program: Program,
    types: Types,
    entry: FunctionId,
    room: int,
    m: Machine,
    marks: Seq<Mark>,
)
    requires
        crate::frame::typed::ready(program, types, entry, room, m, marks),
        types.stand(m.frames.last().function, m.pc).kept.len() > 0,
    ensures
        m.boundary.len() > 0,
        crate::frame::typing::data_is(
            m.boundary.last(),
            types.stand(m.frames.last().function, m.pc).kept.last(),
        ),
{
    crate::frame::typed::lemma_rules(program, types, entry, room, m, marks);
    lemma_grounds(program, types, entry, room, m, marks);
    reveal(crate::frame::typing::typed_call);
    let kept = types.stand(m.frames.last().function, m.pc).kept;
    let i = kept.len() - 1;
    assert(crate::frame::typing::data_is(m.boundary[marks.last().low + i], kept[i]));
}

#[verifier::spinoff_prover]
pub proof fn lemma_returns(
    program: Program,
    types: Types,
    entry: FunctionId,
    room: int,
    m: Machine,
    marks: Seq<Mark>,
)
    requires
        crate::frame::typed::ready(program, types, entry, room, m, marks),
        crate::frame::machine::running(program, m).code@[m.pc] is Return,
    ensures
        crate::frame::progress::stepped_well(
            program,
            types,
            room,
            m,
            marks,
            crate::frame::machine::step(program, m),
        ),
{
    crate::frame::typed::lemma_rules(program, types, entry, room, m, marks);
    crate::frame::typed::lemma_moves(program, types, entry, room, m, marks);
    lemma_balanced(program, types, entry, room, m, marks);
    lemma_grounds(program, types, entry, room, m, marks);
    let function = crate::frame::machine::running(program, m);
    let id = m.frames.last().function;
    let s = types.stand(id, m.pc);
    let crosses = crate::frame::balance::crosses(program, function, m.pc);
    let by = crate::frame::balance::takes_value(!crosses, Out::Nothing);
    assert(crate::frame::balance::can_move(s, by) && s.kept.len() == by.kept) by {
        reveal(crate::frame::balance::balanced_at);
    }
    assert(crate::frame::rules::return_typed(program, types, id, m.pc)) by {
        reveal(crate::frame::rules::typed_at);
    }
    crate::frame::truth::lemma_charged(m, 0, function.spot(m.pc));
    if let Ok(a) = crate::frame::machine::safepoint(m, function.spot(m.pc)) {
        let asked = a.materializing(1);
        crate::frame::onward::lemma_takes_value(
            program,
            types,
            entry,
            room,
            m,
            marks,
            asked,
        );
        let pair = crate::frame::machine::taken(program, asked, function)->0;
        crate::frame::typed::lemma_taken_off(program, types, entry, room, m, marks, by, pair.1);
        crate::frame::truth::lemma_taken_stands(program, types, entry, m, marks, by, pair.1);
        lemma_return_value(program, types, entry, room, m, marks, pair.0);
        lemma_leaves(program, types, entry, room, m, marks, by, pair.1, pair.0);
    }
}

/// What a return answers is what is said of it.
#[verifier::spinoff_prover]
proof fn lemma_return_value(
    program: Program,
    types: Types,
    entry: FunctionId,
    room: int,
    m: Machine,
    marks: Seq<Mark>,
    value: Datum,
)
    requires
        crate::frame::typed::ready(program, types, entry, room, m, marks),
        ({
            let function = crate::frame::machine::running(program, m);
            let id = m.frames.last().function;
            let s = types.stand(id, m.pc);
            let crosses = crate::frame::balance::crosses(program, function, m.pc);
            &&& function.code@[m.pc] is Return
            &&& crate::frame::rules::return_typed(program, types, id, m.pc)
            &&& crosses ==> s.words.len() > 0 && crate::frame::machine::datum_at(
                program,
                m.objects,
                m.top(),
            ) == Some(value)
            &&& !crosses ==> s.kept.len() > 0 && value == m.boundary.last()
        }),
    ensures
        crate::frame::typing::data_is(value, types.answers[m.frames.last().function]),
{
    crate::frame::typed::lemma_rules(program, types, entry, room, m, marks);
    let function = crate::frame::machine::running(program, m);
    let id = m.frames.last().function;
    let s = types.stand(id, m.pc);
    let answer = types.answers[id];
    if crate::frame::balance::crosses(program, function, m.pc) {
        crate::frame::typed::lemma_operand(
            program,
            types,
            entry,
            room,
            m,
            marks,
            s.words.len() - 1,
        );
        if let Data::Opens(inner) = answer {
            lemma_opens(program, types, m.objects, m.top(), s.words.last(), value, *inner);
        }
    } else {
        lemma_kept_value(program, types, entry, room, m, marks);
    }
}

// ------------------------------------------------------------------- `?`

/// What a `?` is taken to open.
pub open spec fn opened_data(payload: SlotKind, t: Stand) -> Data {
    match payload {
        SlotKind::Scalar(Scalar::Int) => Data::Int,
        SlotKind::Scalar(Scalar::Bool) => Data::Bool,
        _ => t.kept.last(),
    }
}

/// What a `?` opens is what it is taken to open.
#[verifier::spinoff_prover]
proof fn lemma_tried_value(
    program: Program,
    types: Types,
    entry: FunctionId,
    room: int,
    m: Machine,
    marks: Seq<Mark>,
    value: Datum,
)
    requires
        crate::frame::typed::ready(program, types, entry, room, m, marks),
        ({
            let function = crate::frame::machine::running(program, m);
            let id = m.frames.last().function;
            let s = types.stand(id, m.pc);
            let crosses = crate::frame::balance::crosses(program, function, m.pc);
            &&& function.code@[m.pc] matches Inst::Try { payload }
                && crate::frame::rules::try_typed(program, types, id, m.pc, payload)
            &&& crosses ==> s.words.len() > 0 && crate::frame::machine::datum_at(
                program,
                m.objects,
                m.top(),
            ) == Some(value)
            &&& !crosses ==> s.kept.len() > 0 && value == m.boundary.last()
        }),
    ensures
        ({
            let function = crate::frame::machine::running(program, m);
            let id = m.frames.last().function;
            let t = types.stand(id, m.pc + 1);
            let payload = function.code@[m.pc]->payload;
            crate::frame::machine::tried(value) matches Some(Ok(opened))
                ==> crate::frame::typing::data_is(opened, opened_data(payload, t))
        }),
{
    crate::frame::typed::lemma_rules(program, types, entry, room, m, marks);
    let function = crate::frame::machine::running(program, m);
    let id = m.frames.last().function;
    let s = types.stand(id, m.pc);
    let t = types.stand(id, m.pc + 1);
    let payload = function.code@[m.pc]->payload;
    if crate::frame::balance::crosses(program, function, m.pc) {
        crate::frame::typed::lemma_operand(
            program,
            types,
            entry,
            room,
            m,
            marks,
            s.words.len() - 1,
        );
        lemma_opens(
            program,
            types,
            m.objects,
            m.top(),
            s.words.last(),
            value,
            opened_data(payload, t),
        );
    } else {
        lemma_kept_value(program, types, entry, room, m, marks);
    }
}

/// A `?` that opens a value goes on with it.
#[verifier::spinoff_prover]
proof fn lemma_opened(
    program: Program,
    types: Types,
    entry: FunctionId,
    room: int,
    m: Machine,
    marks: Seq<Mark>,
    payload: SlotKind,
    answer: Datum,
    off: Machine,
    n: Machine,
)
    requires
        crate::frame::typed::ready(program, types, entry, room, m, marks),
        ({
            let function = crate::frame::machine::running(program, m);
            let id = m.frames.last().function;
            let s = types.stand(id, m.pc);
            let t = types.stand(id, m.pc + 1);
            let by = crate::frame::balance::move_of(program, function, m.pc);
            let bare = crate::frame::balance::taken_off(m, by->0);
            let opened = crate::frame::machine::opened_payload(off, answer, payload);
            &&& function.code@[m.pc] == (Inst::Try { payload })
            &&& by is Some
            &&& crate::frame::rules::try_typed(program, types, id, m.pc, payload)
            &&& crate::frame::typing::data_is(answer, opened_data(payload, t))
            &&& off.words == bare.words
            &&& off.refs == bare.refs
            &&& off.boundary == bare.boundary
            &&& off.frames == m.frames
            &&& off.objects == m.objects
            &&& off.next == m.next
            &&& opened is Some
            &&& n.frames == m.frames
            &&& n.objects == m.objects
            &&& n.next == m.next
            &&& n.pc == m.pc + 1
            &&& n.words == opened->0.words
            &&& n.refs == opened->0.refs
            &&& n.boundary == opened->0.boundary
        }),
    ensures
        crate::frame::typing::typed_by(
            program,
            types,
            room,
            n,
            crate::frame::truth::next_marks(marks, n.pc),
            crate::frame::balance::no_move(),
        ),
{
    crate::frame::typed::lemma_rules(program, types, entry, room, m, marks);
    crate::frame::typed::lemma_moves(program, types, entry, room, m, marks);
    let function = crate::frame::machine::running(program, m);
    let by = crate::frame::balance::move_of(program, function, m.pc)->0;
    lemma_opened_carries(program, types, m, payload, answer, off, n);
    crate::frame::typed::lemma_straight(program, types, entry, room, m, marks, n);
}

proof fn lemma_opened_carries(
    program: Program,
    types: Types,
    m: Machine,
    payload: SlotKind,
    answer: Datum,
    off: Machine,
    n: Machine,
)
    requires
        m.frames.len() > 0,
        m.refs.len() == m.words.len(),
        ({
            let function = crate::frame::machine::running(program, m);
            let id = m.frames.last().function;
            let s = types.stand(id, m.pc);
            let t = types.stand(id, m.pc + 1);
            let by = crate::frame::balance::move_of(program, function, m.pc);
            let bare = crate::frame::balance::taken_off(m, by->0);
            let opened = crate::frame::machine::opened_payload(off, answer, payload);
            &&& m.words.len() == crate::frame::balance::operands_from(program, m.frames.last())
                + s.words.len()
            &&& m.boundary.len() >= s.kept.len()
            &&& by is Some
            &&& crate::frame::balance::can_move(s, by->0)
            &&& crate::frame::balance::goes_on(program, types, id, s, by->0, m.pc + 1)
            &&& function.code@[m.pc] == (Inst::Try { payload })
            &&& crate::frame::rules::try_typed(program, types, id, m.pc, payload)
            &&& crate::frame::typing::data_is(answer, opened_data(payload, t))
            &&& off.words == bare.words
            &&& off.refs == bare.refs
            &&& off.boundary == bare.boundary
            &&& opened is Some
            &&& n.frames == m.frames
            &&& n.objects == m.objects
            &&& n.pc == m.pc + 1
            &&& n.words == opened->0.words
            &&& n.refs == opened->0.refs
            &&& n.boundary == opened->0.boundary
        }),
    ensures
        ({
            let function = crate::frame::machine::running(program, m);
            let by = crate::frame::balance::move_of(program, function, m.pc)->0;
            let put = crate::frame::kinds::pushes(program, function.code@[m.pc]);
            &&& crate::frame::typed::carried(program, types, m, by, None, put, n)
            &&& by.out is Kept ==> put is None
        }),
{
}

#[verifier::spinoff_prover]
pub proof fn lemma_tries(
    program: Program,
    types: Types,
    entry: FunctionId,
    room: int,
    m: Machine,
    marks: Seq<Mark>,
)
    requires
        crate::frame::typed::ready(program, types, entry, room, m, marks),
        crate::frame::machine::running(program, m).code@[m.pc] is Try,
    ensures
        crate::frame::progress::stepped_well(
            program,
            types,
            room,
            m,
            marks,
            crate::frame::machine::step(program, m),
        ),
{
    crate::frame::typed::lemma_rules(program, types, entry, room, m, marks);
    crate::frame::typed::lemma_moves(program, types, entry, room, m, marks);
    lemma_balanced(program, types, entry, room, m, marks);
    lemma_grounds(program, types, entry, room, m, marks);
    let function = crate::frame::machine::running(program, m);
    let id = m.frames.last().function;
    let s = types.stand(id, m.pc);
    let payload = function.code@[m.pc]->payload;
    let crosses = crate::frame::balance::crosses(program, function, m.pc);
    let by = crate::frame::balance::move_of(program, function, m.pc)->0;
    assert(s.kept.len() == by.kept && !(function.returns is Scalar)) by {
        reveal(crate::frame::balance::balanced_at);
    }
    crate::frame::progress::lemma_typed_at(program, types, entry, room, m, marks);
    assert(crate::frame::balance::can_move(
        s,
        crate::frame::balance::takes_value(!crosses, Out::Nothing),
    ));
    crate::frame::onward::lemma_takes_value(program, types, entry, room, m, marks, m);
    let pair = crate::frame::machine::taken(program, m, function)->0;
    let off = pair.1.materializing(1);
    lemma_tried_value(program, types, entry, room, m, marks, pair.0);
    match crate::frame::machine::tried(pair.0) {
        Some(Ok(answer)) => {
            assert(crate::frame::machine::opened_payload(off, answer, payload) is Some);
            let opened = crate::frame::machine::opened_payload(off, answer, payload)->0;
            crate::frame::truth::lemma_charged(
                opened,
                function.block_fuel@[m.pc + 1] as int,
                function.spot(m.pc + 1),
            );
            if let Outcome::Next(n) = crate::frame::machine::step(program, m) {
                lemma_opened(
                    program,
                    types,
                    entry,
                    room,
                    m,
                    marks,
                    payload,
                    answer,
                    off,
                    n,
                );
            }
        },
        Some(Err(value)) => {
            crate::frame::truth::lemma_charged(off, 0, function.spot(m.pc));
            if let Ok(a) = crate::frame::machine::safepoint(off, function.spot(m.pc)) {
                crate::frame::typed::lemma_taken_off(
                    program,
                    types,
                    entry,
                    room,
                    m,
                    marks,
                    by,
                    a,
                );
                crate::frame::truth::lemma_taken_stands(program, types, entry, m, marks, by, a);
                assert(crate::frame::machine::tried(value) == Some(
                    Err::<Datum, Datum>(value),
                ));
                lemma_leaves(program, types, entry, room, m, marks, by, a, value);
                assert(crate::frame::machine::step(program, m) == crate::frame::machine::leave(
                    program,
                    a,
                    value,
                ));
            }
        },
        None => {},
    }
}

// ----------------------------------------------------- a call that begins

/// A function a run calls is one it may enter.
proof fn lemma_reached(
    program: Program,
    types: Types,
    entry: FunctionId,
    room: int,
    m: Machine,
    marks: Seq<Mark>,
    target: FunctionId,
)
    requires
        crate::frame::typed::ready(program, types, entry, room, m, marks),
        crate::frame::machine::running(program, m).code@[m.pc] is Call,
        target == crate::frame::machine::running(program, m).code@[m.pc]->Call_function,
    ensures
        program.has_function(target),
        program.func(target).code@.len() > 0,
        types.stand(target, 0).words.len() == 0,
        types.stand(target, 0).values.len() == 0,
        types.stand(target, 0).kept.len() == 0,
        program.func(target).slots@.len() <= room,
        crate::frame::rules::stands_well(program, target, types.stand(target, 0)),
        (MAX_CALL_DEPTH + 1) * room + 64 <= usize::MAX,
{
    crate::frame::typed::lemma_moves(program, types, entry, room, m, marks);
    lemma_grounds(program, types, entry, room, m, marks);
    let function = crate::frame::machine::running(program, m);
    let id = m.frames.last().function;
    assert(crate::frame::admission::reaches(program, entry, id)) by {
        crate::frame::truth::lemma_running(
            program,
            types,
            entry,
            m,
            marks,
            crate::frame::balance::no_move(),
        );
    }
    crate::frame::laws::lemma_call_is_counted(function, m.pc, function.code@.len() as int);
    crate::frame::admission::lemma_reaches_on(program, entry, id, target);
    reveal(crate::frame::balance::balanced);
    reveal(crate::frame::rules::well_typed);
    reveal(crate::frame::rules::function_typed);
    assert(crate::frame::rules::function_typed(program, types, target, room));
    assert(crate::frame::rules::typed_at(program, types, target, 0));
}

/// There is room for the words of one more call.
#[verifier::spinoff_prover]
proof fn lemma_room(
    program: Program,
    types: Types,
    entry: FunctionId,
    room: int,
    m: Machine,
    marks: Seq<Mark>,
    argc: int,
)
    requires
        crate::frame::typed::ready(program, types, entry, room, m, marks),
        m.frames.len() < MAX_CALL_DEPTH,
        (MAX_CALL_DEPTH + 1) * room + 64 <= usize::MAX,
        0 <= argc <= types.stand(m.frames.last().function, m.pc).words.len(),
    ensures
        m.words.len() - argc <= m.frames.len() * room,
        m.words.len() - argc + room + 64 <= usize::MAX,
        m.words.len() <= usize::MAX,
{
    crate::frame::typed::lemma_rules(program, types, entry, room, m, marks);
    lemma_grounds(program, types, entry, room, m, marks);
    let k = m.frames.len() as int;
    assert(m.frames[k - 1].base <= (k - 1) * room) by {
        reveal(crate::frame::typing::typed_callers);
    }
    assert((k - 1) * room + room == k * room) by (nonlinear_arith);
    assert(k * room + room <= (MAX_CALL_DEPTH + 1) * room) by (nonlinear_arith)
        requires
            k <= MAX_CALL_DEPTH,
            room >= 0,
    ;
}

/// An argument is what the slot it becomes is.
#[verifier::spinoff_prover]
proof fn lemma_argument(
    program: Program,
    types: Types,
    entry: FunctionId,
    room: int,
    m: Machine,
    marks: Seq<Mark>,
    target: FunctionId,
    by: Move,
    i: int,
)
    requires
        crate::frame::typed::ready(program, types, entry, room, m, marks),
        crate::frame::rules::call_typed(
            program,
            types,
            m.frames.last().function,
            m.pc,
            target,
            by,
        ),
        0 <= i < by.words <= types.stand(m.frames.last().function, m.pc).words.len(),
        by.words <= program.func(target).slots@.len(),
        crate::frame::rules::stands_well(program, target, types.stand(target, 0)),
    ensures
        crate::frame::typing::fits(
            program,
            types,
            m.objects,
            m.words[m.words.len() - by.words + i],
            types.stand(target, 0).locals[i],
        ),
        program.func(target).slots@[i] is Value ==> m.refs[m.refs.len() - by.words + i],
{
    crate::frame::typed::lemma_rules(program, types, entry, room, m, marks);
    let s = types.stand(m.frames.last().function, m.pc);
    let begin = types.stand(target, 0);
    let p = s.words.len() - by.words + i;
    crate::frame::typed::lemma_operand(program, types, entry, room, m, marks, p);
    let handle = program.func(target).slots@[i] is Value;
    let word = m.words[m.words.len() - by.words + i];
    let a = crate::frame::rules::put_as(handle, s.words[p]);
    assert(crate::frame::typing::within(types, a, begin.locals[i]));
    assert(crate::frame::typing::fits(program, types, m.objects, word, a));
    crate::frame::typing::lemma_within(program, types, m.objects, word, a, begin.locals[i]);
}

#[verifier::spinoff_prover]
pub proof fn lemma_calls(
    program: Program,
    types: Types,
    entry: FunctionId,
    room: int,
    m: Machine,
    marks: Seq<Mark>,
)
    requires
        crate::frame::typed::ready(program, types, entry, room, m, marks),
        crate::frame::machine::running(program, m).code@[m.pc] is Call,
    ensures
        crate::frame::progress::stepped_well(
            program,
            types,
            room,
            m,
            marks,
            crate::frame::machine::step(program, m),
        ),
{
    crate::frame::typed::lemma_rules(program, types, entry, room, m, marks);
    crate::frame::typed::lemma_moves(program, types, entry, room, m, marks);
    let function = crate::frame::machine::running(program, m);
    if let Inst::Call { function: target, scalar_argc, value_argc, place_argc: _ } =
        function.code@[m.pc] {
        let argc = (scalar_argc + value_argc) as int;
        let by = crate::frame::balance::call_move(
            program,
            target,
            scalar_argc as int,
            value_argc as int,
        );
        lemma_reached(program, types, entry, room, m, marks, target);
        lemma_call_moves(program, types, entry, room, m, marks, target, by);
        if crate::frame::machine::too_deep(
            m,
            program.func(target),
            function.spot(m.pc),
        ) is None {
            lemma_room(program, types, entry, room, m, marks, argc);
            lemma_call_fits(program, types, entry, room, m, marks, target, by);
            lemma_call_goes(program, m, function, target, argc);
        }
        if let Outcome::Next(n) = crate::frame::machine::step(program, m) {
            crate::frame::truth::lemma_call_shape(program, m, function, target, argc, n);
            lemma_entered(program, types, entry, room, m, marks, target, by, n);
        }
    }
}

/// What a call takes stands there.
proof fn lemma_call_moves(
    program: Program,
    types: Types,
    entry: FunctionId,
    room: int,
    m: Machine,
    marks: Seq<Mark>,
    target: FunctionId,
    by: Move,
)
    requires
        crate::frame::typed::ready(program, types, entry, room, m, marks),
        crate::frame::machine::running(program, m).code@[m.pc] matches Inst::Call {
            function: called,
            scalar_argc,
            value_argc,
            place_argc: _,
        } && called == target && by == crate::frame::balance::call_move(
            program,
            target,
            scalar_argc as int,
            value_argc as int,
        ),
    ensures
        crate::frame::balance::can_move(types.stand(m.frames.last().function, m.pc), by),
        by.words <= program.func(target).slots@.len(),
        crate::frame::rules::call_typed(
            program,
            types,
            m.frames.last().function,
            m.pc,
            target,
            by,
        ),
{
    crate::frame::typed::lemma_rules(program, types, entry, room, m, marks);
    lemma_balanced(program, types, entry, room, m, marks);
    reveal(crate::frame::balance::balanced_at);
    reveal(crate::frame::rules::typed_at);
}

proof fn lemma_call_fits(
    program: Program,
    types: Types,
    entry: FunctionId,
    room: int,
    m: Machine,
    marks: Seq<Mark>,
    target: FunctionId,
    by: Move,
)
    requires
        crate::frame::typed::ready(program, types, entry, room, m, marks),
        crate::frame::balance::can_move(types.stand(m.frames.last().function, m.pc), by),
        by.words <= program.func(target).slots@.len() <= room,
        crate::frame::rules::call_typed(
            program,
            types,
            m.frames.last().function,
            m.pc,
            target,
            by,
        ),
        crate::frame::rules::stands_well(program, target, types.stand(target, 0)),
        m.words.len() - by.words + room + 64 <= usize::MAX,
    ensures
        crate::frame::machine::fits_frame(m, program.func(target), by.words),
{
    crate::frame::typed::lemma_rules(program, types, entry, room, m, marks);
    let callee = program.func(target);
    assert forall|i: int|
        0 <= i < by.words && #[trigger] callee.slots@[i] is Value implies m.refs[m.refs.len()
        - by.words + i] by {
        lemma_argument(program, types, entry, room, m, marks, target, by, i);
    }
}

/// A call that fits goes on, unless it goes too deep or the budget stops it.
proof fn lemma_call_goes(
    program: Program,
    m: Machine,
    function: Function,
    target: FunctionId,
    argc: int,
)
    requires
        program.func(target).code@.len() > 0,
        crate::frame::machine::fits_frame(m, program.func(target), argc),
    ensures
        !(crate::frame::machine::call(program, m, function, target, argc) is Stuck),
{
    let span = function.spot(m.pc);
    let callee = program.func(target);
    crate::frame::truth::lemma_charged(m, 0, span);
    if let Ok(a) = crate::frame::machine::safepoint(m, span) {
        crate::frame::truth::lemma_charged(a, callee.block_fuel@[0] as int, callee.spot(0));
        if let Ok(b) = crate::frame::machine::charge(
            a,
            callee.block_fuel@[0] as int,
            callee.spot(0),
        ) {
            assert(crate::frame::machine::fits_frame(b, callee, argc)) by {
                assert forall|i: int|
                    0 <= i < argc && #[trigger] callee.slots@[i] is Value implies b.refs[
                b.refs.len() - argc + i] by {
                    assert(m.refs[m.refs.len() - argc + i]);
                }
            }
        }
    }
}

/// The frame a call opens keeps to its types.
#[verifier::spinoff_prover]
proof fn lemma_opens_frame(
    program: Program,
    types: Types,
    entry: FunctionId,
    room: int,
    m: Machine,
    marks: Seq<Mark>,
    target: FunctionId,
    by: Move,
    n: Machine,
)
    requires
        crate::frame::typed::ready(program, types, entry, room, m, marks),
        crate::frame::balance::can_move(types.stand(m.frames.last().function, m.pc), by),
        by.words <= program.func(target).slots@.len(),
        crate::frame::rules::call_typed(
            program,
            types,
            m.frames.last().function,
            m.pc,
            target,
            by,
        ),
        crate::frame::rules::stands_well(program, target, types.stand(target, 0)),
        types.stand(target, 0).words.len() == 0,
        types.stand(target, 0).values.len() == 0,
        types.stand(target, 0).kept.len() == 0,
        n.objects == m.objects,
        n.frames.len() > 0,
        n.frames.last().function == target,
        n.frames.last().base == m.words.len() - by.words,
        n.words == m.words + Seq::new(
            (program.func(target).slots@.len() - by.words) as nat,
            |i: int| 0u64,
        ),
        n.refs == m.refs.take(m.words.len() - by.words) + crate::frame::machine::frame_refs(
            program.func(target),
        ),
    ensures
        crate::frame::typing::typed_call(
            program,
            types,
            n,
            n.frames.last(),
            Mark { path: seq![0], low: m.boundary.len() as int },
            0,
            crate::frame::balance::no_move(),
        ),
{
    crate::frame::typed::lemma_rules(program, types, entry, room, m, marks);
    let call = n.frames.last();
    let callee = program.func(target);
    let begin = types.stand(target, 0);
    let mark = Mark { path: seq![0], low: m.boundary.len() as int };
    assert forall|i: int|
        0 <= i < callee.slots@.len() implies #[trigger] crate::frame::typing::local_is(
        program,
        types,
        n,
        call,
        begin.locals,
        i,
    ) by {
        assert(n.refs[call.base + i] == crate::frame::machine::frame_refs(callee)[i]);
        if i < by.words {
            lemma_argument(program, types, entry, room, m, marks, target, by, i);
            assert(n.words[call.base + i] == m.words[m.words.len() - by.words + i]);
        } else {
            assert(begin.locals[i] is Unset || begin.locals[i] is Word || begin.locals[i] is Bool);
            assert(n.words[call.base + i] == 0);
        }
    }
    assert(crate::frame::operands::along(program, callee, mark.path).len() == 0);
    reveal(crate::frame::typing::typed_call);
}

/// A call that begins leaves a run that keeps to its types.
#[verifier::spinoff_prover]
#[verifier::rlimit(40)]
proof fn lemma_entered(
    program: Program,
    types: Types,
    entry: FunctionId,
    room: int,
    m: Machine,
    marks: Seq<Mark>,
    target: FunctionId,
    by: Move,
    n: Machine,
)
    requires
        crate::frame::typed::ready(program, types, entry, room, m, marks),
        crate::frame::balance::can_move(types.stand(m.frames.last().function, m.pc), by),
        by.words <= program.func(target).slots@.len(),
        crate::frame::rules::call_typed(
            program,
            types,
            m.frames.last().function,
            m.pc,
            target,
            by,
        ),
        crate::frame::machine::running(program, m).code@[m.pc] matches Inst::Call {
            function: called,
            scalar_argc,
            value_argc,
            place_argc: _,
        } && called == target && by == crate::frame::balance::call_move(
            program,
            target,
            scalar_argc as int,
            value_argc as int,
        ),
        crate::frame::rules::stands_well(program, target, types.stand(target, 0)),
        types.stand(target, 0).words.len() == 0,
        types.stand(target, 0).values.len() == 0,
        types.stand(target, 0).kept.len() == 0,
        m.frames.len() < MAX_CALL_DEPTH,
        m.words.len() - by.words <= m.frames.len() * room,
        m.words.len() <= usize::MAX,
        n.frames == m.frames.push(
            Call {
                function: target,
                return_pc: (m.pc + 1) as usize,
                base: (m.words.len() - by.words) as usize,
            },
        ),
        n.pc == 0,
        n.boundary == m.boundary,
        n.objects == m.objects,
        n.next == m.next,
        n.words == m.words + Seq::new(
            (program.func(target).slots@.len() - by.words) as nat,
            |i: int| 0u64,
        ),
        n.refs == m.refs.take(m.words.len() - by.words) + crate::frame::machine::frame_refs(
            program.func(target),
        ),
    ensures
        crate::frame::typing::typed_by(
            program,
            types,
            room,
            n,
            crate::frame::truth::marks_after(m, marks, n),
            crate::frame::balance::no_move(),
        ),
{
    let mark = Mark { path: seq![0], low: m.boundary.len() as int };
    let call = n.frames.last();
    let plain = Machine { frames: m.frames, ..n };
    let rest = m.words.len() - by.words;
    assert(m.refs.len() == m.words.len() && rest >= 0) by {
        crate::frame::typed::lemma_rules(program, types, entry, room, m, marks);
    }
    assert(n.words.take(rest) =~= m.words.take(rest));
    assert(n.refs.take(rest) =~= m.refs.take(rest));
    assert(call.base == rest);
    lemma_opens_frame(program, types, entry, room, m, marks, target, by, n);
    lemma_callers_wait(program, types, entry, room, m, marks, by, n);
    assert(0 <= m.pc && m.pc + 1 <= usize::MAX) by {
        crate::frame::typed::lemma_moves(program, types, entry, room, m, marks);
        let len: usize = crate::frame::machine::running(program, m).code.len();
        assert(len == crate::frame::machine::running(program, m).code@.len());
    }
    assert(by == crate::frame::typing::taken_by(program, m.frames.last(), call));
    lemma_one_deeper(program, types, room, marks, plain, n, mark, by);
}

/// The calls that stand keep to their types while one more begins.
#[verifier::spinoff_prover]
proof fn lemma_callers_wait(
    program: Program,
    types: Types,
    entry: FunctionId,
    room: int,
    m: Machine,
    marks: Seq<Mark>,
    by: Move,
    n: Machine,
)
    requires
        crate::frame::typed::ready(program, types, entry, room, m, marks),
        crate::frame::balance::can_move(types.stand(m.frames.last().function, m.pc), by),
        by.kept == 0,
        n.boundary == m.boundary,
        n.objects == m.objects,
        n.next == m.next,
        n.words.len() >= m.words.len() - by.words,
        n.words.take(m.words.len() - by.words) == m.words.take(m.words.len() - by.words),
        n.refs.len() >= m.words.len() - by.words,
        n.refs.take(m.words.len() - by.words) == m.refs.take(m.words.len() - by.words),
    ensures
        crate::frame::typing::objects_stand(program, n),
        m.frames.len() > 0,
        marks.len() == m.frames.len(),
        m.boundary.len() >= marks.last().low,
        crate::frame::typing::typed_callers(
            program,
            types,
            room,
            Machine { frames: m.frames, ..n },
            marks,
        ),
        crate::frame::typing::typed_call(
            program,
            types,
            n,
            m.frames.last(),
            marks.last(),
            m.pc,
            by,
        ),
{
    crate::frame::typed::lemma_rules(program, types, entry, room, m, marks);
    lemma_grounds(program, types, entry, room, m, marks);
    let caller = m.frames.last();
    let rest = m.words.len() - by.words;
    let plain = Machine { frames: m.frames, ..n };
    assert forall|i: int| 0 <= i < rest implies #[trigger] n.words[i] == m.words[i] && n.refs[i]
        == m.refs[i] by {
        assert(n.words.take(rest)[i] == m.words.take(rest)[i]);
        assert(n.refs.take(rest)[i] == m.refs.take(rest)[i]);
    }
    crate::frame::typed::lemma_takes(
        program,
        types,
        m,
        caller,
        marks.last(),
        m.pc,
        by,
        n,
    );
    assert(marks.len() == m.frames.len()) by {
        reveal(crate::frame::balance::stands_by);
    }
    assert forall|i: int| 0 <= i < caller.base implies #[trigger] plain.words[i] == m.words[i]
        && plain.refs[i] == m.refs[i] by {
        assert(n.words[i] == m.words[i]);
    }
    crate::frame::typed::lemma_below(
        program,
        types,
        entry,
        room,
        m,
        marks,
        crate::frame::balance::no_move(),
        plain,
        marks,
    );
}

/// The calls that stand, once one more does.
#[verifier::spinoff_prover]
proof fn lemma_one_deeper(
    program: Program,
    types: Types,
    room: int,
    marks: Seq<Mark>,
    plain: Machine,
    n: Machine,
    mark: Mark,
    by: Move,
)
    requires
        crate::frame::typing::typed_callers(program, types, room, plain, marks),
        plain == (Machine { frames: plain.frames, ..n }),
        plain.frames.len() > 0,
        marks.len() == plain.frames.len(),
        plain.frames.len() < MAX_CALL_DEPTH,
        n.frames == plain.frames.push(n.frames.last()),
        n.frames.last().base <= plain.frames.len() * room,
        mark.low >= marks.last().low,
        by == crate::frame::typing::taken_by(program, plain.frames.last(), n.frames.last()),
        crate::frame::typing::typed_call(
            program,
            types,
            n,
            plain.frames.last(),
            marks.last(),
            n.frames.last().return_pc - 1,
            by,
        ),
    ensures
        crate::frame::typing::typed_callers(program, types, room, n, marks.push(mark)),
{
    reveal(crate::frame::typing::typed_callers);
    let other = marks.push(mark);
    let k = plain.frames.len() as int;
    assert forall|i: int| 0 <= i < n.frames.len() implies (#[trigger] n.frames[i]).base <= i * room by {
        if i < k {
            assert(n.frames[i] == plain.frames[i]);
        }
    }
    assert forall|i: int, j: int|
        #![trigger other[i], other[j]]
        0 <= i <= j < other.len() implies 0 <= other[i].low <= other[j].low by {
        assert(marks[k - 1].low >= 0);
        if j < k {
            assert(other[i] == marks[i] && other[j] == marks[j]);
        } else if i < k {
            assert(other[i] == marks[i]);
            assert(marks[i].low <= marks[k - 1].low);
        }
    }
    assert forall|i: int, j: int|
        #![trigger n.frames[i], n.frames[j]]
        0 <= i && j == i + 1 && j < n.frames.len() implies crate::frame::typing::typed_call(
        program,
        types,
        n,
        n.frames[i],
        other[i],
        n.frames[j].return_pc - 1,
        crate::frame::typing::taken_by(program, n.frames[i], n.frames[j]),
    ) by {
        assert(n.frames[i] == plain.frames[i] && other[i] == marks[i]);
        if j < k {
            assert(n.frames[j] == plain.frames[j]);
            assert(crate::frame::typing::typed_call(
                program,
                types,
                plain,
                plain.frames[i],
                marks[i],
                plain.frames[j].return_pc - 1,
                crate::frame::typing::taken_by(program, plain.frames[i], plain.frames[j]),
            ));
            assert(crate::frame::typing::typed_call(
                program,
                types,
                n,
                plain.frames[i],
                marks[i],
                plain.frames[j].return_pc - 1,
                crate::frame::typing::taken_by(program, plain.frames[i], plain.frames[j]),
            )) by {
                reveal(crate::frame::typing::typed_call);
                lemma_same_call(
                    program,
                    types,
                    plain,
                    n,
                    plain.frames[i],
                    marks[i],
                    plain.frames[j].return_pc - 1,
                    crate::frame::typing::taken_by(program, plain.frames[i], plain.frames[j]),
                );
            }
        }
    }
}

/// What a call keeps to says nothing of the calls above it.
proof fn lemma_same_call(
    program: Program,
    types: Types,
    m: Machine,
    n: Machine,
    call: Call,
    mark: Mark,
    pc: int,
    by: Move,
)
    requires
        crate::frame::typing::typed_call(program, types, m, call, mark, pc, by),
        m == (Machine { frames: m.frames, ..n }),
    ensures
        crate::frame::typing::typed_call(program, types, n, call, mark, pc, by),
{
    reveal(crate::frame::typing::typed_call);
    let s = types.stand(call.function, pc);
    let from = crate::frame::balance::operands_from(program, call);
    assert forall|p: int|
        0 <= p < s.words.len() - by.words implies #[trigger] crate::frame::typing::operand_is(
        program,
        types,
        n,
        from,
        s.words,
        p,
    ) by {
        assert(crate::frame::typing::operand_is(program, types, m, from, s.words, p));
    }
    assert forall|i: int|
        0 <= i < program.func(
            call.function,
        ).slots@.len() implies #[trigger] crate::frame::typing::local_is(
        program,
        types,
        n,
        call,
        s.locals,
        i,
    ) by {
        assert(crate::frame::typing::local_is(program, types, m, call, s.locals, i));
    }
}

} // verus!
