//! A run stays in balance, so that the kinds of its operands are true.
use crate::error::Span;
use crate::frame::balance::{Mark, Move, Out, Types};
use crate::frame::kinds::Held;
use crate::frame::machine::{Call, Machine, Outcome};
use crate::ir::{Function, FunctionId, Inst, Program};
use vstd::prelude::*;

verus! {

/// The marks once control of the running call goes on to `to`.
pub open spec fn next_marks(marks: Seq<Mark>, to: int) -> Seq<Mark> {
    marks.drop_last().push(Mark { path: marks.last().path.push(to), low: marks.last().low })
}

/// The marks after a step: a call begins its own, and a call that answered
/// leaves its caller's.
pub open spec fn marks_after(m: Machine, marks: Seq<Mark>, n: Machine) -> Seq<Mark> {
    if n.frames.len() > m.frames.len() {
        marks.push(Mark { path: seq![0], low: m.boundary.len() as int })
    } else if n.frames.len() < m.frames.len() {
        next_marks(marks.drop_last(), n.pc)
    } else {
        next_marks(marks, n.pc)
    }
}

/// The stack, the calls and the place are those of another machine.
pub open spec fn stands_as(m: Machine, other: Machine) -> bool {
    &&& m.words == other.words
    &&& m.refs == other.refs
    &&& m.boundary == other.boundary
    &&& m.objects == other.objects
    &&& m.next == other.next
    &&& m.frames == other.frames
    &&& m.pc == other.pc
    &&& m.pending == other.pending
}

pub proof fn lemma_charged(m: Machine, block: int, span: Span)
    ensures
        crate::frame::machine::asked(m, span) matches Ok(n) ==> stands_as(n, m),
        crate::frame::machine::safepoint(m, span) matches Ok(n) ==> stands_as(n, m),
        crate::frame::machine::charge(m, block, span) matches Ok(n) ==> stands_as(n, m),
        crate::frame::machine::back_edge(m, span) matches Ok(n) ==> stands_as(n, m),
{
}

/// What a run in balance knows of the running call.
pub proof fn lemma_running(program: Program, types: Types, entry: FunctionId, m: Machine, marks: Seq<Mark>, by: Move)
    requires
        crate::frame::validity::valid(program),
        crate::frame::balance::balanced(program, types, entry),
        crate::frame::balance::stands_by(program, types, entry, m, marks, by),
    ensures
        program.has_function(m.frames.last().function),
        0 <= m.pc < crate::frame::machine::running(program, m).code@.len(),
        crate::frame::balance::balanced_at(program, types, m.frames.last().function, m.pc),
        crate::frame::validity::well_named(program, crate::frame::machine::running(program, m)),
        crate::frame::operands::levelled(program, crate::frame::machine::running(program, m)),
        crate::ir::names_what_exists(
            program,
            crate::frame::machine::running(program, m).code@[m.pc],
        ),
        crate::frame::laws::is_admitted(program, entry, m.frames.last().function),
        m.frames.len() > 0,
        m.refs.len() == m.words.len(),
        m.words.len() >= m.frames.last().base,
{
    reveal(crate::frame::balance::stands_by);
    reveal(crate::frame::balance::balanced);
    let id = m.frames[m.frames.len() - 1].function;
    assert(crate::frame::laws::is_admitted(program, entry, id));
    let path = marks.last().path;
    assert(path[path.len() - 1] == m.pc);
    assert(program.functions@[id.0 as int] == program.func(id));
}

/// An instruction that goes on to the next one leaves a run in balance.
pub proof fn lemma_on(
    program: Program,
    types: Types,
    entry: FunctionId,
    m: Machine,
    marks: Seq<Mark>,
    by: Move,
    n: Machine,
)
    requires
        crate::frame::validity::valid(program),
        crate::frame::balance::balanced(program, types, entry),
        crate::frame::balance::marked(program, types, entry, m, marks),
        crate::frame::balance::move_of(
            program,
            crate::frame::machine::running(program, m),
            m.pc,
        ) == Some(by),
        n.pending is Nothing,
        n.frames == m.frames,
        n.pc == m.pc + 1,
        n.refs.len() == n.words.len(),
        n.words.len() == m.words.len() - by.words + (if by.out is Scalar || by.out is Value {
            1int
        } else {
            0
        }),
        n.boundary.len() == m.boundary.len() - by.kept + (if by.out is Kept {
            1int
        } else {
            0
        }),
        forall|i: int| 0 <= i < m.refs.len() - by.words ==> #[trigger] n.refs[i] == m.refs[i],
        ({
            let inst = crate::frame::machine::running(program, m).code@[m.pc];
            let put = crate::frame::kinds::pushes(program, inst);
            &&& inst is Dup ==> n.refs.last() == m.refs.last()
            &&& !(inst is Dup) && by.out is Value && put is Some ==> n.refs.last()
                == put->0.refers()
            &&& by.out is Same && put is Some ==> m.refs.last() == put->0.refers()
            &&& by.out is Kept ==> put is None
        }),
    ensures
        crate::frame::balance::marked(program, types, entry, n, next_marks(marks, n.pc)),
{
    reveal(crate::frame::balance::stands_by);
    reveal(crate::frame::balance::marked);
    reveal(crate::frame::balance::balanced_at);
    lemma_running(program, types, entry, m, marks, crate::frame::balance::no_move());
    let function = crate::frame::machine::running(program, m);
    let call = m.frames.last();
    let inst = function.code@[m.pc];
    let st = types.stand(call.function, m.pc);
    let held = crate::frame::operands::along(program, function, marks.last().path);
    crate::frame::balance::lemma_takes(program, types, entry, m, marks, by);
    crate::frame::balance::lemma_after(program, function, m.pc, held, by);
    let mid = crate::frame::balance::taken_off(m, by);
    let put: Held = if inst is Dup {
        held.last()
    } else {
        crate::frame::kinds::pushes(program, inst)
    };
    if inst is Dup && put is Some {
        assert(held.take(held.len() as int) =~= held);
        assert(st.values.take(st.values.len() as int) =~= st.values);
        let i = held.len() - 1;
        assert(held[i] is Some);
        assert(st.values[i] == Some(st.words.len() - 1));
    }
    if by.out is Same {
        assert(n.refs.last() == m.refs.last()) by {
            assert(n.refs[m.refs.len() - 1] == m.refs[m.refs.len() - 1]);
        }
    }
    assert forall|i: int| 0 <= i < mid.refs.len() implies #[trigger] n.refs[i] == mid.refs[i] by {
        assert(n.refs[i] == m.refs[i]);
    }
    crate::frame::balance::lemma_settles(program, types, entry, mid, marks, by, n, put);
}

/// A jump leaves a run in balance.
proof fn lemma_jumps(
    program: Program,
    types: Types,
    entry: FunctionId,
    m: Machine,
    marks: Seq<Mark>,
    by: Move,
    n: Machine,
)
    requires
        crate::frame::validity::valid(program),
        crate::frame::balance::balanced(program, types, entry),
        crate::frame::balance::marked(program, types, entry, m, marks),
        by == crate::frame::balance::moves(by.values, by.words, Out::Nothing),
        crate::frame::balance::can_move(types.stand(m.frames.last().function, m.pc), by),
        n.pending is Nothing,
        n.frames == m.frames,
        n.boundary == m.boundary,
        n.words == m.words.take(m.words.len() - by.words),
        n.refs == m.refs.take(m.refs.len() - by.words),
        crate::frame::kinds::goes_to(
            crate::frame::machine::running(program, m).code@[m.pc],
            m.pc,
            n.pc,
        ),
        crate::ir::stack_effect(
            program,
            crate::frame::machine::running(program, m).code@[m.pc],
        ) == (by.values, 0int),
        crate::frame::balance::goes_on(
            program,
            types,
            m.frames.last().function,
            types.stand(m.frames.last().function, m.pc),
            by,
            n.pc,
        ),
    ensures
        crate::frame::balance::marked(program, types, entry, n, next_marks(marks, n.pc)),
{
    reveal(crate::frame::balance::stands_by);
    reveal(crate::frame::balance::marked);
    let function = crate::frame::machine::running(program, m);
    let inst = function.code@[m.pc];
    let held = crate::frame::operands::along(program, function, marks.last().path);
    crate::frame::balance::lemma_takes(program, types, entry, m, marks, by);
    reveal(crate::frame::operands::after);
    assert(crate::frame::operands::after(program, inst, held) =~= held.take(
        held.len() - by.values,
    ));
    let mid = crate::frame::balance::taken_off(m, by);
    crate::frame::balance::lemma_settles(program, types, entry, mid, marks, by, n, None);
}

/// A call leaves a run in balance.
proof fn lemma_enters(
    program: Program,
    types: Types,
    entry: FunctionId,
    m: Machine,
    marks: Seq<Mark>,
    target: FunctionId,
    scalars: int,
    values: int,
    n: Machine,
)
    requires
        crate::frame::validity::valid(program),
        crate::frame::balance::balanced(program, types, entry),
        crate::frame::balance::marked(program, types, entry, m, marks),
        crate::frame::laws::confined(program, entry, n),
        0 <= scalars,
        0 <= values,
        m.words.len() <= usize::MAX,
        crate::frame::machine::running(program, m).code@[m.pc] matches Inst::Call {
            function: f,
            scalar_argc,
            value_argc,
            place_argc: _,
        } && f == target && scalar_argc == scalars && value_argc == values,
        n.frames == m.frames.push(
            Call {
                function: target,
                return_pc: (m.pc + 1) as usize,
                base: (m.words.len() - scalars - values) as usize,
            },
        ),
        n.pending is Nothing,
        n.pc == 0,
        n.boundary == m.boundary,
        scalars + values <= program.func(target).slots@.len(),
        n.words.len() == m.words.len() - scalars - values + program.func(target).slots@.len(),
        n.refs.len() == n.words.len(),
        forall|i: int|
            0 <= i < m.refs.len() - scalars - values ==> #[trigger] n.refs[i] == m.refs[i],
    ensures
        crate::frame::balance::marked(
            program,
            types,
            entry,
            n,
            marks.push(Mark { path: seq![0], low: m.boundary.len() as int }),
        ),
{
    reveal(crate::frame::balance::marked);
    reveal(crate::frame::balance::stands_by);
    reveal(crate::frame::balance::balanced);
    reveal(crate::frame::balance::balanced_at);
    let by = crate::frame::balance::call_move(program, target, scalars, values);
    lemma_running(program, types, entry, m, marks, crate::frame::balance::no_move());
    crate::frame::balance::lemma_takes(program, types, entry, m, marks, by);
    let mid = crate::frame::balance::taken_off(m, by);
    let call = n.frames.last();
    let caller = m.frames.last();
    let mark = Mark { path: seq![0], low: m.boundary.len() as int };
    let other = marks.push(mark);
    let k = m.frames.len() as int;
    assert(m.pc + 1 <= usize::MAX) by {
        let len: usize = crate::frame::machine::running(program, m).code.len();
        assert(len == crate::frame::machine::running(program, m).code@.len());
    }
    crate::frame::balance::lemma_calls_below(program, types, m.frames, marks, m.refs, n.refs);
    let st = types.stand(caller.function, m.pc);
    let function = program.func(caller.function);
    let held = crate::frame::operands::along(program, function, marks.last().path);
    crate::frame::balance::lemma_agrees_elsewhere(
        held.take(held.len() - by.values),
        st.values.take(st.values.len() - by.values),
        mid.refs,
        n.refs,
        crate::frame::balance::operands_from(program, caller),
        st.words.len() - by.words,
    );
    assert(crate::frame::balance::calls(
        program,
        types,
        caller,
        marks.last(),
        call,
        mark,
        n.refs,
    ));
    assert(crate::frame::balance::all_call(program, types, n.frames, other, n.refs)) by {
        assert forall|i: int, j: int|
            #![trigger n.frames[i], n.frames[j]]
            0 <= i && j == i + 1 && j < n.frames.len() implies crate::frame::balance::calls(
            program,
            types,
            n.frames[i],
            other[i],
            n.frames[j],
            other[j],
            n.refs,
        ) by {
            if j < k {
                assert(n.frames[i] == m.frames[i] && n.frames[j] == m.frames[j]);
                assert(other[i] == marks[i] && other[j] == marks[j]);
            } else {
                assert(n.frames[i] == caller && other[i] == marks.last());
            }
        }
        assert forall|i: int, j: int|
            #![trigger n.frames[i], n.frames[j]]
            0 <= i <= j < n.frames.len() implies n.frames[i].base <= n.frames[j].base by {
            if j < k {
                assert(n.frames[i] == m.frames[i] && n.frames[j] == m.frames[j]);
            } else if i < k {
                assert(n.frames[i] == m.frames[i]);
                assert(m.frames[i].base <= m.frames[k - 1].base);
            }
        }
        assert(n.frames[0] == m.frames[0]);
    }
    let callee = program.func(target);
    assert(crate::frame::laws::is_admitted(program, entry, n.frames[k].function));
    assert(crate::frame::operands::arrives(callee, mark.path, 0));
    assert(crate::frame::operands::along(program, callee, mark.path).len() == 0);
    assert(types.stand(target, 0).values.len() == 0);
}

/// The run as its caller left it, once the running call is closed.
pub open spec fn uncovered(m: Machine) -> Machine {
    let done = m.frames.last();
    Machine {
        words: m.words.take(done.base as int),
        refs: m.refs.take(done.base as int),
        frames: m.frames.drop_last(),
        pc: done.return_pc - 1,
        ..m
    }
}

/// What the caller took for the running call.
pub open spec fn took(program: Program, m: Machine) -> Move {
    crate::frame::typing::taken_by(program, m.frames[m.frames.len() - 2], m.frames.last())
}

/// A call that is closed leaves its caller standing as it left it. `m` is the
/// run with the answer of the call taken.
#[verifier::spinoff_prover]
pub proof fn lemma_uncovers(
    program: Program,
    types: Types,
    entry: FunctionId,
    m: Machine,
    marks: Seq<Mark>,
    by: Move,
)
    requires
        crate::frame::balance::stands_by(program, types, entry, m, marks, by),
        m.frames.len() > 1,
        m.words.len() >= m.frames.last().base,
        m.boundary.len() == marks.last().low,
    ensures
        crate::frame::balance::stands_by(
            program,
            types,
            entry,
            uncovered(m),
            marks.drop_last(),
            took(program, m),
        ),
        ({
            let caller = m.frames[m.frames.len() - 2];
            let pc = m.frames.last().return_pc - 1;
            &&& 0 <= pc < program.func(caller.function).code@.len()
            &&& program.func(caller.function).code@[pc] matches Inst::Call {
                function: target,
                scalar_argc,
                value_argc,
                place_argc: _,
            } && target == m.frames.last().function && took(program, m)
                == crate::frame::balance::call_move(
                program,
                target,
                scalar_argc as int,
                value_argc as int,
            )
        }),
{
    reveal(crate::frame::balance::stands_by);
    let k = m.frames.len() as int;
    let done = m.frames[k - 1];
    let caller = m.frames[k - 2];
    assert(crate::frame::balance::calls(
        program,
        types,
        caller,
        marks[k - 2],
        done,
        marks[k - 1],
        m.refs,
    ));
    let pc = done.return_pc - 1;
    let function = program.func(caller.function);
    let rest = marks.drop_last();
    let took = took(program, m);
    let base = done.base as int;
    let mid = uncovered(m);
    let st = types.stand(caller.function, pc);
    let held = crate::frame::operands::along(program, function, marks[k - 2].path);
    crate::frame::balance::lemma_agrees_elsewhere(
        held.take(held.len() - took.values),
        st.values.take(st.values.len() - took.values),
        m.refs,
        mid.refs,
        crate::frame::balance::operands_from(program, caller),
        st.words.len() - took.words,
    );
    assert(crate::frame::balance::all_call(program, types, mid.frames, rest, m.refs)) by {
        assert forall|i: int, j: int|
            #![trigger mid.frames[i], mid.frames[j]]
            0 <= i && j == i + 1 && j < mid.frames.len() implies crate::frame::balance::calls(
            program,
            types,
            mid.frames[i],
            rest[i],
            mid.frames[j],
            rest[j],
            m.refs,
        ) by {
            assert(mid.frames[i] == m.frames[i] && mid.frames[j] == m.frames[j]);
            assert(rest[i] == marks[i] && rest[j] == marks[j]);
        }
        assert forall|i: int, j: int|
            #![trigger mid.frames[i], mid.frames[j]]
            0 <= i <= j < mid.frames.len() implies mid.frames[i].base <= mid.frames[j].base by {
            assert(mid.frames[i] == m.frames[i] && mid.frames[j] == m.frames[j]);
        }
        assert(mid.frames[0] == m.frames[0]);
    }
    assert(caller.base <= done.base);
    crate::frame::balance::lemma_calls_below(program, types, mid.frames, rest, m.refs, mid.refs);
    assert(crate::frame::laws::confined(program, entry, mid)) by {
        assert forall|i: int| 0 <= i < mid.frames.len() implies crate::frame::laws::is_admitted(
            program,
            entry,
            (#[trigger] mid.frames[i]).function,
        ) by {
            assert(mid.frames[i] == m.frames[i]);
        }
    }
}

/// A call that answered leaves a run in balance. `m` is the run with the
/// answering call closed and its answer taken.
proof fn lemma_comes_back(
    program: Program,
    types: Types,
    entry: FunctionId,
    m: Machine,
    marks: Seq<Mark>,
    by: Move,
    n: Machine,
)
    requires
        crate::frame::validity::valid(program),
        crate::frame::balance::balanced(program, types, entry),
        crate::frame::balance::stands_by(program, types, entry, m, marks, by),
        m.frames.len() > 1,
        m.words.len() >= m.frames.last().base,
        m.boundary.len() == marks.last().low,
        n.pending is Nothing,
        n.frames == m.frames.drop_last(),
        n.pc == m.frames.last().return_pc,
        n.refs.len() == n.words.len(),
        ({
            let scalar = crate::frame::machine::running(program, m).returns is Scalar;
            let base = m.frames.last().base as int;
            &&& n.words.len() == base + (if scalar {
                1int
            } else {
                0
            })
            &&& n.boundary.len() == m.boundary.len() + (if scalar {
                0int
            } else {
                1
            })
            &&& forall|i: int| 0 <= i < base ==> #[trigger] n.refs[i] == m.refs[i]
        }),
    ensures
        crate::frame::balance::marked(
            program,
            types,
            entry,
            n,
            next_marks(marks.drop_last(), n.pc),
        ),
{
    lemma_uncovers(program, types, entry, m, marks, by);
    let mid = uncovered(m);
    let rest = marks.drop_last();
    let caller = m.frames[m.frames.len() - 2];
    assert(mid.frames.last() == caller);
    let function = program.func(caller.function);
    let pc = mid.pc;
    let took = took(program, m);
    let target = m.frames.last().function;
    let by = crate::frame::balance::answered_move(program, target, took);
    lemma_answered_stands(program, types, entry, mid, rest, took, by);
    lemma_running(program, types, entry, mid, rest, by);
    reveal(crate::frame::balance::balanced_at);
    let held = crate::frame::operands::along(program, function, rest.last().path);
    assert(held.len() >= took.values) by {
        reveal(crate::frame::balance::stands_by);
    }
    lemma_after_call(program, function.code@[pc], held, took);
    assert(m.refs.len() == m.words.len()) by {
        reveal(crate::frame::balance::stands_by);
    }
    assert forall|i: int| 0 <= i < mid.refs.len() implies #[trigger] n.refs[i] == mid.refs[i] by {
        assert(n.refs[i] == m.refs[i]);
    }
    crate::frame::balance::lemma_settles(program, types, entry, mid, rest, by, n, None);
}

/// What is said of a caller does not depend on what the call answers.
proof fn lemma_answered_stands(
    program: Program,
    types: Types,
    entry: FunctionId,
    m: Machine,
    marks: Seq<Mark>,
    took: Move,
    by: Move,
)
    requires
        crate::frame::balance::stands_by(program, types, entry, m, marks, took),
        by == (Move { out: by.out, ..took }),
        took.out is Nothing,
        !(by.out is Same),
    ensures
        crate::frame::balance::stands_by(program, types, entry, m, marks, by),
{
    reveal(crate::frame::balance::stands_by);
}

/// What the simulation makes of a call.
pub proof fn lemma_after_call(program: Program, inst: Inst, held: Seq<Held>, took: Move)
    requires
        inst matches Inst::Call { function: target, scalar_argc, value_argc, place_argc: _ }
            && took == crate::frame::balance::call_move(
            program,
            target,
            scalar_argc as int,
            value_argc as int,
        ),
        took.values <= held.len(),
    ensures
        crate::frame::balance::leaves(
            program,
            inst,
            held,
            crate::frame::balance::answered_move(program, inst->Call_function, took),
            None,
        ),
{
    reveal(crate::frame::operands::after);
    let kept = held.take(held.len() - took.values);
    if program.func(inst->Call_function).returns is Scalar {
        assert(crate::frame::operands::after(program, inst, held) =~= kept);
    } else {
        assert(crate::frame::operands::after(program, inst, held) =~= kept.push(None));
    }
}

/// What is asked of every step.
#[verifier::opaque]
pub open spec fn can_step(
    program: Program,
    types: Types,
    entry: FunctionId,
    m: Machine,
    marks: Seq<Mark>,
) -> bool {
    &&& crate::frame::validity::valid(program)
    &&& crate::frame::balance::balanced(program, types, entry)
    &&& program.has_function(entry)
    &&& crate::frame::admission::refusals_from(program, entry).len() == 0
    &&& crate::frame::balance::marked(program, types, entry, m, marks)
}

/// A step leaves a run in balance.
pub open spec fn stepped(
    program: Program,
    types: Types,
    entry: FunctionId,
    m: Machine,
    marks: Seq<Mark>,
    outcome: Outcome,
) -> bool {
    match outcome {
        Outcome::Next(n) => crate::frame::balance::marked(
            program,
            types,
            entry,
            n,
            marks_after(m, marks, n),
        ),
        Outcome::Host(n, _, _, _, _) => n.pending is Host && crate::frame::balance::waits_in_balance(
            program,
            types,
            entry,
            n,
            marks,
        ),
        Outcome::Builtin(n, _, _, _) => n.pending is Builtin
            && crate::frame::balance::waits_in_balance(program, types, entry, n, marks),
        _ => true,
    }
}

/// What a step begins with.
pub proof fn lemma_ready(program: Program, types: Types, entry: FunctionId, m: Machine, marks: Seq<Mark>)
    requires
        can_step(program, types, entry, m, marks),
    ensures
        crate::frame::balance::balanced_at(program, types, m.frames.last().function, m.pc),
        crate::ir::names_what_exists(
            program,
            crate::frame::machine::running(program, m).code@[m.pc],
        ),
        m.pending is Nothing,
        m.frames.len() > 0,
        m.refs.len() == m.words.len(),
        m.words.len() >= m.frames.last().base,
        0 <= m.pc < crate::frame::machine::running(program, m).code@.len(),
        crate::frame::layout::keeps_no_place(program),
{
    reveal(can_step);
    reveal(crate::frame::balance::marked);
    lemma_running(program, types, entry, m, marks, crate::frame::balance::no_move());
}

/// What the instruction that a step runs is refused for: nothing.
pub proof fn lemma_not_refused(program: Program, types: Types, entry: FunctionId, m: Machine, marks: Seq<Mark>)
    requires
        can_step(program, types, entry, m, marks),
    ensures
        ({
            let function = crate::frame::machine::running(program, m);
            crate::frame::admission::reasons(
                program,
                function,
                crate::frame::machine::standing(program, function),
                m.pc,
            ).len() == 0
        }),
{
    reveal(can_step);
    reveal(crate::frame::balance::marked);
    lemma_running(program, types, entry, m, marks, crate::frame::balance::no_move());
    let function = crate::frame::machine::running(program, m);
    lemma_no_reasons(program, function, function.code@.len() as int, m.pc);
}

proof fn lemma_no_reasons(program: Program, function: Function, count: int, pc: int)
    requires
        0 <= pc < count <= function.code@.len(),
        crate::frame::admission::refusals_before(
            program,
            function,
            crate::frame::operands::operands_of(program, function),
            count,
        ).len() == 0,
    ensures
        crate::frame::admission::reasons(
            program,
            function,
            crate::frame::operands::operands_of(program, function),
            pc,
        ).len() == 0,
    decreases count,
{
    let at = crate::frame::operands::operands_of(program, function);
    let found = crate::frame::admission::reasons(program, function, at, count - 1);
    assert(crate::frame::admission::refusing(
        program,
        function,
        function.spot(count - 1),
        found,
    ).len() == found.len());
    if pc < count - 1 {
        lemma_no_reasons(program, function, count - 1, pc);
    }
}

/// A step that goes on to the next instruction.
pub open spec fn goes_straight(program: Program, m: Machine, by: Move, n: Machine) -> bool {
    let inst = crate::frame::machine::running(program, m).code@[m.pc];
    let put = crate::frame::kinds::pushes(program, inst);
    &&& n.pending is Nothing
    &&& n.frames == m.frames
    &&& n.pc == m.pc + 1
    &&& n.refs.len() == n.words.len()
    &&& n.words.len() == m.words.len() - by.words + (if by.out is Scalar || by.out is Value {
        1int
    } else {
        0
    })
    &&& n.boundary.len() == m.boundary.len() - by.kept + (if by.out is Kept {
        1int
    } else {
        0
    })
    &&& forall|i: int| 0 <= i < m.refs.len() - by.words ==> #[trigger] n.refs[i] == m.refs[i]
    &&& inst is Dup ==> n.refs.last() == m.refs.last()
    &&& !(inst is Dup) && by.out is Value && put is Some ==> n.refs.last() == put->0.refers()
    &&& by.out is Same && put is Some ==> m.refs.last() == put->0.refers()
    &&& by.out is Kept ==> put is None
}

proof fn lemma_straight(
    program: Program,
    types: Types,
    entry: FunctionId,
    m: Machine,
    marks: Seq<Mark>,
    n: Machine,
)
    requires
        can_step(program, types, entry, m, marks),
        crate::frame::balance::move_of(
            program,
            crate::frame::machine::running(program, m),
            m.pc,
        ) matches Some(by) && goes_straight(program, m, by, n),
    ensures
        crate::frame::balance::marked(program, types, entry, n, marks_after(m, marks, n)),
{
    reveal(can_step);
    let by = crate::frame::balance::move_of(
        program,
        crate::frame::machine::running(program, m),
        m.pc,
    )->0;
    lemma_on(program, types, entry, m, marks, by, n);
}

#[verifier::spinoff_prover]
proof fn lemma_word_step_shapes(program: Program, m: Machine, n: Machine)
    requires
        m.frames.len() > 0,
        m.pending is Nothing,
        m.refs.len() == m.words.len(),
        crate::frame::machine::step(program, m) == Outcome::Next(n),
        ({
            let inst = crate::frame::machine::running(program, m).code@[m.pc];
            inst is LoadScalar || inst is StoreScalar || inst is LoadLocal || inst is StoreLocal
                || inst is ScalarConst || inst is ScalarPop || inst is IntBinary || inst is Dup
                || inst is ScalarToValue || inst is ValueToScalar || inst is Const
        }),
    ensures
        crate::frame::balance::move_of(
            program,
            crate::frame::machine::running(program, m),
            m.pc,
        ) matches Some(by) && goes_straight(program, m, by, n),
{
}

#[verifier::spinoff_prover]
proof fn lemma_object_step_shapes(program: Program, m: Machine, n: Machine)
    requires
        m.frames.len() > 0,
        m.pending is Nothing,
        m.refs.len() == m.words.len(),
        crate::frame::layout::keeps_no_place(program),
        crate::ir::names_what_exists(
            program,
            crate::frame::machine::running(program, m).code@[m.pc],
        ),
        crate::frame::machine::step(program, m) == Outcome::Next(n),
        ({
            let inst = crate::frame::machine::running(program, m).code@[m.pc];
            inst is MakeStruct || inst is TestCase || inst is GetPayload || inst is GetFieldAt
                || inst is GetFieldAtScalar || inst is SetField || inst is Binary
        }),
    ensures
        crate::frame::balance::move_of(
            program,
            crate::frame::machine::running(program, m),
            m.pc,
        ) matches Some(by) && goes_straight(program, m, by, n),
{
    let inst = crate::frame::machine::running(program, m).code@[m.pc];
    match inst {
        Inst::MakeStruct(of) => {
            assert(crate::frame::layout::parts_of(program.structs@[of.0 as int]).len()
                == program.structs@[of.0 as int].fields@.len());
        },
        Inst::GetFieldAt { of, at } => {
            let fields = program.structs@[of.0 as int].fields@;
            if at < fields.len() {
                assert(!(fields[at as int].kind is Place));
            }
        },
        Inst::GetPayload { case, at } => {
            if let Some(pair) = case {
                let cases = program.enums@[pair.0.0 as int].cases@;
                if pair.1 < cases.len() && at < cases[pair.1 as int].payload@.len() {
                    assert(!(cases[pair.1 as int].payload@[at as int] is Place));
                }
            }
        },
        _ => {},
    }
}

#[verifier::spinoff_prover]
proof fn lemma_made_shapes(program: Program, m: Machine, n: Machine)
    requires
        m.frames.len() > 0,
        m.pending is Nothing,
        m.refs.len() == m.words.len(),
        crate::frame::machine::step(program, m) == Outcome::Next(n),
        ({
            let inst = crate::frame::machine::running(program, m).code@[m.pc];
            inst is MakeEnum || inst is Concat
        }),
    ensures
        crate::frame::balance::move_of(
            program,
            crate::frame::machine::running(program, m),
            m.pc,
        ) matches Some(by) && goes_straight(program, m, by, n),
{
    let function = crate::frame::machine::running(program, m);
    match function.code@[m.pc] {
        Inst::MakeEnum { ty, named, argc } => {
            lemma_declared_width(program, ty, named, argc as int);
        },
        Inst::Concat(count) => {
            let at = crate::frame::machine::standing(program, function);
            let kinds = crate::frame::operands::kinds_at(at, m.pc, count as int)->0;
            assert(kinds.len() == count);
        },
        _ => {},
    }
}

/// A declared case has as many words as it takes.
pub proof fn lemma_declared_width(
    program: Program,
    ty: crate::ir::ConstId,
    named: crate::ir::ConstId,
    argc: int,
)
    ensures
        crate::frame::layout::declared_site(
            program,
            program.name_text(ty),
            program.name_text(named),
            argc,
        ) matches Some(site) ==> site.payload.len() == argc,
{
    let kind_name = program.name_text(ty);
    let case = program.name_text(named);
    if let Some(site) = crate::frame::layout::declared_site(program, kind_name, case, argc) {
        let (t, c) = choose|t: int, c: int| #[trigger]
            crate::frame::layout::declared_at(program, kind_name, case, t, c)
                && program.enums@[t].cases@[c].payload@.len() == argc;
        let (u, d) = choose|u: int, d: int| #[trigger]
            crate::frame::layout::declared_at(program, kind_name, case, u, d);
        crate::frame::layout::lemma_declared_once(program, kind_name, case, t, c, u, d);
    }
}

pub proof fn lemma_jump_shape(m: Machine, function: Function, to: int)
    ensures
        crate::frame::machine::jump(m, function, to) matches Outcome::Next(n) ==> stands_as(
            n,
            m.goes_to(to),
        ),
        crate::frame::machine::jump(m, function, to) is Stuck <==> !(0 <= to
            < function.code@.len()),
        !(crate::frame::machine::jump(m, function, to) is Host),
        !(crate::frame::machine::jump(m, function, to) is Builtin),
{
    lemma_charged(m, 0, function.spot(m.pc));
    let n = if to <= m.pc {
        crate::frame::machine::back_edge(m, function.spot(m.pc))
    } else {
        Ok(m)
    };
    if n is Ok {
        lemma_charged(n->Ok_0, function.block_fuel@[to] as int, function.spot(to));
    }
}

/// What a branch does.
pub proof fn lemma_branch_shape(m: Machine, function: Function, to: int, when_zero: bool)
    requires
        m.words.len() > 0,
    ensures
        crate::frame::machine::branch(m, function, to, when_zero) matches Outcome::Next(n)
            ==> stands_as(
            n,
            m.dropped(1).goes_to(
                if (m.top() == 0) == when_zero {
                    to
                } else {
                    m.pc + 1
                },
            ),
        ),
        0 <= to < function.code@.len() && 0 <= m.pc < function.code@.len() - 1 ==> !(
        crate::frame::machine::branch(m, function, to, when_zero) is Stuck),
        !(crate::frame::machine::branch(m, function, to, when_zero) is Host),
        !(crate::frame::machine::branch(m, function, to, when_zero) is Builtin),
{
    let n = m.dropped(1);
    lemma_jump_shape(n, function, to);
    lemma_charged(n, function.block_fuel@[m.pc + 1] as int, function.spot(m.pc + 1));
}

#[verifier::spinoff_prover]
proof fn lemma_flow_steps(
    program: Program,
    types: Types,
    entry: FunctionId,
    m: Machine,
    marks: Seq<Mark>,
    n: Machine,
)
    requires
        can_step(program, types, entry, m, marks),
        crate::frame::machine::step(program, m) == Outcome::Next(n),
        ({
            let inst = crate::frame::machine::running(program, m).code@[m.pc];
            inst is Jump || inst is JumpIfFalseScalar || inst is JumpIfTrueScalar
                || inst is JumpIfFalse || inst is JumpIfTrue
        }),
    ensures
        crate::frame::balance::marked(program, types, entry, n, marks_after(m, marks, n)),
{
    lemma_ready(program, types, entry, m, marks);
    let function = crate::frame::machine::running(program, m);
    let inst = function.code@[m.pc];
    let by = match inst {
        Inst::Jump(_) => crate::frame::balance::moves(0, 0, Out::Nothing),
        Inst::JumpIfFalse(_) => crate::frame::balance::moves(1, 1, Out::Nothing),
        Inst::JumpIfTrue(_) => crate::frame::balance::moves(1, 1, Out::Nothing),
        _ => crate::frame::balance::moves(0, 1, Out::Nothing),
    };
    match inst {
        Inst::Jump(to) => {
            lemma_jump_shape(m, function, to as int);
            assert(m.words.take(m.words.len() as int) =~= m.words);
            assert(m.refs.take(m.refs.len() as int) =~= m.refs);
        },
        Inst::JumpIfFalseScalar(to) => {
            lemma_branch_shape(m, function, to as int, true);
        },
        Inst::JumpIfTrueScalar(to) => {
            lemma_branch_shape(m, function, to as int, false);
        },
        Inst::JumpIfFalse(to) => {
            lemma_branch_shape(m, function, to as int, true);
        },
        Inst::JumpIfTrue(to) => {
            lemma_branch_shape(m, function, to as int, false);
        },
        _ => {},
    }
    reveal(crate::frame::balance::balanced_at);
    reveal(can_step);
    assert(crate::frame::balance::can_move(types.stand(m.frames.last().function, m.pc), by)) by {
        reveal(crate::frame::balance::marked);
        reveal(crate::frame::balance::stands_by);
    }
    lemma_jumps(program, types, entry, m, marks, by, n);
}

/// What a call does, where it goes on.
pub proof fn lemma_call_shape(
    program: Program,
    m: Machine,
    function: Function,
    target: FunctionId,
    argc: int,
    n: Machine,
)
    requires
        crate::frame::machine::call(program, m, function, target, argc) == Outcome::Next(n),
        m.refs.len() == m.words.len(),
    ensures
        0 <= argc <= m.words.len(),
        argc <= program.func(target).slots@.len(),
        m.words.len() <= usize::MAX,
        n.frames == m.frames.push(
            Call {
                function: target,
                return_pc: (m.pc + 1) as usize,
                base: (m.words.len() - argc) as usize,
            },
        ),
        n.pending == m.pending,
        n.pc == 0,
        n.boundary == m.boundary,
        n.objects == m.objects,
        n.next == m.next,
        n.words == m.words + Seq::new(
            (program.func(target).slots@.len() - argc) as nat,
            |i: int| 0u64,
        ),
        n.refs == m.refs.take(m.words.len() - argc) + crate::frame::machine::frame_refs(
            program.func(target),
        ),
{
    let span = function.spot(m.pc);
    let callee = program.func(target);
    lemma_charged(m, 0, span);
    let a = crate::frame::machine::safepoint(m, span)->Ok_0;
    lemma_charged(a, callee.block_fuel@[0] as int, callee.spot(0));
}

#[verifier::spinoff_prover]
proof fn lemma_call_step(
    program: Program,
    types: Types,
    entry: FunctionId,
    m: Machine,
    marks: Seq<Mark>,
    n: Machine,
)
    requires
        can_step(program, types, entry, m, marks),
        crate::frame::machine::step(program, m) == Outcome::Next(n),
        crate::frame::machine::running(program, m).code@[m.pc] is Call,
    ensures
        crate::frame::balance::marked(program, types, entry, n, marks_after(m, marks, n)),
{
    lemma_ready(program, types, entry, m, marks);
    let function = crate::frame::machine::running(program, m);
    if let Inst::Call { function: target, scalar_argc, value_argc, place_argc: _ } =
        function.code@[m.pc] {
        lemma_call_shape(program, m, function, target, scalar_argc + value_argc, n);
        lemma_stays_confined(program, types, entry, m, marks, n);
        reveal(can_step);
        lemma_enters(
            program,
            types,
            entry,
            m,
            marks,
            target,
            scalar_argc as int,
            value_argc as int,
            n,
        );
    }
}

proof fn lemma_stays_confined(
    program: Program,
    types: Types,
    entry: FunctionId,
    m: Machine,
    marks: Seq<Mark>,
    n: Machine,
)
    requires
        can_step(program, types, entry, m, marks),
        crate::frame::machine::step(program, m) == Outcome::Next(n),
    ensures
        crate::frame::laws::confined(program, entry, n),
{
    reveal(can_step);
    reveal(crate::frame::balance::marked);
    reveal(crate::frame::balance::stands_by);
    crate::frame::laws::a_run_stays_within_what_was_admitted(program, entry, m, 1);
    assert(crate::frame::machine::run_for(program, n, 0) == Outcome::Next(n));
    assert(crate::frame::machine::run_for(program, m, 1) == Outcome::Next(n));
}

/// A run that is left as it was stands as it did.
pub proof fn lemma_same_stand(
    program: Program,
    types: Types,
    entry: FunctionId,
    m: Machine,
    marks: Seq<Mark>,
    by: Move,
    n: Machine,
)
    requires
        crate::frame::balance::stands_by(program, types, entry, m, marks, by),
        n.words == m.words,
        n.refs == m.refs,
        n.boundary == m.boundary,
        n.frames == m.frames,
        n.pc == m.pc,
    ensures
        crate::frame::balance::stands_by(program, types, entry, n, marks, by),
{
    reveal(crate::frame::balance::stands_by);
}

/// What stands once the running call is left with a value, where the run goes
/// on.
pub open spec fn left_with(m: Machine, value: crate::value::Datum, n: Machine) -> bool {
    let base = m.frames.last().base as int;
    &&& m.frames.len() > 1
    &&& base <= m.words.len()
    &&& n.pending == m.pending
    &&& n.frames == m.frames.drop_last()
    &&& n.pc == m.frames.last().return_pc
    &&& n.words == m.words.take(base)
    &&& n.refs == m.refs.take(base)
    &&& n.objects == m.objects
    &&& n.next == m.next
    &&& n.boundary == m.boundary.push(value)
}

pub proof fn lemma_leave_shape(program: Program, m: Machine, value: crate::value::Datum)
    requires
        m.frames.len() > 0,
    ensures
        crate::frame::machine::leave(program, m, value) matches Outcome::Next(n) ==> left_with(
            m,
            value,
            n,
        ),
        !(crate::frame::machine::leave(program, m, value) is Host),
        !(crate::frame::machine::leave(program, m, value) is Builtin),
        crate::frame::machine::leave(program, m, value) is Stuck ==> m.frames.last().base
            > m.words.len() || (m.frames.len() > 1 && m.frames.last().return_pc >= program.func(
            m.frames[m.frames.len() - 2].function,
        ).code@.len()),
{
    let done = m.frames.last();
    let out = crate::frame::machine::closed(m);
    if done.base <= m.words.len() && out.frames.len() > 0 {
        let back = Machine { boundary: out.boundary.push(value), ..out };
        let caller = program.func(back.frames.last().function);
        let pc = done.return_pc as int;
        lemma_charged(back.goes_to(pc), caller.block_fuel@[pc] as int, caller.spot(pc));
    }
}

#[verifier::spinoff_prover]
proof fn lemma_leaves(
    program: Program,
    types: Types,
    entry: FunctionId,
    m: Machine,
    marks: Seq<Mark>,
    by: Move,
    value: crate::value::Datum,
    n: Machine,
)
    requires
        crate::frame::validity::valid(program),
        crate::frame::balance::balanced(program, types, entry),
        crate::frame::balance::stands_by(program, types, entry, m, marks, by),
        m.pending is Nothing,
        m.frames.len() > 0,
        m.refs.len() == m.words.len(),
        m.boundary.len() == marks.last().low,
        !(crate::frame::machine::running(program, m).returns is Scalar),
        crate::frame::machine::leave(program, m, value) == Outcome::Next(n),
    ensures
        n.frames.len() < m.frames.len(),
        crate::frame::balance::marked(
            program,
            types,
            entry,
            n,
            next_marks(marks.drop_last(), n.pc),
        ),
{
    lemma_leave_shape(program, m, value);
    lemma_comes_back(program, types, entry, m, marks, by, n);
}

/// What stands once the running call answered a scalar, where the run goes on.
pub proof fn lemma_return_scalar_shape(program: Program, m: Machine, function: Function, n: Machine)
    requires
        m.frames.len() > 0,
        m.refs.len() == m.words.len(),
        crate::frame::machine::return_scalar(program, m, function) == Outcome::Next(n),
    ensures
        m.frames.len() > 1,
        m.words.len() > 0,
        m.frames.last().base <= m.words.len() - 1,
        n.pending == m.pending,
        n.frames == m.frames.drop_last(),
        n.pc == m.frames.last().return_pc,
        n.words == m.words.take(m.frames.last().base as int).push(m.top()),
        n.refs == m.refs.take(m.frames.last().base as int).push(false),
        n.objects == m.objects,
        n.next == m.next,
        n.boundary == m.boundary,
{
    lemma_charged(m, 0, function.spot(m.pc));
    let a = crate::frame::machine::safepoint(m, function.spot(m.pc))->Ok_0;
    let call = a.frames.last();
    let out = crate::frame::machine::closed(a.dropped(1));
    let back = out.push(a.top(), false);
    let caller = program.func(back.frames.last().function);
    let pc = call.return_pc as int;
    lemma_charged(back.goes_to(pc), caller.block_fuel@[pc] as int, caller.spot(pc));
    assert(out.words =~= m.words.take(call.base as int));
    assert(out.refs =~= m.refs.take(call.base as int));
}

#[verifier::spinoff_prover]
proof fn lemma_return_scalar_step(
    program: Program,
    types: Types,
    entry: FunctionId,
    m: Machine,
    marks: Seq<Mark>,
    n: Machine,
)
    requires
        can_step(program, types, entry, m, marks),
        crate::frame::machine::step(program, m) == Outcome::Next(n),
        crate::frame::machine::running(program, m).code@[m.pc] is ReturnScalar,
    ensures
        crate::frame::balance::marked(program, types, entry, n, marks_after(m, marks, n)),
{
    lemma_ready(program, types, entry, m, marks);
    let function = crate::frame::machine::running(program, m);
    lemma_return_scalar_shape(program, m, function, n);
    reveal(can_step);
    reveal(crate::frame::balance::marked);
    reveal(crate::frame::balance::balanced_at);
    assert(m.boundary.len() == marks.last().low) by {
        reveal(crate::frame::balance::stands_by);
    }
    lemma_comes_back(
        program,
        types,
        entry,
        m,
        marks,
        crate::frame::balance::no_move(),
        n,
    );
}

/// What taking a value does.
pub proof fn lemma_taken_shape(program: Program, m: Machine, function: Function)
    requires
        m.refs.len() == m.words.len(),
    ensures
        crate::frame::machine::taken(program, m, function) matches Some(pair) ==> {
            let n = pair.1;
            let kept = !crate::frame::balance::crosses(program, function, m.pc);
            let by = crate::frame::balance::takes_value(kept, Out::Nothing);
            let off = crate::frame::balance::taken_off(m, by);
            &&& n == (Machine { words: n.words, refs: n.refs, boundary: n.boundary, ..m })
            &&& n.words == off.words
            &&& n.refs == off.refs
            &&& n.boundary == off.boundary
            &&& kept ==> m.boundary.len() > 0 && pair.0 == m.boundary.last()
            &&& !kept ==> m.words.len() > 0
        },
{
    if let Some(pair) = crate::frame::machine::taken(program, m, function) {
        let n = pair.1;
        let kept = !crate::frame::balance::crosses(program, function, m.pc);
        let by = crate::frame::balance::takes_value(kept, Out::Nothing);
        let off = crate::frame::balance::taken_off(m, by);
        assert(n.words =~= off.words);
        assert(n.refs =~= off.refs);
        assert(n.boundary =~= off.boundary);
    }
}

#[verifier::spinoff_prover]
proof fn lemma_return_step(
    program: Program,
    types: Types,
    entry: FunctionId,
    m: Machine,
    marks: Seq<Mark>,
)
    requires
        can_step(program, types, entry, m, marks),
        crate::frame::machine::running(program, m).code@[m.pc] is Return,
    ensures
        stepped(program, types, entry, m, marks, crate::frame::machine::step(program, m)),
{
    lemma_ready(program, types, entry, m, marks);
    let function = crate::frame::machine::running(program, m);
    lemma_charged(m, 0, function.spot(m.pc));
    if let Ok(a) = crate::frame::machine::safepoint(m, function.spot(m.pc)) {
        let asked = a.materializing(1);
        lemma_taken_shape(program, asked, function);
        if let Some(pair) = crate::frame::machine::taken(program, asked, function) {
            let by = crate::frame::balance::takes_value(
                crate::frame::balance::takes_kept(program, function, m.pc),
                Out::Nothing,
            );
            lemma_taken_stands(program, types, entry, m, marks, by, pair.1);
            lemma_leave_shape(program, pair.1, pair.0);
            assert(crate::frame::machine::step(program, m) == crate::frame::machine::leave(
                program,
                pair.1,
                pair.0,
            ));
            if let Outcome::Next(n) = crate::frame::machine::step(program, m) {
                reveal(can_step);
                reveal(crate::frame::balance::balanced_at);
                lemma_leaves(program, types, entry, pair.1, marks, by, pair.0, n);
            }
        }
    }
}

/// A value taken at an instruction leaves the run standing by what it took.
pub proof fn lemma_taken_stands(
    program: Program,
    types: Types,
    entry: FunctionId,
    m: Machine,
    marks: Seq<Mark>,
    by: Move,
    n: Machine,
)
    requires
        can_step(program, types, entry, m, marks),
        ({
            let function = crate::frame::machine::running(program, m);
            let inst = function.code@[m.pc];
            &&& inst is Return || inst is Try
            &&& inst is Return ==> by == crate::frame::balance::takes_value(
                crate::frame::balance::takes_kept(program, function, m.pc),
                Out::Nothing,
            )
            &&& inst is Try ==> crate::frame::balance::move_of(program, function, m.pc) == Some(by)
        }),
        ({
            let off = crate::frame::balance::taken_off(m, by);
            n.words == off.words && n.refs == off.refs && n.boundary == off.boundary && n.frames
                == m.frames && n.pc == m.pc
        }),
    ensures
        crate::frame::balance::stands_by(program, types, entry, n, marks, by),
        n.refs.len() == n.words.len(),
        n.boundary.len() == marks.last().low,
        !(crate::frame::machine::running(program, m).returns is Scalar),
{
    lemma_ready(program, types, entry, m, marks);
    reveal(can_step);
    reveal(crate::frame::balance::marked);
    reveal(crate::frame::balance::balanced_at);
    crate::frame::balance::lemma_takes(program, types, entry, m, marks, by);
    reveal(crate::frame::balance::stands_by);
}

#[verifier::spinoff_prover]
proof fn lemma_pop_shape(program: Program, m: Machine, n: Machine)
    requires
        m.frames.len() > 0,
        m.pending is Nothing,
        m.refs.len() == m.words.len(),
        crate::frame::machine::step(program, m) == Outcome::Next(n),
        crate::frame::machine::running(program, m).code@[m.pc] is Pop,
    ensures
        crate::frame::balance::move_of(
            program,
            crate::frame::machine::running(program, m),
            m.pc,
        ) matches Some(by) && goes_straight(program, m, by, n),
{
    let function = crate::frame::machine::running(program, m);
    let asked = m.materializing(1);
    lemma_taken_shape(program, asked, function);
}

#[verifier::spinoff_prover]
proof fn lemma_built_shape(program: Program, m: Machine, n: Machine)
    requires
        m.frames.len() > 0,
        m.pending is Nothing,
        m.refs.len() == m.words.len(),
        crate::frame::machine::step(program, m) == Outcome::Next(n),
        crate::frame::machine::running(program, m).code@[m.pc] is MakeBuiltin,
    ensures
        crate::frame::balance::move_of(
            program,
            crate::frame::machine::running(program, m),
            m.pc,
        ) matches Some(by) && goes_straight(program, m, by, n),
{
    let function = crate::frame::machine::running(program, m);
    if let Inst::MakeBuiltin { name, argc } = function.code@[m.pc] {
        let at = crate::frame::machine::standing(program, function);
        lemma_built_site(program, function, m.pc);
        assert(crate::frame::layout::construction(program, at, m.pc, function.code@[m.pc]) is Some);
    }
}

/// A builtin case that is built has the words it takes, and is a case for
/// certain.
pub proof fn lemma_built_site(program: Program, function: Function, pc: int)
    requires
        function.code@[pc] is MakeBuiltin,
    ensures
        ({
            let at = crate::frame::machine::standing(program, function);
            crate::frame::layout::construction(program, at, pc, function.code@[pc]) matches Some(
                site,
            ) ==> site.payload.len() == function.code@[pc]->MakeBuiltin_argc
                && crate::frame::kinds::pushes(program, function.code@[pc]) == Some(
                crate::frame::kinds::Kind::Enum,
            ) && crate::frame::layout::names_builtin_case(site.kind_name, site.case)
        }),
        ({
            let at = crate::frame::machine::standing(program, function);
            crate::frame::layout::construction(program, at, pc, function.code@[pc]) is None
                && crate::frame::admission::reasons(program, function, at, pc).len() == 0
                ==> crate::frame::kinds::pushes(program, function.code@[pc]) is None
        }),
{
}

/// What handing arguments over leaves.
pub proof fn lemma_arguments_shape(
    program: Program,
    m: Machine,
    kinds: Seq<crate::frame::kinds::Kind>,
    argc: int,
)
    requires
        m.refs.len() == m.words.len(),
        kinds.len() == argc,
    ensures
        crate::frame::machine::arguments(program, m, kinds) matches Some(pair) ==> argc
            <= m.words.len() && pair.1 == m.dropped(argc),
{
}

#[verifier::spinoff_prover]
proof fn lemma_handing_steps(
    program: Program,
    types: Types,
    entry: FunctionId,
    m: Machine,
    marks: Seq<Mark>,
)
    requires
        can_step(program, types, entry, m, marks),
        ({
            let inst = crate::frame::machine::running(program, m).code@[m.pc];
            inst is MakeBuiltin || inst is CallHost
        }),
    ensures
        stepped(program, types, entry, m, marks, crate::frame::machine::step(program, m)),
{
    lemma_ready(program, types, entry, m, marks);
    let function = crate::frame::machine::running(program, m);
    let inst = function.code@[m.pc];
    let done = crate::frame::machine::step(program, m);
    let at = crate::frame::machine::standing(program, function);
    let argc = match inst {
        Inst::MakeBuiltin { name: _, argc } => argc as int,
        Inst::CallHost { module: _, op: _, argc } => argc as int,
        _ => 0,
    };
    if inst is MakeBuiltin {
        lemma_built_site(program, function, m.pc);
        lemma_not_refused(program, types, entry, m, marks);
        if let Outcome::Next(n) = done {
            lemma_built_shape(program, m, n);
            lemma_straight(program, types, entry, m, marks, n);
        }
    }
    if let Some(kinds) = crate::frame::operands::boundary_kinds(at, m.pc, argc) {
        assert(kinds.len() == argc);
        lemma_arguments_shape(program, m, kinds, argc);
        if let Some(pair) = crate::frame::machine::arguments(program, m, kinds) {
            lemma_charged(pair.1.materializing(argc), 0, function.spot(m.pc));
            if let Outcome::Host(n, _, _, _, _) = done {
                lemma_waits(program, types, entry, m, marks, argc, n);
            }
            if let Outcome::Builtin(n, _, _, _) = done {
                lemma_waits(program, types, entry, m, marks, argc, n);
            }
        }
    }
}

/// A run that hands arguments over waits in balance.
proof fn lemma_waits(
    program: Program,
    types: Types,
    entry: FunctionId,
    m: Machine,
    marks: Seq<Mark>,
    argc: int,
    n: Machine,
)
    requires
        can_step(program, types, entry, m, marks),
        ({
            let inst = crate::frame::machine::running(program, m).code@[m.pc];
            &&& inst matches Inst::MakeBuiltin { name: _, argc: given } ==> given == argc
                && n.pending is Builtin && crate::frame::kinds::pushes(program, inst) is None
            &&& inst matches Inst::CallHost { module: _, op: _, argc: given } ==> given == argc
                && n.pending is Host
            &&& inst is MakeBuiltin || inst is CallHost
        }),
        n.words == m.words.take(m.words.len() - argc),
        n.refs == m.refs.take(m.refs.len() - argc),
        n.boundary == m.boundary,
        n.frames == m.frames,
        n.pc == m.pc,
    ensures
        crate::frame::balance::waits_in_balance(program, types, entry, n, marks),
{
    lemma_ready(program, types, entry, m, marks);
    reveal(can_step);
    reveal(crate::frame::balance::marked);
    reveal(crate::frame::balance::balanced_at);
    reveal(crate::frame::balance::waits_in_balance);
    let function = crate::frame::machine::running(program, m);
    let by = crate::frame::balance::move_of(program, function, m.pc)->0;
    crate::frame::balance::lemma_takes(program, types, entry, m, marks, by);
    let off = crate::frame::balance::taken_off(m, by);
    assert(off.boundary =~= m.boundary);
    lemma_same_stand(program, types, entry, off, marks, by, n);
}

#[verifier::spinoff_prover]
proof fn lemma_try_step(
    program: Program,
    types: Types,
    entry: FunctionId,
    m: Machine,
    marks: Seq<Mark>,
)
    requires
        can_step(program, types, entry, m, marks),
        crate::frame::machine::running(program, m).code@[m.pc] is Try,
    ensures
        stepped(program, types, entry, m, marks, crate::frame::machine::step(program, m)),
{
    lemma_ready(program, types, entry, m, marks);
    let function = crate::frame::machine::running(program, m);
    let by = crate::frame::balance::move_of(program, function, m.pc)->0;
    let done = crate::frame::machine::step(program, m);
    lemma_taken_shape(program, m, function);
    if let Inst::Try { payload } = function.code@[m.pc] {
        if let Some(pair) = crate::frame::machine::taken(program, m, function) {
            let n = pair.1.materializing(1);
            match crate::frame::machine::tried(pair.0) {
                Some(Ok(answer)) => {
                    if let Some(opened) = crate::frame::machine::opened_payload(
                        n,
                        answer,
                        payload,
                    ) {
                        lemma_charged(
                            opened,
                            function.block_fuel@[m.pc + 1] as int,
                            function.spot(m.pc + 1),
                        );
                        if let Outcome::Next(after) = done {
                            assert(goes_straight(program, m, by, after));
                            lemma_straight(program, types, entry, m, marks, after);
                        }
                    }
                },
                Some(Err(value)) => {
                    lemma_charged(n, 0, function.spot(m.pc));
                    if let Ok(a) = crate::frame::machine::safepoint(n, function.spot(m.pc)) {
                        lemma_taken_stands(program, types, entry, m, marks, by, a);
                        lemma_leave_shape(program, a, value);
                        assert(done == crate::frame::machine::leave(program, a, value));
                        if let Outcome::Next(after) = done {
                            reveal(can_step);
                            lemma_leaves(program, types, entry, a, marks, by, value, after);
                        }
                    }
                },
                None => {},
            }
        }
    }
}

/// A step leaves a run in balance.
#[verifier::spinoff_prover]
pub proof fn lemma_step_in_balance(
    program: Program,
    types: Types,
    entry: FunctionId,
    m: Machine,
    marks: Seq<Mark>,
)
    requires
        can_step(program, types, entry, m, marks),
    ensures
        stepped(program, types, entry, m, marks, crate::frame::machine::step(program, m)),
{
    lemma_ready(program, types, entry, m, marks);
    let inst = crate::frame::machine::running(program, m).code@[m.pc];
    let done = crate::frame::machine::step(program, m);
    if inst is Return {
        lemma_return_step(program, types, entry, m, marks);
    } else if inst is MakeBuiltin || inst is CallHost {
        lemma_handing_steps(program, types, entry, m, marks);
    } else if inst is Try {
        lemma_try_step(program, types, entry, m, marks);
    } else {
        lemma_hands_nothing_over(program, m);
        if let Outcome::Next(n) = done {
            if inst is Jump || inst is JumpIfFalseScalar || inst is JumpIfTrueScalar
                || inst is JumpIfFalse || inst is JumpIfTrue {
                lemma_flow_steps(program, types, entry, m, marks, n);
            } else if inst is Call {
                lemma_call_step(program, types, entry, m, marks, n);
            } else if inst is ReturnScalar {
                lemma_return_scalar_step(program, types, entry, m, marks, n);
            } else {
                lemma_shapes(program, m, n);
                lemma_straight(program, types, entry, m, marks, n);
            }
        }
    }
}

#[verifier::spinoff_prover]
proof fn lemma_shapes(program: Program, m: Machine, n: Machine)
    requires
        m.frames.len() > 0,
        m.pending is Nothing,
        m.refs.len() == m.words.len(),
        crate::frame::layout::keeps_no_place(program),
        crate::ir::names_what_exists(
            program,
            crate::frame::machine::running(program, m).code@[m.pc],
        ),
        crate::frame::machine::step(program, m) == Outcome::Next(n),
        ({
            let inst = crate::frame::machine::running(program, m).code@[m.pc];
            !(inst is Return || inst is MakeBuiltin || inst is CallHost || inst is Try
                || inst is Jump || inst is JumpIfFalseScalar || inst is JumpIfTrueScalar
                || inst is JumpIfFalse || inst is JumpIfTrue || inst is Call
                || inst is ReturnScalar)
        }),
    ensures
        crate::frame::balance::move_of(
            program,
            crate::frame::machine::running(program, m),
            m.pc,
        ) matches Some(by) && goes_straight(program, m, by, n),
{
    let inst = crate::frame::machine::running(program, m).code@[m.pc];
    if inst is Pop {
        lemma_pop_shape(program, m, n);
    } else if inst is MakeEnum || inst is Concat {
        lemma_made_shapes(program, m, n);
    } else if inst is MakeStruct || inst is TestCase || inst is GetPayload || inst is GetFieldAt
        || inst is GetFieldAtScalar || inst is SetField || inst is Binary {
        lemma_object_step_shapes(program, m, n);
    } else {
        lemma_word_step_shapes(program, m, n);
    }
}

/// Only a builtin call and a Host call hand anything over.
#[verifier::spinoff_prover]
proof fn lemma_hands_nothing_over(program: Program, m: Machine)
    requires
        ({
            let inst = crate::frame::machine::running(program, m).code@[m.pc];
            !(inst is Return || inst is MakeBuiltin || inst is CallHost || inst is Try)
        }),
    ensures
        !(crate::frame::machine::step(program, m) is Host),
        !(crate::frame::machine::step(program, m) is Builtin),
{
    let function = crate::frame::machine::running(program, m);
    match function.code@[m.pc] {
        Inst::Jump(to) => {
            lemma_jump_shape(m, function, to as int);
        },
        Inst::JumpIfFalseScalar(to) => {
            if m.words.len() > 0 {
                lemma_branch_shape(m, function, to as int, true);
            }
        },
        Inst::JumpIfTrueScalar(to) => {
            if m.words.len() > 0 {
                lemma_branch_shape(m, function, to as int, false);
            }
        },
        Inst::JumpIfFalse(to) => {
            if m.words.len() > 0 {
                lemma_branch_shape(m, function, to as int, true);
            }
        },
        Inst::JumpIfTrue(to) => {
            if m.words.len() > 0 {
                lemma_branch_shape(m, function, to as int, false);
            }
        },
        _ => {},
    }
}

/// The operand kinds are true: where the simulation of a function says what
/// kind an operand is, a run that stands there has a word for it, and the word
/// is a handle just where the kind is one. It holds of every state a run comes
/// to from one in balance, and one that waits for an answer waits in balance.
pub proof fn operand_kinds_are_true(
    program: Program,
    types: Types,
    entry: FunctionId,
    m: Machine,
    steps: nat,
)
    requires
        crate::frame::validity::valid(program),
        crate::frame::balance::balanced(program, types, entry),
        program.has_function(entry),
        crate::frame::admission::refusals_from(program, entry).len() == 0,
        crate::frame::balance::in_balance(program, types, entry, m),
    ensures
        crate::frame::machine::run_for(program, m, steps) matches Outcome::Next(n)
            ==> crate::frame::balance::in_balance(program, types, entry, n)
            && crate::frame::balance::kinds_are_true(program, types, n),
        crate::frame::machine::run_for(program, m, steps) matches Outcome::Host(n, _, _, _, _)
            ==> waits_balanced(program, types, entry, n),
        crate::frame::machine::run_for(program, m, steps) matches Outcome::Builtin(n, _, _, _)
            ==> waits_balanced(program, types, entry, n),
    decreases steps,
{
    let marks = choose|marks: Seq<Mark>| #[trigger]
        crate::frame::balance::marked(program, types, entry, m, marks);
    if steps == 0 {
        crate::frame::balance::lemma_kinds(program, types, entry, m, marks);
    } else {
        assert(can_step(program, types, entry, m, marks)) by {
            reveal(can_step);
        }
        lemma_step_in_balance(program, types, entry, m, marks);
        if let Outcome::Next(n) = crate::frame::machine::step(program, m) {
            assert(crate::frame::balance::marked(
                program,
                types,
                entry,
                n,
                marks_after(m, marks, n),
            ));
            operand_kinds_are_true(program, types, entry, n, (steps - 1) as nat);
        }
    }
}

/// A run waits for an answer in balance.
pub open spec fn waits_balanced(
    program: Program,
    types: Types,
    entry: FunctionId,
    m: Machine,
) -> bool {
    exists|marks: Seq<Mark>| #[trigger]
        crate::frame::balance::waits_in_balance(program, types, entry, m, marks)
}

/// A value made into words leaves the stack, the calls and the place alone.
proof fn lemma_worded_shape(m: Machine, value: crate::value::Datum, ty: crate::schema::HostType)
    ensures
        crate::frame::machine::worded(m, value, ty) matches Some(pair) ==> {
            let n = pair.1;
            &&& n.words == m.words
            &&& n.refs == m.refs
            &&& n.boundary == m.boundary
            &&& n.frames == m.frames
            &&& n.pc == m.pc
            &&& n.pending == m.pending
        },
    decreases ty,
{
    match ty {
        crate::schema::HostType::Option(inner) => {
            if let crate::value::Datum::Enum(_, _, payload) = value {
                lemma_worded_shape(m, crate::frame::machine::first_of(payload), *inner);
            }
        },
        crate::schema::HostType::Result(ok, err) => {
            if let crate::value::Datum::Enum(_, _, payload) = value {
                lemma_worded_shape(m, crate::frame::machine::first_of(payload), *ok);
                lemma_worded_shape(m, crate::frame::machine::first_of(payload), *err);
            }
        },
        _ => {},
    }
}

/// An answer put where the arguments stood leaves a run in balance.
#[verifier::spinoff_prover]
proof fn lemma_answer_in_balance(
    program: Program,
    types: Types,
    entry: FunctionId,
    m: Machine,
    marks: Seq<Mark>,
    n: Machine,
)
    requires
        crate::frame::validity::valid(program),
        crate::frame::balance::balanced(program, types, entry),
        crate::frame::balance::waits_in_balance(program, types, entry, m, marks),
        n.frames == m.frames,
        n.pc == m.pc + 1,
        n.pending is Nothing,
        ({
            let inst = crate::frame::machine::running(program, m).code@[m.pc];
            let put = crate::frame::kinds::pushes(program, inst);
            &&& put is Some ==> n.words == m.words.push(n.words.last()) && n.refs == m.refs.push(
                put->0.refers(),
            ) && n.boundary == m.boundary
            &&& put is None ==> n.words == m.words && n.refs == m.refs && n.boundary
                == m.boundary.push(n.boundary.last())
        }),
    ensures
        crate::frame::balance::in_balance(program, types, entry, n),
{
    reveal(crate::frame::balance::waits_in_balance);
    let function = crate::frame::machine::running(program, m);
    let inst = function.code@[m.pc];
    let put = crate::frame::kinds::pushes(program, inst);
    let by = crate::frame::balance::move_of(program, function, m.pc)->0;
    lemma_running(program, types, entry, m, marks, by);
    reveal(crate::frame::balance::balanced_at);
    let held = crate::frame::operands::along(program, function, marks.last().path);
    assert(held.len() >= by.values) by {
        reveal(crate::frame::balance::stands_by);
    }
    crate::frame::balance::lemma_after(program, function, m.pc, held, by);
    crate::frame::balance::lemma_settles(program, types, entry, m, marks, by, n, put);
}

/// Any answer of a host or a builtin that is taken in leaves a run in balance.
pub proof fn an_answer_keeps_a_run_in_balance(
    program: Program,
    types: Types,
    entry: FunctionId,
    m: Machine,
    answer: Result<crate::value::Datum, crate::error::Failure>,
    assertion: bool,
)
    requires
        crate::frame::validity::valid(program),
        crate::frame::balance::balanced(program, types, entry),
        waits_balanced(program, types, entry, m),
    ensures
        ({
            let function = crate::frame::machine::running(program, m);
            let host = crate::frame::machine::host_answered(program, m, function, answer);
            let builtin = crate::frame::machine::builtin_answered(m, function, answer, assertion);
            &&& host matches Outcome::Next(n) ==> crate::frame::balance::in_balance(
                program,
                types,
                entry,
                n,
            )
            &&& builtin matches Outcome::Next(n) ==> crate::frame::balance::in_balance(
                program,
                types,
                entry,
                n,
            )
        }),
{
    let marks = choose|marks: Seq<Mark>| #[trigger]
        crate::frame::balance::waits_in_balance(program, types, entry, m, marks);
    let function = crate::frame::machine::running(program, m);
    let inst = function.code@[m.pc];
    let bare = Machine { pending: crate::frame::machine::Pending::Nothing, ..m };
    assert((m.pending is Host ==> inst is CallHost) && (m.pending is Builtin
        ==> crate::frame::kinds::pushes(program, inst) is None)) by {
        reveal(crate::frame::balance::waits_in_balance);
    }
    if let Outcome::Next(n) = crate::frame::machine::host_answered(program, m, function, answer) {
        if let Some(ty) = crate::frame::kinds::host_answer(
            program,
            program.name_text(inst->CallHost_module),
            program.name_text(inst->CallHost_op),
        ) {
            lemma_worded_shape(bare, answer->Ok_0, ty);
        }
        lemma_answer_in_balance(program, types, entry, m, marks, n);
    }
    if let Outcome::Next(n) = crate::frame::machine::builtin_answered(
        m,
        function,
        answer,
        assertion,
    ) {
        lemma_answer_in_balance(program, types, entry, m, marks, n);
    }
}

/// A run of an admitted entry begins in balance.
#[verifier::spinoff_prover]
pub proof fn a_run_begins_in_balance(
    program: Program,
    types: Types,
    entry: FunctionId,
    m: Machine,
)
    requires
        crate::frame::validity::valid(program),
        crate::frame::balance::balanced(program, types, entry),
        program.has_function(entry),
        crate::frame::admission::refusals_from(program, entry).len() == 0,
    ensures
        crate::frame::machine::begun(program, m, entry) matches Outcome::Next(n)
            ==> crate::frame::balance::in_balance(program, types, entry, n),
{
    let function = program.func(entry);
    if let Outcome::Next(n) = crate::frame::machine::begun(program, m, entry) {
        crate::frame::laws::a_run_begins_within_what_was_admitted(program, entry, m);
        assert(crate::frame::laws::confined(program, entry, n));
        let cleared = Machine {
            words: Seq::empty(),
            refs: Seq::empty(),
            boundary: Seq::empty(),
            fuel: 0,
            frames: seq![Call { function: entry, return_pc: 0, base: 0 }],
            pc: 0,
            pending: crate::frame::machine::Pending::Nothing,
            ..m
        };
        let open = crate::frame::machine::opened(cleared, function, 0);
        lemma_charged(open, 0, function.span);
        let a = crate::frame::machine::safepoint(open, function.span)->Ok_0;
        lemma_charged(a, function.block_fuel@[0] as int, function.spot(0));
        lemma_first_call(program, types, entry, n);
    }
}

/// The first call of a run stands in balance.
proof fn lemma_first_call(program: Program, types: Types, entry: FunctionId, n: Machine)
    requires
        crate::frame::balance::balanced(program, types, entry),
        program.has_function(entry),
        crate::frame::laws::confined(program, entry, n),
        n.words.len() == program.func(entry).slots@.len(),
        n.refs.len() == n.words.len(),
        n.boundary.len() == 0,
        n.frames == seq![Call { function: entry, return_pc: 0, base: 0 }],
        n.pc == 0,
        n.pending is Nothing,
    ensures
        crate::frame::balance::in_balance(program, types, entry, n),
{
    reveal(crate::frame::balance::balanced);
    let function = program.func(entry);
    let mark = Mark { path: seq![0], low: 0 };
    let marks = seq![mark];
    assert(crate::frame::laws::is_admitted(program, entry, n.frames[0].function));
    assert(crate::frame::operands::arrives(function, mark.path, 0));
    assert(crate::frame::operands::along(program, function, mark.path).len() == 0);
    assert(crate::frame::balance::marked(program, types, entry, n, marks)) by {
        reveal(crate::frame::balance::marked);
        reveal(crate::frame::balance::stands_by);
    }
}

} // verus!
