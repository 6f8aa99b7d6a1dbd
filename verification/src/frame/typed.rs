//! A run that keeps to its types goes on keeping to them.
use crate::frame::balance::{Mark, Move, Types};
use crate::frame::kinds::Held;
use crate::frame::machine::{Call, Machine};
use crate::ir::{FunctionId, Program};
use crate::slot::Object;
use vstd::prelude::*;

verus! {

/// What an instruction did: it left the words, the bits and the values it did
/// not take, and what it put there is what stands where control goes on.
pub open spec fn carried(
    program: Program,
    types: Types,
    m: Machine,
    by: Move,
    slot: Option<int>,
    put: Held,
    n: Machine,
) -> bool {
    carried_past(program, types, m, by, slot, put, m.boundary.len() - by.kept, n)
}

/// The same, where so many of the values over the boundary stay.
pub open spec fn carried_past(
    program: Program,
    types: Types,
    m: Machine,
    by: Move,
    slot: Option<int>,
    put: Held,
    stay: int,
    n: Machine,
) -> bool {
    let call = m.frames.last();
    let s = types.stand(call.function, m.pc);
    let t = types.stand(call.function, n.pc);
    let from = crate::frame::balance::operands_from(program, call);
    let top = s.words.len() - by.words;
    &&& crate::frame::typing::later(m.objects, n.objects)
    &&& forall|i: int|
        0 <= i < from + top && slot != Some(i - call.base) ==> #[trigger] n.words[i] == m.words[i]
    &&& forall|i: int| 0 <= i < from + top ==> #[trigger] n.refs[i] == m.refs[i]
    &&& forall|i: int|
        0 <= i < stay ==> #[trigger] n.boundary[i] == m.boundary[i]
    &&& by.out is Scalar || by.out is Value ==> crate::frame::typing::operand_is(
        program,
        types,
        n,
        from,
        t.words,
        top,
    )
    &&& by.out is Kept ==> crate::frame::typing::data_is(
        n.boundary[stay],
        t.kept[s.kept.len() - by.kept],
    )
    &&& slot is Some ==> 0 <= slot->0 < program.func(call.function).slots@.len()
        && crate::frame::typing::local_is(program, types, n, call, t.locals, slot->0)
    &&& by.out is Value && put is Some ==> crate::frame::typing::kind_holds(
        program,
        n.objects,
        put->0,
        n.words[from + top],
        n.refs[from + top],
    )
    &&& by.out is Same && put is Some ==> crate::frame::typing::kind_holds(
        program,
        n.objects,
        put->0,
        n.words[from + s.words.len() - 1],
        n.refs[from + s.words.len() - 1],
    )
}

/// The running call keeps to its types where it goes on.
#[verifier::spinoff_prover]
pub proof fn lemma_goes_on(
    program: Program,
    types: Types,
    m: Machine,
    mark: Mark,
    by: Move,
    slot: Option<int>,
    test: Option<(Seq<char>, bool)>,
    put: Held,
    n: Machine,
)
    requires
        m.frames.len() > 0,
        n.frames == m.frames,
        crate::frame::typing::typed_call(
            program,
            types,
            m,
            m.frames.last(),
            mark,
            m.pc,
            by,
        ),
        mark.low >= 0,
        ({
            let id = m.frames.last().function;
            let s = types.stand(id, m.pc);
            let t = types.stand(id, n.pc);
            let function = program.func(id);
            let held = crate::frame::operands::along(program, function, mark.path);
            &&& crate::frame::operands::arrives(function, mark.path, m.pc)
            &&& held.len() == s.values.len()
            &&& crate::frame::balance::can_move(s, by)
            &&& crate::frame::balance::goes_on(program, types, id, s, by, n.pc)
            &&& crate::frame::rules::flows(types, s, by, t, test)
            &&& crate::frame::rules::keeps_slots(types, s, t, slot)
            &&& crate::frame::rules::stands_well(program, id, s)
            &&& crate::frame::rules::stands_well(program, id, t)
            &&& crate::frame::kinds::goes_to(function.code@[m.pc], m.pc, n.pc)
            &&& crate::frame::balance::leaves(program, function.code@[m.pc], held, by, put)
            &&& by.out is Kept ==> put is None
            &&& test is Some ==> {
                let p = s.words.len() - by.words - 1;
                &&& p >= 0
                &&& s.words[p] is Object ==> crate::frame::typing::is_the_case(
                    m.objects,
                    m.words[crate::frame::balance::operands_from(program, m.frames.last()) + p],
                    (test->0).0,
                ) == (test->0).1
            }
        }),
        carried_past(
            program,
            types,
            m,
            by,
            slot,
            put,
            mark.low + types.stand(m.frames.last().function, m.pc).kept.len() - by.kept,
            n,
        ),
    ensures
        crate::frame::typing::typed_call(
            program,
            types,
            n,
            n.frames.last(),
            Mark { path: mark.path.push(n.pc), low: mark.low },
            n.pc,
            crate::frame::balance::no_move(),
        ),
{
    reveal(crate::frame::typing::typed_call);
    reveal(crate::frame::rules::flows);
    reveal(crate::frame::rules::keeps_slots);
    let call = m.frames.last();
    let id = call.function;
    let function = program.func(id);
    let s = types.stand(id, m.pc);
    let t = types.stand(id, n.pc);
    let from = crate::frame::balance::operands_from(program, call);
    let top = s.words.len() - by.words;
    let held = crate::frame::operands::along(program, function, mark.path);
    let next = Mark { path: mark.path.push(n.pc), low: mark.low };
    crate::frame::balance::lemma_path_goes_on(program, function, mark.path, m.pc, n.pc);
    let then = crate::frame::operands::along(program, function, next.path);
    assert forall|p: int| 0 <= p < t.words.len() implies #[trigger] crate::frame::typing::operand_is(
        program,
        types,
        n,
        from,
        t.words,
        p,
    ) by {
        if p < top {
            assert(crate::frame::typing::operand_is(program, types, m, from, s.words, p));
            assert(n.words[from + p] == m.words[from + p]);
            assert(n.refs[from + p] == m.refs[from + p]);
            if test is Some && p == top - 1 {
                crate::frame::typing::lemma_narrowed(
                    program,
                    types,
                    m.objects,
                    m.words[from + p],
                    s.words[p],
                    t.words[p],
                    (test->0).0,
                    (test->0).1,
                );
            } else {
                crate::frame::typing::lemma_within(
                    program,
                    types,
                    m.objects,
                    m.words[from + p],
                    s.words[p],
                    t.words[p],
                );
            }
            crate::frame::typing::lemma_fits_later(
                program,
                types,
                m.objects,
                n.objects,
                m.words[from + p],
                t.words[p],
            );
            if t.words[p] is Tests {
                assert(s.words[p] == t.words[p]);
                assert(crate::frame::typing::operand_is(program, types, m, from, s.words, p - 1));
                assert(n.words[from + p - 1] == m.words[from + p - 1]);
            }
        }
    }
    assert forall|i: int|
        0 <= i < function.slots@.len() implies #[trigger] crate::frame::typing::local_is(
        program,
        types,
        n,
        call,
        t.locals,
        i,
    ) by {
        if slot != Some(i) {
            assert(crate::frame::typing::local_is(program, types, m, call, s.locals, i));
            assert(n.words[call.base + i] == m.words[call.base + i]);
            assert(n.refs[call.base + i] == m.refs[call.base + i]);
            crate::frame::typing::lemma_within(
                program,
                types,
                m.objects,
                m.words[call.base + i],
                s.locals[i],
                t.locals[i],
            );
            crate::frame::typing::lemma_fits_later(
                program,
                types,
                m.objects,
                n.objects,
                m.words[call.base + i],
                t.locals[i],
            );
        }
    }
    assert forall|i: int| 0 <= i < t.kept.len() implies crate::frame::typing::data_is(
        n.boundary[mark.low + i],
        #[trigger] t.kept[i],
    ) by {
        if i < s.kept.len() - by.kept {
            assert(n.boundary[mark.low + i] == m.boundary[mark.low + i]);
            assert(crate::frame::typing::data_is(m.boundary[mark.low + i], s.kept[i]));
        }
    }
    let stay = held.len() - by.values;
    assert forall|i: int| 0 <= i < then.len() && (#[trigger] then[i]) is Some implies t.values[i] is Some
        && crate::frame::typing::kind_holds(
        program,
        n.objects,
        then[i]->0,
        n.words[from + t.values[i]->0],
        n.refs[from + t.values[i]->0],
    ) by {
        if i < stay {
            assert(then[i] == held[i]);
            assert(t.values[i] == s.values[i]);
            let p = s.values[i]->0;
            assert(s.values[i] matches Some(q) ==> 0 <= q < top);
            assert(n.words[from + p] == m.words[from + p]);
            assert(n.refs[from + p] == m.refs[from + p]);
            crate::frame::typing::lemma_kind_later(
                program,
                m.objects,
                n.objects,
                held[i]->0,
                m.words[from + p],
                m.refs[from + p],
            );
        }
    }
}

/// A call keeps to its types once some of its operands are taken.
#[verifier::spinoff_prover]
pub proof fn lemma_takes(
    program: Program,
    types: Types,
    m: Machine,
    call: Call,
    mark: Mark,
    pc: int,
    by: Move,
    n: Machine,
)
    requires
        crate::frame::typing::typed_call(
            program,
            types,
            m,
            call,
            mark,
            pc,
            crate::frame::balance::no_move(),
        ),
        crate::frame::balance::can_move(types.stand(call.function, pc), by),
        mark.low >= 0,
        crate::frame::operands::along(program, program.func(call.function), mark.path).len()
            == types.stand(call.function, pc).values.len(),
        crate::frame::typing::later(m.objects, n.objects),
        ({
            let s = types.stand(call.function, pc);
            let from = crate::frame::balance::operands_from(program, call);
            &&& forall|i: int|
                0 <= i < from + s.words.len() - by.words ==> #[trigger] n.words[i] == m.words[i]
                    && n.refs[i] == m.refs[i]
            &&& forall|i: int|
                0 <= i < mark.low + s.kept.len() - by.kept ==> #[trigger] n.boundary[i]
                    == m.boundary[i]
        }),
    ensures
        crate::frame::typing::typed_call(program, types, n, call, mark, pc, by),
{
    reveal(crate::frame::typing::typed_call);
    let s = types.stand(call.function, pc);
    let from = crate::frame::balance::operands_from(program, call);
    let held = crate::frame::operands::along(program, program.func(call.function), mark.path);
    assert forall|p: int|
        0 <= p < s.words.len() - by.words implies #[trigger] crate::frame::typing::operand_is(
        program,
        types,
        n,
        from,
        s.words,
        p,
    ) by {
        assert(crate::frame::typing::operand_is(program, types, m, from, s.words, p));
        assert(n.words[from + p] == m.words[from + p]);
        crate::frame::typing::lemma_fits_later(
            program,
            types,
            m.objects,
            n.objects,
            m.words[from + p],
            s.words[p],
        );
        if s.words[p] is Tests {
            assert(crate::frame::typing::operand_is(program, types, m, from, s.words, p - 1));
            assert(n.words[from + p - 1] == m.words[from + p - 1]);
        }
    }
    assert forall|i: int|
        0 <= i < program.func(
            call.function,
        ).slots@.len() implies #[trigger] crate::frame::typing::local_is(
        program,
        types,
        n,
        call,
        s.locals,
        i,
    ) by {
        assert(crate::frame::typing::local_is(program, types, m, call, s.locals, i));
        assert(n.words[call.base + i] == m.words[call.base + i]);
        crate::frame::typing::lemma_fits_later(
            program,
            types,
            m.objects,
            n.objects,
            m.words[call.base + i],
            s.locals[i],
        );
    }
    assert forall|i: int|
        0 <= i < held.len() - by.values && (#[trigger] held[i]) is Some implies s.values[i] is Some
        && crate::frame::typing::kind_holds(
        program,
        n.objects,
        held[i]->0,
        n.words[from + s.values[i]->0],
        n.refs[from + s.values[i]->0],
    ) by {
        let p = s.values[i]->0;
        assert(s.values[i] matches Some(q) ==> 0 <= q < s.words.len() - by.words);
        assert(n.words[from + p] == m.words[from + p]);
        crate::frame::typing::lemma_kind_later(
            program,
            m.objects,
            n.objects,
            held[i]->0,
            m.words[from + p],
            m.refs[from + p],
        );
    }
}

/// The calls below the running one keep to their types.
#[verifier::spinoff_prover]
pub proof fn lemma_below(
    program: Program,
    types: Types,
    entry: FunctionId,
    room: int,
    m: Machine,
    marks: Seq<Mark>,
    by: Move,
    n: Machine,
    other: Seq<Mark>,
)
    requires
        crate::frame::balance::stands_by(program, types, entry, m, marks, by),
        crate::frame::typing::typed_callers(program, types, room, m, marks),
        n.frames == m.frames,
        crate::frame::typing::later(m.objects, n.objects),
        other.len() == marks.len(),
        forall|i: int| 0 <= i < marks.len() - 1 ==> #[trigger] other[i] == marks[i],
        other.last().low == marks.last().low,
        ({
            let base = m.frames.last().base as int;
            &&& forall|i: int|
                0 <= i < base ==> #[trigger] n.words[i] == m.words[i] && n.refs[i] == m.refs[i]
            &&& forall|i: int|
                0 <= i < marks.last().low ==> #[trigger] n.boundary[i] == m.boundary[i]
        }),
    ensures
        crate::frame::typing::typed_callers(program, types, room, n, other),
{
    reveal(crate::frame::balance::stands_by);
    reveal(crate::frame::typing::typed_callers);
    let last = m.frames.len() - 1;
    assert forall|i: int| 0 <= i < other.len() implies (#[trigger] other[i]).low == marks[i].low by {
        if i < last {
            assert(other[i] == marks[i]);
        }
    }
    assert forall|i: int, j: int|
        #![trigger n.frames[i], n.frames[j]]
        0 <= i && j == i + 1 && j < n.frames.len() implies crate::frame::typing::typed_call(
        program,
        types,
        n,
        n.frames[i],
        other[i],
        n.frames[j].return_pc - 1,
        crate::frame::typing::taken_by(program, n.frames[i], n.frames[j]),
    ) by {
        assert(other[i] == marks[i]);
        assert(crate::frame::balance::calls(
            program,
            types,
            m.frames[i],
            marks[i],
            m.frames[j],
            marks[j],
            m.refs,
        ));
        assert(m.frames[j].base <= m.frames[last].base);
        assert(marks[j].low <= marks[last].low);
        crate::frame::typing::lemma_call_elsewhere(
            program,
            types,
            m,
            m.frames[i],
            marks[i],
            m.frames[j].return_pc - 1,
            crate::frame::typing::taken_by(program, m.frames[i], m.frames[j]),
            n,
            m.frames[j].base as int,
            marks[j].low,
        );
    }
}

/// A run that is to take a step in good order.
#[verifier::opaque]
pub open spec fn ready(
    program: Program,
    types: Types,
    entry: FunctionId,
    room: int,
    m: Machine,
    marks: Seq<Mark>,
) -> bool {
    &&& crate::frame::truth::can_step(program, types, entry, m, marks)
    &&& crate::frame::rules::well_typed(program, types, entry, room)
    &&& crate::frame::typing::typed_by(
        program,
        types,
        room,
        m,
        marks,
        crate::frame::balance::no_move(),
    )
}

/// What a run that is ready knows of the instruction it stands at.
pub proof fn lemma_rules(
    program: Program,
    types: Types,
    entry: FunctionId,
    room: int,
    m: Machine,
    marks: Seq<Mark>,
)
    requires
        ready(program, types, entry, room, m, marks),
    ensures
        m.frames.len() > 0,
        ({
            let id = m.frames.last().function;
            let s = types.stand(id, m.pc);
            &&& crate::frame::rules::typed_at(program, types, id, m.pc)
            &&& crate::frame::rules::stands_well(program, id, s)
            &&& program.func(id).slots@.len() + s.words.len() <= room
            &&& m.words.len() == crate::frame::balance::operands_from(program, m.frames.last())
                + s.words.len()
            &&& m.refs.len() == m.words.len()
            &&& m.boundary.len() == marks.last().low + s.kept.len()
            &&& crate::frame::balance::part_way(
                program,
                types,
                m.frames.last(),
                marks.last(),
                m.pc,
                crate::frame::balance::no_move(),
                m.words.len() as int,
                m.boundary.len() as int,
                m.refs,
            )
            &&& forall|pc: int|
                0 <= pc < program.func(id).code@.len() ==> crate::frame::rules::stands_well(
                    program,
                    id,
                    #[trigger] types.stand(id, pc),
                )
        }),
        crate::frame::typing::objects_stand(program, m),
        crate::frame::rules::sorts_stand(types),
{
    let id = m.frames.last().function;
    assert(program.has_function(id) && crate::frame::admission::reaches(program, entry, id) && 0
        <= m.pc < program.func(id).code@.len() && m.frames.len() > 0) by {
        reveal(ready);
        reveal(crate::frame::truth::can_step);
        reveal(crate::frame::balance::marked);
        crate::frame::truth::lemma_running(
            program,
            types,
            entry,
            m,
            marks,
            crate::frame::balance::no_move(),
        );
    }
    assert(crate::frame::balance::part_way(
        program,
        types,
        m.frames.last(),
        marks.last(),
        m.pc,
        crate::frame::balance::no_move(),
        m.words.len() as int,
        m.boundary.len() as int,
        m.refs,
    ) && m.refs.len() == m.words.len()) by {
        reveal(ready);
        reveal(crate::frame::truth::can_step);
        reveal(crate::frame::balance::marked);
        reveal(crate::frame::balance::stands_by);
    }
    assert(crate::frame::typing::objects_stand(program, m)) by {
        reveal(ready);
    }
    assert(crate::frame::rules::function_typed(program, types, id, room)
        && crate::frame::rules::sorts_stand(types)) by {
        reveal(ready);
        reveal(crate::frame::rules::well_typed);
    }
    assert(crate::frame::rules::typed_at(program, types, id, m.pc)
        && crate::frame::rules::stands_well(program, id, types.stand(id, m.pc))
        && program.func(id).slots@.len() + types.stand(id, m.pc).words.len() <= room) by {
        reveal(crate::frame::rules::function_typed);
        assert(crate::frame::rules::typed_at(program, types, id, m.pc));
    }
    assert forall|pc: int|
        0 <= pc < program.func(id).code@.len() implies crate::frame::rules::stands_well(
        program,
        id,
        #[trigger] types.stand(id, pc),
    ) by {
        reveal(crate::frame::rules::function_typed);
        assert(crate::frame::rules::typed_at(program, types, id, pc));
    }
}

/// An operand of a run that is ready is of its type.
pub proof fn lemma_operand(
    program: Program,
    types: Types,
    entry: FunctionId,
    room: int,
    m: Machine,
    marks: Seq<Mark>,
    p: int,
)
    requires
        ready(program, types, entry, room, m, marks),
        0 <= p < types.stand(m.frames.last().function, m.pc).words.len(),
    ensures
        crate::frame::typing::operand_is(
            program,
            types,
            m,
            crate::frame::balance::operands_from(program, m.frames.last()),
            types.stand(m.frames.last().function, m.pc).words,
            p,
        ),
{
    reveal(ready);
    reveal(crate::frame::typing::typed_call);
}

/// A slot of a run that is ready is of its type.
pub proof fn lemma_local(
    program: Program,
    types: Types,
    entry: FunctionId,
    room: int,
    m: Machine,
    marks: Seq<Mark>,
    i: int,
)
    requires
        ready(program, types, entry, room, m, marks),
        0 <= i < program.func(m.frames.last().function).slots@.len(),
    ensures
        crate::frame::typing::local_is(
            program,
            types,
            m,
            m.frames.last(),
            types.stand(m.frames.last().function, m.pc).locals,
            i,
        ),
{
    reveal(ready);
    reveal(crate::frame::typing::typed_call);
}

/// An operand whose kind the simulation knows is of it.
pub proof fn lemma_known(
    program: Program,
    types: Types,
    entry: FunctionId,
    room: int,
    m: Machine,
    marks: Seq<Mark>,
    i: int,
)
    requires
        ready(program, types, entry, room, m, marks),
    ensures
        ({
            let function = crate::frame::machine::running(program, m);
            let held = crate::frame::operands::along(program, function, marks.last().path);
            let values = types.stand(m.frames.last().function, m.pc).values;
            let from = crate::frame::balance::operands_from(program, m.frames.last());
            let at = crate::frame::machine::standing(program, function);
            &&& held.len() == values.len()
            &&& 0 <= i < held.len() && held[i] is Some ==> values[i] is Some
                && crate::frame::typing::kind_holds(
                program,
                m.objects,
                held[i]->0,
                m.words[from + values[i]->0],
                m.refs[from + values[i]->0],
            )
            &&& at.len() == function.code@.len()
            &&& at[m.pc] is Some
            &&& at[m.pc]->0.len() == held.len()
            &&& 0 <= i < held.len() && (at[m.pc]->0)[i] is Some ==> held[i] == (at[m.pc]->0)[i]
        }),
{
    reveal(ready);
    reveal(crate::frame::typing::typed_call);
    reveal(crate::frame::truth::can_step);
    reveal(crate::frame::balance::marked);
    crate::frame::truth::lemma_running(
        program,
        types,
        entry,
        m,
        marks,
        crate::frame::balance::no_move(),
    );
    let function = crate::frame::machine::running(program, m);
    assert(crate::frame::operands::arrives(function, marks.last().path, m.pc)
        && crate::frame::operands::along(program, function, marks.last().path).len()
        == types.stand(m.frames.last().function, m.pc).values.len()) by {
        reveal(crate::frame::balance::stands_by);
    }
    crate::frame::balance::lemma_recorded(program, function, marks.last().path, m.pc);
}

/// A step in the running call leaves a run that keeps to its types.
pub proof fn lemma_carries(
    program: Program,
    types: Types,
    entry: FunctionId,
    room: int,
    m: Machine,
    marks: Seq<Mark>,
    by: Move,
    slot: Option<int>,
    test: Option<(Seq<char>, bool)>,
    put: Held,
    n: Machine,
)
    requires
        ready(program, types, entry, room, m, marks),
        n.frames == m.frames,
        crate::frame::typing::objects_stand(program, n),
        ({
            let id = m.frames.last().function;
            let s = types.stand(id, m.pc);
            let t = types.stand(id, n.pc);
            let function = program.func(id);
            let held = crate::frame::operands::along(program, function, marks.last().path);
            &&& crate::frame::balance::can_move(s, by)
            &&& crate::frame::balance::goes_on(program, types, id, s, by, n.pc)
            &&& crate::frame::rules::flows(types, s, by, t, test)
            &&& crate::frame::rules::keeps_slots(types, s, t, slot)
            &&& crate::frame::kinds::goes_to(function.code@[m.pc], m.pc, n.pc)
            &&& crate::frame::balance::leaves(program, function.code@[m.pc], held, by, put)
            &&& by.out is Kept ==> put is None
            &&& test is Some ==> {
                let p = s.words.len() - by.words - 1;
                &&& p >= 0
                &&& s.words[p] is Object ==> crate::frame::typing::is_the_case(
                    m.objects,
                    m.words[crate::frame::balance::operands_from(program, m.frames.last()) + p],
                    (test->0).0,
                ) == (test->0).1
            }
        }),
        carried(program, types, m, by, slot, put, n),
    ensures
        crate::frame::typing::typed_by(
            program,
            types,
            room,
            n,
            crate::frame::truth::next_marks(marks, n.pc),
            crate::frame::balance::no_move(),
        ),
{
    lemma_rules(program, types, entry, room, m, marks);
    reveal(ready);
    reveal(crate::frame::truth::can_step);
    reveal(crate::frame::balance::marked);
    let other = crate::frame::truth::next_marks(marks, n.pc);
    let id = m.frames.last().function;
    let s = types.stand(id, m.pc);
    let call = m.frames.last();
    assert(marks.len() > 0 && marks.len() == m.frames.len()) by {
        reveal(crate::frame::balance::stands_by);
    }
    assert(crate::frame::typing::typed_call(program, types, m, call, marks.last(), m.pc, by)) by {
        reveal(crate::frame::typing::typed_call);
    }
    lemma_goes_on(program, types, m, marks.last(), by, slot, test, put, n);
    assert forall|i: int| 0 <= i < call.base implies #[trigger] n.words[i] == m.words[i]
        && n.refs[i] == m.refs[i] by {
        assert(slot != Some(i - call.base));
    }
    lemma_below(
        program,
        types,
        entry,
        room,
        m,
        marks,
        crate::frame::balance::no_move(),
        n,
        other,
    );
}

/// What an instruction that goes on to the next one leaves for the simulation.
pub open spec fn left_as(program: Program, m: Machine, marks: Seq<Mark>) -> Held {
    let function = crate::frame::machine::running(program, m);
    if function.code@[m.pc] is Dup {
        crate::frame::operands::along(program, function, marks.last().path).last()
    } else {
        crate::frame::kinds::pushes(program, function.code@[m.pc])
    }
}

/// An instruction that goes on to the next one leaves a run that keeps to its
/// types.
#[verifier::spinoff_prover]
pub proof fn lemma_straight(
    program: Program,
    types: Types,
    entry: FunctionId,
    room: int,
    m: Machine,
    marks: Seq<Mark>,
    n: Machine,
)
    requires
        ready(program, types, entry, room, m, marks),
        n.frames == m.frames,
        n.pc == m.pc + 1,
        crate::frame::typing::objects_stand(program, n),
        ({
            let function = crate::frame::machine::running(program, m);
            let inst = function.code@[m.pc];
            let by = crate::frame::balance::move_of(program, function, m.pc);
            &&& by is Some
            &&& carried(
                program,
                types,
                m,
                by->0,
                crate::frame::rules::slot_written(inst),
                left_as(program, m, marks),
                n,
            )
            &&& by->0.out is Kept ==> crate::frame::kinds::pushes(program, inst) is None
        }),
    ensures
        crate::frame::typing::typed_by(
            program,
            types,
            room,
            n,
            crate::frame::truth::next_marks(marks, n.pc),
            crate::frame::balance::no_move(),
        ),
{
    lemma_rules(program, types, entry, room, m, marks);
    let function = crate::frame::machine::running(program, m);
    let inst = function.code@[m.pc];
    let by = crate::frame::balance::move_of(program, function, m.pc)->0;
    let held = crate::frame::operands::along(program, function, marks.last().path);
    assert(crate::frame::balance::balanced_at(program, types, m.frames.last().function, m.pc)) by {
        reveal(ready);
        crate::frame::truth::lemma_ready(program, types, entry, m, marks);
    }
    reveal(crate::frame::balance::balanced_at);
    reveal(crate::frame::rules::typed_at);
    crate::frame::balance::lemma_after(program, function, m.pc, held, by);
    lemma_carries(
        program,
        types,
        entry,
        room,
        m,
        marks,
        by,
        crate::frame::rules::slot_written(inst),
        None,
        left_as(program, m, marks),
        n,
    );
}

/// An instruction of a run that is ready is in balance, and what it takes is
/// there.
pub proof fn lemma_moves(
    program: Program,
    types: Types,
    entry: FunctionId,
    room: int,
    m: Machine,
    marks: Seq<Mark>,
)
    requires
        ready(program, types, entry, room, m, marks),
    ensures
        m.pending is Nothing,
        0 <= m.pc < crate::frame::machine::running(program, m).code@.len(),
        crate::ir::names_what_exists(
            program,
            crate::frame::machine::running(program, m).code@[m.pc],
        ),
        crate::frame::layout::keeps_no_place(program),
        ({
            let function = crate::frame::machine::running(program, m);
            let s = types.stand(m.frames.last().function, m.pc);
            let t = types.stand(m.frames.last().function, m.pc + 1);
            crate::frame::balance::move_of(program, function, m.pc) matches Some(by)
                ==> crate::frame::balance::can_move(s, by)
                && crate::frame::balance::goes_on(
                program,
                types,
                m.frames.last().function,
                s,
                by,
                m.pc + 1,
            )
        }),
        crate::frame::admission::reasons(
            program,
            crate::frame::machine::running(program, m),
            crate::frame::machine::standing(program, crate::frame::machine::running(program, m)),
            m.pc,
        ).len() == 0,
{
    reveal(ready);
    crate::frame::truth::lemma_ready(program, types, entry, m, marks);
    crate::frame::truth::lemma_not_refused(program, types, entry, m, marks);
    reveal(crate::frame::balance::balanced_at);
}

/// A run that takes its operands, and nothing else, keeps to its types.
#[verifier::spinoff_prover]
pub proof fn lemma_taken_off(
    program: Program,
    types: Types,
    entry: FunctionId,
    room: int,
    m: Machine,
    marks: Seq<Mark>,
    by: Move,
    n: Machine,
)
    requires
        ready(program, types, entry, room, m, marks),
        crate::frame::balance::can_move(types.stand(m.frames.last().function, m.pc), by),
        ({
            let off = crate::frame::balance::taken_off(m, by);
            &&& n.words == off.words
            &&& n.refs == off.refs
            &&& n.boundary == off.boundary
            &&& n.frames == m.frames
            &&& n.pc == m.pc
            &&& n.objects == m.objects
            &&& n.next == m.next
        }),
    ensures
        crate::frame::typing::typed_by(program, types, room, n, marks, by),
{
    lemma_rules(program, types, entry, room, m, marks);
    reveal(ready);
    reveal(crate::frame::truth::can_step);
    reveal(crate::frame::balance::marked);
    lemma_takes(program, types, m, m.frames.last(), marks.last(), m.pc, by, n);
    lemma_below(
        program,
        types,
        entry,
        room,
        m,
        marks,
        crate::frame::balance::no_move(),
        n,
        marks,
    );
}

} // verus!
