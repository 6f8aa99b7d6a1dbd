//! An answer of the type that is said of it lets an admitted run go on, and a
//! run of an admitted entry begins in good order.
use crate::frame::balance::{Mark, Out, Ty, Types};
use crate::frame::kinds::Part;
use crate::frame::machine::{Call, Machine, Outcome, Pending};
use crate::ir::{Const, FunctionId, Program};
use crate::schema::HostType;
use crate::slot::{Object, Plan};
use crate::value::Datum;
use vstd::prelude::*;

verus! {

/// How many objects a value of a type may need.
pub open spec fn handles(ty: HostType) -> nat
    decreases ty,
{
    match ty {
        HostType::String => 1,
        HostType::Error => 2,
        HostType::Option(inner) => 1 + handles(*inner),
        HostType::Result(ok, err) => 1 + handles(*ok) + handles(*err),
        _ => 0,
    }
}

/// A machine that is another but for its objects.
pub open spec fn only_makes(m: Machine, n: Machine) -> bool {
    n == (Machine {
        objects: n.objects,
        next: n.next,
        allocated_objects: n.allocated_objects,
        allocated_bytes: n.allocated_bytes,
        ..m
    })
}

/// What a value made into words leaves.
pub open spec fn made_well(
    program: Program,
    types: Types,
    m: Machine,
    ty: HostType,
    word: Ty,
    out: Option<(u64, Machine)>,
) -> bool {
    out matches Some(pair) && {
        &&& only_makes(m, pair.1)
        &&& crate::frame::typing::later(m.objects, pair.1.objects)
        &&& crate::frame::typing::objects_stand(program, pair.1)
        &&& pair.1.next <= m.next + handles(ty)
        &&& crate::frame::typing::fits(program, types, pair.1.objects, pair.0, word)
        &&& crate::frame::typing::refers(word) == (crate::frame::kinds::host_word(ty) == Some(
            Part::Nested,
        ))
        &&& !(word is Tests)
    }
}

/// A text made is of a type that admits it.
proof fn lemma_text_made(program: Program, types: Types, m: Machine, text: Seq<char>, word: Ty)
    requires
        crate::frame::typing::objects_stand(program, m),
        m.next < u64::MAX,
        vstd::utf8::encode_utf8(text).len() <= u64::MAX,
        crate::frame::rules::admits(types, word, crate::frame::machine::text_plan()),
    ensures
        made_well(
            program,
            types,
            m,
            HostType::String,
            word,
            crate::frame::machine::text_made(m, text),
        ),
        (crate::frame::machine::text_made(m, text)->0).1.next == m.next + 1,
{
    let plan = crate::frame::machine::text_plan();
    let words = crate::frame::packing::packed(vstd::utf8::encode_utf8(text));
    let n = m.making(plan, words);
    crate::frame::progress::lemma_one_more(program, m, plan, words, n);
    crate::frame::progress::lemma_text_stands(
        program,
        types,
        n.objects,
        m.next as u64,
        text,
        word,
    );
}

/// An object of one word made is of a type that admits it.
proof fn lemma_wraps(
    program: Program,
    types: Types,
    m: Machine,
    plan: Plan,
    word: u64,
    inner: Ty,
    ty: Ty,
)
    requires
        crate::frame::typing::objects_stand(program, m),
        m.next < u64::MAX,
        crate::frame::rules::sorts_stand(types),
        !(plan.form is Text),
        plan.refs.len() == 1,
        crate::frame::rules::admits(types, ty, plan),
        ty is Object ==> inner == crate::frame::rules::sort(types, ty, plan)[0]
            && crate::frame::typing::fits(program, types, m.objects, word, inner),
    ensures
        crate::frame::typing::later(m.objects, m.making(plan, seq![word]).objects),
        crate::frame::typing::fits(
            program,
            types,
            m.making(plan, seq![word]).objects,
            m.next as u64,
            ty,
        ),
        crate::frame::typing::objects_stand(program, m.making(plan, seq![word])),
{
    crate::frame::progress::lemma_makes(program, types, m, plan, seq![word], ty);
    crate::frame::progress::lemma_one_more(
        program,
        m,
        plan,
        seq![word],
        m.making(plan, seq![word]),
    );
}

/// The type of the words of a case, or any where the handle of the case says
/// nothing of them.
pub open spec fn inside(types: Types, declared: HostType, plan: Plan, ty: Ty) -> Ty {
    if ty is Object {
        crate::frame::rules::sort(types, ty, plan)[0]
    } else if crate::frame::kinds::host_word(declared) == Some(Part::Nested) {
        Ty::Unset
    } else {
        Ty::Word
    }
}

/// Anything of a declared type may stand under a handle that says nothing.
proof fn lemma_unset_fits(types: Types, declared: HostType)
    requires
        crate::frame::kinds::host_word(declared) is Some,
    ensures
        crate::frame::rules::host_fits(
            types,
            declared,
            if crate::frame::kinds::host_word(declared) == Some(Part::Nested) {
                Ty::Unset
            } else {
                Ty::Word
            },
        ),
{
}

/// A value of a declared type becomes a word of the type that is said of it.
#[verifier::spinoff_prover]
proof fn lemma_worded(
    program: Program,
    types: Types,
    m: Machine,
    value: Datum,
    declared: HostType,
    ty: Ty,
)
    requires
        crate::frame::typing::objects_stand(program, m),
        crate::frame::rules::sorts_stand(types),
        crate::frame::laws::is_of(value, declared),
        crate::frame::kinds::host_word(declared) is Some,
        crate::frame::rules::host_fits(types, declared, ty),
        m.next + handles(declared) <= u64::MAX,
    ensures
        made_well(
            program,
            types,
            m,
            declared,
            ty,
            crate::frame::machine::worded(m, value, declared),
        ),
    decreases declared,
{
    match declared {
        HostType::String => {
            lemma_text_made(program, types, m, value->Str_0, ty);
        },
        HostType::Error => {
            lemma_error_worded(program, types, m, value, ty);
        },
        HostType::Option(inner) => {
            reveal_strlit("Some");
            reveal_strlit("None");
            let plan = crate::frame::rules::case_plan("Option"@, "Some"@, *inner);
            if value == crate::value::none_of() {
                assert("None"@[0] != "Some"@[0]);
                let none = crate::frame::rules::none_plan();
                crate::frame::progress::lemma_makes(program, types, m, none, Seq::empty(), ty);
                crate::frame::progress::lemma_one_more(
                    program,
                    m,
                    none,
                    Seq::empty(),
                    m.making(none, Seq::empty()),
                );
            } else {
                let held = choose|held: Datum|
                    value == #[trigger] crate::value::some_of(held) && crate::frame::laws::is_of(
                        held,
                        *inner,
                    );
                let at = inside(types, *inner, plan, ty);
                lemma_unset_fits(types, *inner);
                lemma_worded(program, types, m, held, *inner, at);
                let pair = crate::frame::machine::worded(m, held, *inner)->0;
                lemma_wraps(program, types, pair.1, plan, pair.0, at, ty);
            }
        },
        HostType::Result(ok, err) => {
            reveal_strlit("Ok");
            reveal_strlit("Err");
            assert("Err"@ != "Ok"@);
            if exists|held: Datum|
                value == #[trigger] crate::value::ok_of(held) && crate::frame::laws::is_of(
                    held,
                    *ok,
                ) {
                let held = choose|held: Datum|
                    value == #[trigger] crate::value::ok_of(held) && crate::frame::laws::is_of(
                        held,
                        *ok,
                    );
                let plan = crate::frame::rules::case_plan("Result"@, "Ok"@, *ok);
                let at = inside(types, *ok, plan, ty);
                lemma_unset_fits(types, *ok);
                lemma_worded(program, types, m, held, *ok, at);
                let pair = crate::frame::machine::worded(m, held, *ok)->0;
                lemma_wraps(program, types, pair.1, plan, pair.0, at, ty);
            } else {
                let held = choose|held: Datum|
                    value == #[trigger] crate::value::err_of(held) && crate::frame::laws::is_of(
                        held,
                        *err,
                    );
                let plan = crate::frame::rules::case_plan("Result"@, "Err"@, *err);
                let at = inside(types, *err, plan, ty);
                lemma_unset_fits(types, *err);
                lemma_worded(program, types, m, held, *err, at);
                let pair = crate::frame::machine::worded(m, held, *err)->0;
                lemma_wraps(program, types, pair.1, plan, pair.0, at, ty);
            }
        },
        _ => {},
    }
}

proof fn lemma_error_worded(program: Program, types: Types, m: Machine, value: Datum, ty: Ty)
    requires
        crate::frame::typing::objects_stand(program, m),
        crate::frame::rules::sorts_stand(types),
        crate::frame::laws::is_of(value, HostType::Error),
        crate::frame::rules::host_fits(types, HostType::Error, ty),
        m.next + 2 <= u64::MAX,
    ensures
        made_well(
            program,
            types,
            m,
            HostType::Error,
            ty,
            crate::frame::machine::worded(m, value, HostType::Error),
        ),
{
    let text = choose|text: Seq<char>|
        value == #[trigger] crate::value::error_of(text) && vstd::utf8::encode_utf8(text).len()
            <= u64::MAX;
    let plan = crate::frame::machine::error_plan();
    let at = if ty is Object {
        crate::frame::rules::sort(types, ty, plan)[0]
    } else {
        Ty::Unset
    };
    assert(crate::frame::machine::message_of(value) == Datum::Str(text));
    lemma_text_made(program, types, m, text, at);
    let pair = crate::frame::machine::text_made(m, text)->0;
    lemma_wraps(program, types, pair.1, plan, pair.0, at, ty);
}

/// A host's answer taken in crosses as the kind that is said of it.
proof fn lemma_answer_kind(
    program: Program,
    m: Machine,
    value: Datum,
    declared: HostType,
    word: u64,
    n: Machine,
)
    requires
        0 <= m.next,
        crate::frame::laws::is_of(value, declared),
        crate::frame::kinds::host_word(declared) is Some,
        crate::frame::machine::worded(m, value, declared) == Some((word, n)),
    ensures
        crate::frame::typing::kind_holds(
            program,
            n.objects,
            crate::frame::kinds::host_kind(declared)->0,
            word,
            crate::frame::kinds::host_word(declared) == Some(Part::Nested),
        ),
{
    crate::frame::laws::a_host_answer_is_read_back(program, m, value, declared);
}

/// An answer put where the arguments of a call stood: a word, or a value over
/// the boundary.
pub open spec fn took_in(program: Program, types: Types, m: Machine, n: Machine) -> bool {
    let function = crate::frame::machine::running(program, m);
    let inst = function.code@[m.pc];
    let put = crate::frame::kinds::pushes(program, inst);
    let t = types.stand(m.frames.last().function, m.pc + 1);
    &&& n.frames == m.frames
    &&& n.pc == m.pc + 1
    &&& n.pending is Nothing
    &&& crate::frame::typing::later(m.objects, n.objects)
    &&& crate::frame::typing::objects_stand(program, n)
    &&& put is Some ==> {
        &&& n.words == m.words.push(n.words.last())
        &&& n.refs == m.refs.push(n.refs.last())
        &&& n.boundary == m.boundary
        &&& crate::frame::typing::refers(t.words.last()) == n.refs.last()
        &&& !(t.words.last() is Tests)
        &&& crate::frame::typing::fits(program, types, n.objects, n.words.last(), t.words.last())
        &&& crate::frame::typing::kind_holds(
            program,
            n.objects,
            put->0,
            n.words.last(),
            n.refs.last(),
        )
    }
    &&& put is None ==> {
        &&& n.words == m.words
        &&& n.refs == m.refs
        &&& n.boundary == m.boundary.push(n.boundary.last())
        &&& crate::frame::typing::data_is(n.boundary.last(), t.kept.last())
    }
}

/// What a run that waits knows of the instruction it waits at.
#[verifier::spinoff_prover]
proof fn lemma_waiting(
    program: Program,
    types: Types,
    entry: FunctionId,
    room: int,
    m: Machine,
    marks: Seq<Mark>,
)
    requires
        crate::frame::admitted::sound(program, types, entry, room),
        crate::frame::admitted::ordered_to_wait(program, types, entry, room, m, marks),
    ensures
        ({
            let id = m.frames.last().function;
            let function = program.func(id);
            let inst = function.code@[m.pc];
            let s = types.stand(id, m.pc);
            let t = types.stand(id, m.pc + 1);
            let by = crate::frame::balance::move_of(program, function, m.pc);
            &&& by is Some
            &&& by->0.words == by->0.values
            &&& by->0.kept == 0
            &&& by->0.out == (if crate::frame::kinds::pushes(program, inst) is Some {
                Out::Value
            } else {
                Out::Kept
            })
            &&& inst is CallHost || inst is MakeBuiltin
            &&& m.pending is Host ==> inst is CallHost
            &&& m.pending is Builtin ==> inst is MakeBuiltin && crate::frame::kinds::pushes(
                program,
                inst,
            ) is None
            &&& 0 <= m.pc < function.code@.len()
            &&& m.frames.len() > 0
            &&& m.frames.len() == marks.len()
            &&& m.refs.len() == m.words.len()
            &&& m.words.len() == crate::frame::balance::operands_from(program, m.frames.last())
                + s.words.len() - by->0.words
            &&& m.boundary.len() == marks.last().low + s.kept.len()
            &&& marks.last().low >= 0
            &&& crate::frame::balance::can_move(s, by->0)
            &&& crate::frame::balance::goes_on(program, types, id, s, by->0, m.pc + 1)
            &&& crate::frame::rules::flows(types, s, by->0, t, None)
            &&& crate::frame::rules::keeps_slots(types, s, t, None)
            &&& crate::frame::rules::object_typed(program, types, id, m.pc)
            &&& crate::frame::rules::stands_well(program, id, s)
            &&& crate::frame::rules::stands_well(program, id, t)
            &&& crate::frame::operands::arrives(function, marks.last().path, m.pc)
            &&& crate::frame::operands::along(program, function, marks.last().path).len()
                == s.values.len()
            &&& crate::frame::balance::stands_by(program, types, entry, m, marks, by->0)
            &&& crate::frame::typing::typed_by(program, types, room, m, marks, by->0)
            &&& crate::frame::rules::sorts_stand(types)
        }),
{
    let id = m.frames.last().function;
    let function = program.func(id);
    let inst = function.code@[m.pc];
    let by = crate::frame::balance::move_of(program, function, m.pc)->0;
    assert(crate::frame::balance::stands_by(program, types, entry, m, marks, by) && (
    inst is CallHost || inst is MakeBuiltin) && (m.pending is Host ==> inst is CallHost) && (
    m.pending is Builtin ==> inst is MakeBuiltin && crate::frame::kinds::pushes(
        program,
        inst,
    ) is None)) by {
        reveal(crate::frame::balance::waits_in_balance);
    }
    assert(crate::frame::typing::typed_by(program, types, room, m, marks, by)) by {
        reveal(crate::frame::progress::waits_typed);
    }
    assert(crate::frame::validity::valid(program) && crate::frame::balance::balanced(
        program,
        types,
        entry,
    ) && crate::frame::rules::well_typed(program, types, entry, room)) by {
        reveal(crate::frame::admitted::sound);
    }
    crate::frame::truth::lemma_running(program, types, entry, m, marks, by);
    assert(crate::frame::admission::reaches(program, entry, id));
    assert(crate::frame::rules::function_typed(program, types, id, room)
        && crate::frame::rules::sorts_stand(types)) by {
        reveal(crate::frame::rules::well_typed);
    }
    assert(crate::frame::balance::can_move(types.stand(id, m.pc), by)
        && crate::frame::balance::goes_on(
        program,
        types,
        id,
        types.stand(id, m.pc),
        by,
        m.pc + 1,
    )) by {
        reveal(crate::frame::balance::balanced_at);
    }
    assert(crate::frame::rules::typed_at(program, types, id, m.pc)
        && crate::frame::rules::stands_well(program, id, types.stand(id, m.pc))
        && crate::frame::rules::stands_well(program, id, types.stand(id, m.pc + 1))) by {
        reveal(crate::frame::rules::function_typed);
        assert(crate::frame::rules::typed_at(program, types, id, m.pc));
        assert(crate::frame::rules::typed_at(program, types, id, m.pc + 1));
    }
    assert(crate::frame::rules::flows(types, types.stand(id, m.pc), by, types.stand(id, m.pc + 1), None)
        && crate::frame::rules::keeps_slots(
        types,
        types.stand(id, m.pc),
        types.stand(id, m.pc + 1),
        None,
    ) && crate::frame::rules::object_typed(program, types, id, m.pc)) by {
        reveal(crate::frame::rules::typed_at);
    }
    reveal(crate::frame::balance::stands_by);
}

/// An answer taken in leaves a run in good order.
#[verifier::spinoff_prover]
proof fn lemma_taken_in(
    program: Program,
    types: Types,
    entry: FunctionId,
    room: int,
    m: Machine,
    marks: Seq<Mark>,
    n: Machine,
)
    requires
        crate::frame::admitted::sound(program, types, entry, room),
        crate::frame::admitted::ordered_to_wait(program, types, entry, room, m, marks),
        took_in(program, types, m, n),
    ensures
        crate::frame::admitted::in_good_order(program, types, entry, room, n),
{
    lemma_waiting(program, types, entry, room, m, marks);
    let id = m.frames.last().function;
    let function = program.func(id);
    let inst = function.code@[m.pc];
    let by = crate::frame::balance::move_of(program, function, m.pc)->0;
    let put = crate::frame::kinds::pushes(program, inst);
    let held = crate::frame::operands::along(program, function, marks.last().path);
    let other = crate::frame::truth::next_marks(marks, n.pc);
    crate::frame::balance::lemma_after(program, function, m.pc, held, by);
    crate::frame::balance::lemma_settles(program, types, entry, m, marks, by, n, put);
    crate::frame::typed::lemma_goes_on(
        program,
        types,
        m,
        marks.last(),
        by,
        None,
        None,
        put,
        n,
    );
    crate::frame::typed::lemma_below(program, types, entry, room, m, marks, by, n, other);
    assert(crate::frame::admitted::ordered(program, types, entry, room, n, other));
}

/// An answer a host may give at the call a run waits at: one of the declared
/// type where that is one a word stands for, with a handle left for each object
/// it needs, and elsewhere one that is what the types say of it.
pub open spec fn host_may_answer(program: Program, types: Types, m: Machine, value: Datum) -> bool {
    let inst = crate::frame::machine::running(program, m).code@[m.pc];
    let declared = crate::frame::kinds::host_answer(
        program,
        program.name_text(inst->CallHost_module),
        program.name_text(inst->CallHost_op),
    );
    if declared is Some && crate::frame::kinds::host_word(declared->0) is Some {
        crate::frame::laws::is_of(value, declared->0) && m.next + handles(declared->0) <= u64::MAX
    } else {
        crate::frame::typing::data_is(
            value,
            types.stand(m.frames.last().function, m.pc + 1).kept.last(),
        )
    }
}

/// A host's answer lets an admitted run go on: an error raises, and an answer
/// of the declared type leaves the run in good order.
pub proof fn a_host_answer_lets_a_run_go_on(
    program: Program,
    types: Types,
    room: int,
    entry: FunctionId,
    m: Machine,
    answer: Result<Datum, crate::error::Failure>,
)
    requires
        crate::frame::admitted::sound(program, types, entry, room),
        crate::frame::admitted::waits_in_good_order(program, types, entry, room, m),
        m.pending is Host,
        answer is Ok ==> host_may_answer(program, types, m, answer->Ok_0),
    ensures
        ({
            let end = crate::frame::machine::host_answered(
                program,
                m,
                crate::frame::machine::running(program, m),
                answer,
            );
            &&& answer is Err ==> end is Raised
            &&& answer is Ok ==> (end matches Outcome::Next(n)
                && crate::frame::admitted::in_good_order(program, types, entry, room, n))
        }),
{
    let marks = choose|marks: Seq<Mark>| #[trigger]
        crate::frame::admitted::ordered_to_wait(program, types, entry, room, m, marks);
    lemma_waiting(program, types, entry, room, m, marks);
    if let Ok(value) = answer {
        let id = m.frames.last().function;
        let inst = program.func(id).code@[m.pc];
        let t = types.stand(id, m.pc + 1);
        let declared = crate::frame::kinds::host_answer(
            program,
            program.name_text(inst->CallHost_module),
            program.name_text(inst->CallHost_op),
        );
        let bare = Machine { pending: Pending::Nothing, ..m };
        if declared is Some && crate::frame::kinds::host_word(declared->0) is Some {
            lemma_worded(program, types, bare, value, declared->0, t.words.last());
            let pair = crate::frame::machine::worded(bare, value, declared->0)->0;
            lemma_answer_kind(program, bare, value, declared->0, pair.0, pair.1);
        }
        let n = crate::frame::machine::host_answered(
            program,
            m,
            crate::frame::machine::running(program, m),
            answer,
        )->Next_0;
        lemma_taken_in(program, types, entry, room, m, marks, n);
    }
}

/// A builtin's answer lets an admitted run go on: an error raises, and an
/// answer that is what the types say of it leaves the run in good order.
pub proof fn a_builtin_answer_lets_a_run_go_on(
    program: Program,
    types: Types,
    room: int,
    entry: FunctionId,
    m: Machine,
    answer: Result<Datum, crate::error::Failure>,
    assertion: bool,
)
    requires
        crate::frame::admitted::sound(program, types, entry, room),
        crate::frame::admitted::waits_in_good_order(program, types, entry, room, m),
        m.pending is Builtin,
        answer is Ok ==> crate::frame::typing::data_is(
            answer->Ok_0,
            types.stand(m.frames.last().function, m.pc + 1).kept.last(),
        ),
    ensures
        ({
            let end = crate::frame::machine::builtin_answered(
                m,
                crate::frame::machine::running(program, m),
                answer,
                assertion,
            );
            &&& answer is Err ==> end is Raised
            &&& answer is Ok ==> (end matches Outcome::Next(n)
                && crate::frame::admitted::in_good_order(program, types, entry, room, n))
        }),
{
    let marks = choose|marks: Seq<Mark>| #[trigger]
        crate::frame::admitted::ordered_to_wait(program, types, entry, room, m, marks);
    lemma_waiting(program, types, entry, room, m, marks);
    if answer is Ok {
        let n = crate::frame::machine::builtin_answered(
            m,
            crate::frame::machine::running(program, m),
            answer,
            assertion,
        )->Next_0;
        lemma_taken_in(program, types, entry, room, m, marks, n);
    }
}

// ------------------------------------------------------- how a run begins

/// The texts of a program stand in a backend that has run nothing.
pub proof fn the_texts_of_a_program_stand(
    program: Program,
    budget: Option<crate::budget::Budget>,
)
    requires
        crate::frame::machine::const_handle(
            program.constants@,
            program.constants@.len() as int,
        ) <= u64::MAX,
    ensures
        crate::frame::typing::objects_stand(
            program,
            crate::frame::machine::initial(program, budget),
        ),
{
    let count = program.constants@.len() as int;
    lemma_texts(program.constants@, count);
    assert forall|id: int|
        0 <= id < count && #[trigger] program.constants@[id] is Str implies 0
        <= crate::frame::machine::const_handle(program.constants@, id) <= u64::MAX by {
        lemma_handles_grow(program.constants@, id, count);
    }
    lemma_handles_grow(program.constants@, 0, count);
}

proof fn lemma_handles_grow(constants: Seq<Const>, a: int, b: int)
    requires
        0 <= a <= b <= constants.len(),
    ensures
        1 <= crate::frame::machine::const_handle(constants, a)
            <= crate::frame::machine::const_handle(constants, b),
        a < b && constants[a] is Str ==> crate::frame::machine::const_handle(constants, a)
            < crate::frame::machine::const_handle(constants, b),
    decreases b,
{
    if a < b {
        lemma_handles_grow(constants, a, b - 1);
    } else if b > 0 {
        lemma_handles_grow(constants, b - 1, b - 1);
    }
}

proof fn lemma_texts(constants: Seq<Const>, count: int)
    requires
        0 <= count <= constants.len(),
        crate::frame::machine::const_handle(constants, count) <= u64::MAX,
    ensures
        forall|h: u64| #[trigger]
            crate::frame::machine::text_objects(constants, count).dom().contains(h) ==> h
                < crate::frame::machine::const_handle(constants, count),
        forall|id: int|
            0 <= id < count && #[trigger] constants[id] is Str ==> {
                let handle = crate::frame::machine::const_handle(constants, id) as u64;
                let objects = crate::frame::machine::text_objects(constants, count);
                objects.dom().contains(handle) && objects[handle] == (Object {
                    plan: crate::frame::machine::text_plan(),
                    words: crate::frame::packing::packed(
                        vstd::utf8::encode_utf8(constants[id]->Str_0@),
                    ),
                })
            },
    decreases count,
{
    if count > 0 {
        lemma_handles_grow(constants, count - 1, count);
        lemma_texts(constants, count - 1);
        assert forall|id: int| 0 <= id < count && #[trigger] constants[id] is Str implies {
            let handle = crate::frame::machine::const_handle(constants, id) as u64;
            let objects = crate::frame::machine::text_objects(constants, count);
            objects.dom().contains(handle) && objects[handle] == (Object {
                plan: crate::frame::machine::text_plan(),
                words: crate::frame::packing::packed(
                    vstd::utf8::encode_utf8(constants[id]->Str_0@),
                ),
            })
        } by {
            if id < count - 1 {
                lemma_handles_grow(constants, id, count - 1);
            }
        }
    }
}

/// The slots of a function are what they are before anything is stored.
pub open spec fn begins_empty(program: Program, types: Types, entry: FunctionId) -> bool {
    let begin = types.stand(entry, 0);
    forall|i: int|
        0 <= i < program.func(entry).slots@.len() ==> (#[trigger] begin.locals[i] is Unset
            || begin.locals[i] is Word || begin.locals[i] is Bool)
}

/// A run of an admitted entry begins in good order, unless the budget stops it
/// at once.
#[verifier::spinoff_prover]
pub proof fn a_run_begins_in_good_order(
    program: Program,
    types: Types,
    room: int,
    entry: FunctionId,
    m: Machine,
)
    requires
        crate::frame::admitted::sound(program, types, entry, room),
        begins_empty(program, types, entry),
        crate::frame::typing::objects_stand(program, m),
    ensures
        ({
            let end = crate::frame::machine::begun(program, m, entry);
            &&& end is Next || end is Raised
            &&& end matches Outcome::Next(n) ==> crate::frame::admitted::in_good_order(
                program,
                types,
                entry,
                room,
                n,
            )
        }),
{
    let function = program.func(entry);
    lemma_entry(program, types, room, entry);
    let cleared = Machine {
        words: Seq::empty(),
        refs: Seq::empty(),
        boundary: Seq::empty(),
        fuel: 0,
        frames: seq![Call { function: entry, return_pc: 0, base: 0 }],
        pc: 0,
        pending: Pending::Nothing,
        ..m
    };
    let open = crate::frame::machine::opened(cleared, function, 0);
    assert(crate::frame::machine::fits_frame(cleared, function, 0));
    crate::frame::truth::lemma_charged(open, 0, function.span);
    if let Ok(a) = crate::frame::machine::safepoint(open, function.span) {
        crate::frame::truth::lemma_charged(a, function.block_fuel@[0] as int, function.spot(0));
        if let Ok(n) = crate::frame::machine::charge(
            a,
            function.block_fuel@[0] as int,
            function.spot(0),
        ) {
            assert(n.words =~= Seq::new(function.slots@.len(), |i: int| 0u64));
            assert(n.refs =~= crate::frame::machine::frame_refs(function));
            lemma_first(program, types, room, entry, n);
        }
    }
}

/// A run of an admitted entry ends on the frame: however many steps it is given
/// from the start, it answers, raises, waits, or has steps left to take.
pub proof fn an_admitted_entry_ends_on_the_frame(
    program: Program,
    types: Types,
    room: int,
    entry: FunctionId,
    m: Machine,
    module: Seq<char>,
    name: Seq<char>,
    steps: nat,
)
    requires
        crate::frame::admitted::sound(program, types, entry, room),
        begins_empty(program, types, entry),
        crate::frame::typing::objects_stand(program, m),
        m.next + steps < u64::MAX,
        crate::frame::machine::begun(program, m, entry) matches Outcome::Next(n)
            ==> crate::frame::admitted::texts_fit(program, n, steps),
    ensures
        ({
            let end = crate::frame::machine::entered(program, m, module, name, entry, steps);
            &&& !(end is Stuck)
            &&& end matches Outcome::Next(n) ==> crate::frame::admitted::in_good_order(
                program,
                types,
                entry,
                room,
                n,
            )
            &&& end matches Outcome::Host(n, _, _, _, _)
                ==> crate::frame::admitted::waits_in_good_order(program, types, entry, room, n)
            &&& end matches Outcome::Builtin(n, _, _, _)
                ==> crate::frame::admitted::waits_in_good_order(program, types, entry, room, n)
        }),
{
    a_run_begins_in_good_order(program, types, room, entry, m);
    if let Outcome::Next(n) = crate::frame::machine::begun(program, m, entry) {
        lemma_begun_makes_nothing(program, m, entry, n);
        crate::frame::admitted::an_admitted_run_goes_on(program, types, room, entry, n, steps);
    }
}

proof fn lemma_begun_makes_nothing(program: Program, m: Machine, entry: FunctionId, n: Machine)
    requires
        crate::frame::machine::begun(program, m, entry) == Outcome::Next(n),
    ensures
        n.next == m.next,
{
    let function = program.func(entry);
    let cleared = Machine {
        words: Seq::empty(),
        refs: Seq::empty(),
        boundary: Seq::empty(),
        fuel: 0,
        frames: seq![Call { function: entry, return_pc: 0, base: 0 }],
        pc: 0,
        pending: Pending::Nothing,
        ..m
    };
    let open = crate::frame::machine::opened(cleared, function, 0);
    crate::frame::truth::lemma_charged(open, 0, function.span);
    let a = crate::frame::machine::safepoint(open, function.span)->Ok_0;
    crate::frame::truth::lemma_charged(a, function.block_fuel@[0] as int, function.spot(0));
}

/// What is known of an entry.
proof fn lemma_entry(program: Program, types: Types, room: int, entry: FunctionId)
    requires
        crate::frame::admitted::sound(program, types, entry, room),
    ensures
        program.func(entry).code@.len() > 0,
        types.stand(entry, 0).words.len() == 0,
        types.stand(entry, 0).values.len() == 0,
        types.stand(entry, 0).kept.len() == 0,
        program.func(entry).slots@.len() + 64 <= usize::MAX,
        crate::frame::laws::is_admitted(program, entry, entry),
        0 <= room,
{
    reveal(crate::frame::admitted::sound);
    let chain = seq![entry];
    assert(crate::frame::admission::call_chain(program, chain));
    assert(chain[0] == entry && chain.last() == entry);
    assert(crate::frame::admission::reaches(program, entry, entry));
    crate::frame::laws::lemma_reached_is_admitted(program, entry, entry);
    reveal(crate::frame::balance::balanced);
    reveal(crate::frame::rules::well_typed);
    reveal(crate::frame::rules::function_typed);
    assert(crate::frame::rules::typed_at(program, types, entry, 0));
    assert(room <= (crate::frame::machine::MAX_CALL_DEPTH + 1) * room) by (nonlinear_arith)
        requires
            room >= 0,
    ;
}

/// The first call of a run stands in good order.
#[verifier::spinoff_prover]
proof fn lemma_first(program: Program, types: Types, room: int, entry: FunctionId, n: Machine)
    requires
        crate::frame::admitted::sound(program, types, entry, room),
        begins_empty(program, types, entry),
        crate::frame::typing::objects_stand(program, n),
        n.words == Seq::new(program.func(entry).slots@.len(), |i: int| 0u64),
        n.refs == crate::frame::machine::frame_refs(program.func(entry)),
        n.boundary.len() == 0,
        n.frames == seq![Call { function: entry, return_pc: 0, base: 0 }],
        n.pc == 0,
        n.pending is Nothing,
    ensures
        crate::frame::admitted::in_good_order(program, types, entry, room, n),
{
    lemma_entry(program, types, room, entry);
    let function = program.func(entry);
    let mark = Mark { path: seq![0], low: 0 };
    let marks = seq![mark];
    let call = n.frames.last();
    let begin = types.stand(entry, 0);
    assert(crate::frame::operands::arrives(function, mark.path, 0));
    assert(crate::frame::operands::along(program, function, mark.path).len() == 0);
    assert(crate::frame::balance::marked(program, types, entry, n, marks)) by {
        reveal(crate::frame::balance::marked);
        reveal(crate::frame::balance::stands_by);
        assert(crate::frame::laws::confined(program, entry, n));
    }
    assert(crate::frame::typing::typed_callers(program, types, room, n, marks)) by {
        reveal(crate::frame::typing::typed_callers);
    }
    assert(crate::frame::typing::typed_call(
        program,
        types,
        n,
        call,
        mark,
        0,
        crate::frame::balance::no_move(),
    )) by {
        reveal(crate::frame::typing::typed_call);
        assert forall|i: int|
            0 <= i < function.slots@.len() implies #[trigger] crate::frame::typing::local_is(
            program,
            types,
            n,
            call,
            begin.locals,
            i,
        ) by {
            assert(n.words[i] == 0);
            assert(n.refs[i] == (function.slots@[i] is Value));
            assert(begin.locals[i] is Unset || begin.locals[i] is Word || begin.locals[i] is Bool);
        }
    }
    assert(crate::frame::admitted::ordered(program, types, entry, room, n, marks));
}

} // verus!
