//! An admitted run goes on: no step of it asks for what is not there.
use crate::frame::balance::{Mark, Move, Out, Ty, Types};
use crate::frame::kinds::{Held, Kind};
use crate::frame::machine::{Machine, Outcome};
use crate::ir::{Const, FunctionId, Inst, Program, Scalar};
use crate::slot::{Object, Plan};
use crate::value::Datum;
use vstd::prelude::*;

verus! {

/// What a step comes to is in good order.
pub open spec fn stepped_well(
    program: Program,
    types: Types,
    room: int,
    m: Machine,
    marks: Seq<Mark>,
    outcome: Outcome,
) -> bool {
    match outcome {
        Outcome::Stuck => false,
        Outcome::Next(n) => crate::frame::typing::typed_by(
            program,
            types,
            room,
            n,
            crate::frame::truth::marks_after(m, marks, n),
            crate::frame::balance::no_move(),
        ),
        Outcome::Host(n, _, _, _, _) => waits_typed(program, types, room, n, marks),
        Outcome::Builtin(n, _, _, _) => waits_typed(program, types, room, n, marks),
        _ => true,
    }
}

/// A run that waits keeps to its types, the arguments taken.
#[verifier::opaque]
pub open spec fn waits_typed(
    program: Program,
    types: Types,
    room: int,
    m: Machine,
    marks: Seq<Mark>,
) -> bool {
    crate::frame::typing::typed_by(
        program,
        types,
        room,
        m,
        marks,
        crate::frame::balance::move_of(
            program,
            crate::frame::machine::running(program, m),
            m.pc,
        )->0,
    )
}

// ---------------------------------------------------------------- words

/// The rule of the instruction a run stands at.
pub proof fn lemma_typed_at(
    program: Program,
    types: Types,
    entry: FunctionId,
    room: int,
    m: Machine,
    marks: Seq<Mark>,
)
    requires
        crate::frame::typed::ready(program, types, entry, room, m, marks),
    ensures
        ({
            let id = m.frames.last().function;
            let inst = crate::frame::machine::running(program, m).code@[m.pc];
            &&& crate::frame::rules::over_words(inst) ==> crate::frame::rules::word_typed(
                program,
                types,
                id,
                m.pc,
            )
            &&& !crate::frame::rules::over_words(inst) && crate::frame::balance::move_of(
                program,
                program.func(id),
                m.pc,
            ) is Some ==> crate::frame::rules::object_typed(program, types, id, m.pc)
        }),
{
    crate::frame::typed::lemma_rules(program, types, entry, room, m, marks);
    reveal(crate::frame::rules::typed_at);
}

#[verifier::spinoff_prover]
proof fn lemma_loads(
    program: Program,
    types: Types,
    entry: FunctionId,
    room: int,
    m: Machine,
    marks: Seq<Mark>,
)
    requires
        crate::frame::typed::ready(program, types, entry, room, m, marks),
        ({
            let inst = crate::frame::machine::running(program, m).code@[m.pc];
            inst is LoadScalar || inst is LoadLocal || inst is ScalarConst
        }),
    ensures
        stepped_well(program, types, room, m, marks, crate::frame::machine::step(program, m)),
{
    crate::frame::typed::lemma_rules(program, types, entry, room, m, marks);
    crate::frame::typed::lemma_moves(program, types, entry, room, m, marks);
    let call = m.frames.last();
    let function = crate::frame::machine::running(program, m);
    let inst = function.code@[m.pc];
    let s = types.stand(call.function, m.pc);
    let t = types.stand(call.function, m.pc + 1);
    lemma_typed_at(program, types, entry, room, m, marks);
    let slot = match inst {
        Inst::LoadScalar(slot) => slot as int,
        Inst::LoadLocal(slot) => slot as int,
        _ => -1,
    };
    if slot >= 0 {
        crate::frame::typed::lemma_local(program, types, entry, room, m, marks, slot);
        let word = m.words[call.base + slot];
        let ty = if inst is LoadLocal {
            s.locals[slot]
        } else {
            crate::frame::typing::scalar(s.locals[slot])
        };
        assert(crate::frame::typing::fits(program, types, m.objects, word, ty));
        crate::frame::typing::lemma_within(program, types, m.objects, word, ty, t.words.last());
    }
    if let Outcome::Next(n) = crate::frame::machine::step(program, m) {
        crate::frame::typed::lemma_straight(program, types, entry, room, m, marks, n);
    }
}

#[verifier::spinoff_prover]
proof fn lemma_stores(
    program: Program,
    types: Types,
    entry: FunctionId,
    room: int,
    m: Machine,
    marks: Seq<Mark>,
)
    requires
        crate::frame::typed::ready(program, types, entry, room, m, marks),
        ({
            let inst = crate::frame::machine::running(program, m).code@[m.pc];
            inst is StoreScalar || inst is StoreLocal || inst is ScalarPop
        }),
    ensures
        stepped_well(program, types, room, m, marks, crate::frame::machine::step(program, m)),
{
    crate::frame::typed::lemma_rules(program, types, entry, room, m, marks);
    crate::frame::typed::lemma_moves(program, types, entry, room, m, marks);
    let call = m.frames.last();
    let function = crate::frame::machine::running(program, m);
    let inst = function.code@[m.pc];
    let s = types.stand(call.function, m.pc);
    let t = types.stand(call.function, m.pc + 1);
    lemma_typed_at(program, types, entry, room, m, marks);
    let slot = match inst {
        Inst::StoreScalar(slot) => slot as int,
        Inst::StoreLocal(slot) => slot as int,
        _ => -1,
    };
    crate::frame::typed::lemma_operand(program, types, entry, room, m, marks, s.words.len() - 1);
    if slot >= 0 {
        crate::frame::typed::lemma_local(program, types, entry, room, m, marks, slot);
        let ty = crate::frame::rules::put_as(
            inst is StoreLocal && function.slots@[slot] is Value,
            s.words.last(),
        );
        assert(crate::frame::typing::fits(program, types, m.objects, m.top(), ty));
        crate::frame::typing::lemma_within(
            program,
            types,
            m.objects,
            m.top(),
            ty,
            t.locals[slot],
        );
        assert(!(crate::frame::machine::step(program, m) is Stuck));
    }
    if let Outcome::Next(n) = crate::frame::machine::step(program, m) {
        lemma_stored(program, types, m, slot, n);
        crate::frame::typed::lemma_straight(program, types, entry, room, m, marks, n);
    }
}

proof fn lemma_stored(program: Program, types: Types, m: Machine, slot: int, n: Machine)
    requires
        m.frames.len() > 0,
        m.refs.len() == m.words.len(),
        ({
            let call = m.frames.last();
            let function = program.func(call.function);
            let inst = function.code@[m.pc];
            let s = types.stand(call.function, m.pc);
            let t = types.stand(call.function, m.pc + 1);
            &&& crate::frame::machine::step(program, m) == Outcome::Next(n)
            &&& inst is StoreScalar || inst is StoreLocal || inst is ScalarPop
            &&& crate::frame::rules::slot_written(inst) == (if slot >= 0 {
                Some(slot)
            } else {
                None
            })
            &&& m.words.len() == crate::frame::balance::operands_from(program, call)
                + s.words.len()
            &&& s.words.len() > 0
            &&& slot >= 0 ==> {
                &&& slot < function.slots@.len()
                &&& m.refs[call.base + slot] == (function.slots@[slot] is Value)
                &&& crate::frame::typing::fits(
                    program,
                    types,
                    m.objects,
                    m.top(),
                    t.locals[slot],
                )
            }
        }),
    ensures
        n.frames == m.frames,
        n.pc == m.pc + 1,
        n.objects == m.objects,
        n.next == m.next,
        ({
            let function = program.func(m.frames.last().function);
            let inst = function.code@[m.pc];
            let by = crate::frame::balance::move_of(program, function, m.pc);
            by is Some && crate::frame::typed::carried(
                program,
                types,
                m,
                by->0,
                crate::frame::rules::slot_written(inst),
                crate::frame::kinds::pushes(program, inst),
                n,
            ) && !(by->0.out is Kept)
        }),
{
}

#[verifier::spinoff_prover]
proof fn lemma_converts(
    program: Program,
    types: Types,
    entry: FunctionId,
    room: int,
    m: Machine,
    marks: Seq<Mark>,
)
    requires
        crate::frame::typed::ready(program, types, entry, room, m, marks),
        ({
            let inst = crate::frame::machine::running(program, m).code@[m.pc];
            inst is ScalarToValue || inst is ValueToScalar
        }),
    ensures
        stepped_well(program, types, room, m, marks, crate::frame::machine::step(program, m)),
{
    crate::frame::typed::lemma_rules(program, types, entry, room, m, marks);
    crate::frame::typed::lemma_moves(program, types, entry, room, m, marks);
    let s = types.stand(m.frames.last().function, m.pc);
    lemma_typed_at(program, types, entry, room, m, marks);
    crate::frame::typed::lemma_operand(program, types, entry, room, m, marks, s.words.len() - 1);
    let n = m.advanced();
    lemma_converted(program, types, m);
    crate::frame::typed::lemma_straight(program, types, entry, room, m, marks, n);
}

proof fn lemma_converted(program: Program, types: Types, m: Machine)
    requires
        m.frames.len() > 0,
        m.pending is Nothing,
        0 <= m.pc < crate::frame::machine::running(program, m).code@.len(),
        m.refs.len() == m.words.len(),
        ({
            let call = m.frames.last();
            let inst = crate::frame::machine::running(program, m).code@[m.pc];
            let s = types.stand(call.function, m.pc);
            &&& m.words.len() == crate::frame::balance::operands_from(program, call)
                + s.words.len()
            &&& s.words.len() > 0
            &&& !m.top_ref()
            &&& inst is ScalarToValue || inst is ValueToScalar
            &&& inst == Inst::ScalarToValue(Scalar::Bool) ==> m.top() <= 1
        }),
    ensures
        crate::frame::machine::step(program, m) == Outcome::Next(m.advanced()),
        ({
            let function = program.func(m.frames.last().function);
            let inst = function.code@[m.pc];
            let by = crate::frame::balance::move_of(program, function, m.pc);
            by is Some && crate::frame::typed::carried(
                program,
                types,
                m,
                by->0,
                crate::frame::rules::slot_written(inst),
                crate::frame::kinds::pushes(program, inst),
                m.advanced(),
            ) && !(by->0.out is Kept)
        }),
{
}

#[verifier::spinoff_prover]
proof fn lemma_copies(
    program: Program,
    types: Types,
    entry: FunctionId,
    room: int,
    m: Machine,
    marks: Seq<Mark>,
)
    requires
        crate::frame::typed::ready(program, types, entry, room, m, marks),
        crate::frame::machine::running(program, m).code@[m.pc] is Dup,
    ensures
        stepped_well(program, types, room, m, marks, crate::frame::machine::step(program, m)),
{
    crate::frame::typed::lemma_rules(program, types, entry, room, m, marks);
    crate::frame::typed::lemma_moves(program, types, entry, room, m, marks);
    let call = m.frames.last();
    let s = types.stand(call.function, m.pc);
    let t = types.stand(call.function, m.pc + 1);
    lemma_typed_at(program, types, entry, room, m, marks);
    crate::frame::typed::lemma_operand(program, types, entry, room, m, marks, s.words.len() - 1);
    crate::frame::typed::lemma_known(program, types, entry, room, m, marks, s.values.len() - 1);
    let ty = crate::frame::typing::plain(s.words.last());
    assert(crate::frame::typing::fits(program, types, m.objects, m.top(), ty));
    crate::frame::typing::lemma_within(
        program,
        types,
        m.objects,
        m.top(),
        ty,
        t.words.last(),
    );
    if let Outcome::Next(n) = crate::frame::machine::step(program, m) {
        crate::frame::typed::lemma_straight(program, types, entry, room, m, marks, n);
    }
}

/// A word put on the stack, where the words an instruction takes stood.
pub open spec fn puts(m: Machine, words: int, word: u64, is_ref: bool, n: Machine) -> bool {
    &&& n.frames == m.frames
    &&& n.pc == m.pc + 1
    &&& n.boundary == m.boundary
    &&& n.words == m.words.take(m.words.len() - words).push(word)
    &&& n.refs == m.refs.take(m.refs.len() - words).push(is_ref)
    &&& crate::frame::typing::later(m.objects, n.objects)
}

pub proof fn lemma_put(
    program: Program,
    types: Types,
    m: Machine,
    by: Move,
    put: Held,
    word: u64,
    is_ref: bool,
    n: Machine,
)
    requires
        m.frames.len() > 0,
        m.refs.len() == m.words.len(),
        by.out is Scalar || by.out is Value,
        by.kept == 0,
        puts(m, by.words, word, is_ref, n),
        ({
            let call = m.frames.last();
            let s = types.stand(call.function, m.pc);
            let t = types.stand(call.function, m.pc + 1);
            let from = crate::frame::balance::operands_from(program, call);
            let top = s.words.len() - by.words;
            &&& m.words.len() == from + s.words.len()
            &&& 0 <= by.words <= s.words.len()
            &&& crate::frame::typing::refers(t.words[top]) == is_ref
            &&& crate::frame::typing::fits(program, types, n.objects, word, t.words[top])
            &&& t.words[top] is Tests ==> top > 0 && t.words[top - 1] is Object && (word == 1
                <==> crate::frame::typing::is_the_case(
                n.objects,
                m.words[from + top - 1],
                t.words[top]->Tests_0,
            ))
            &&& by.out is Value && put is Some ==> crate::frame::typing::kind_holds(
                program,
                n.objects,
                put->0,
                word,
                is_ref,
            )
        }),
    ensures
        crate::frame::typed::carried(program, types, m, by, None, put, n),
{
}

#[verifier::spinoff_prover]
proof fn lemma_computes(
    program: Program,
    types: Types,
    entry: FunctionId,
    room: int,
    m: Machine,
    marks: Seq<Mark>,
)
    requires
        crate::frame::typed::ready(program, types, entry, room, m, marks),
        crate::frame::machine::running(program, m).code@[m.pc] is IntBinary,
    ensures
        stepped_well(program, types, room, m, marks, crate::frame::machine::step(program, m)),
{
    crate::frame::typed::lemma_rules(program, types, entry, room, m, marks);
    crate::frame::typed::lemma_moves(program, types, entry, room, m, marks);
    lemma_typed_at(program, types, entry, room, m, marks);
    let function = crate::frame::machine::running(program, m);
    let t = types.stand(m.frames.last().function, m.pc + 1);
    if let Outcome::Next(n) = crate::frame::machine::step(program, m) {
        let by = crate::frame::balance::moves(0, 2, Out::Scalar);
        lemma_answer_word(program, m, t.words.last(), n);
        lemma_put(program, types, m, by, None, n.words.last(), false, n);
        crate::frame::typed::lemma_straight(program, types, entry, room, m, marks, n);
    }
}

proof fn lemma_answer_word(program: Program, m: Machine, ty: Ty, n: Machine)
    requires
        m.frames.len() > 0,
        m.words.len() >= 2,
        crate::frame::machine::step(program, m) == Outcome::Next(n),
        crate::frame::machine::running(program, m).code@[m.pc] matches Inst::IntBinary(op) && (
        ty is Word || (ty is Bool && crate::frame::rules::compares(op))),
    ensures
        puts(m, 2, n.words.last(), false, n),
        n.objects == m.objects,
        n.next == m.next,
        ty is Bool ==> n.words.last() <= 1,
{
}

#[verifier::spinoff_prover]
proof fn lemma_constants(
    program: Program,
    types: Types,
    entry: FunctionId,
    room: int,
    m: Machine,
    marks: Seq<Mark>,
)
    requires
        crate::frame::typed::ready(program, types, entry, room, m, marks),
        crate::frame::machine::running(program, m).code@[m.pc] is Const,
    ensures
        stepped_well(program, types, room, m, marks, crate::frame::machine::step(program, m)),
{
    crate::frame::typed::lemma_rules(program, types, entry, room, m, marks);
    crate::frame::typed::lemma_moves(program, types, entry, room, m, marks);
    lemma_typed_at(program, types, entry, room, m, marks);
    let function = crate::frame::machine::running(program, m);
    let inst = function.code@[m.pc];
    let t = types.stand(m.frames.last().function, m.pc + 1);
    let id = inst->Const_0;
    let constant = program.constants@[id.0 as int];
    let word = crate::frame::machine::constant(program, id);
    let n = m.push(word, constant is Str).advanced();
    assert(crate::frame::machine::step(program, m) == Outcome::Next(n));
    let by = crate::frame::balance::moves(0, 0, Out::Value);
    assert(m.words.take(m.words.len() as int) =~= m.words);
    assert(m.refs.take(m.refs.len() as int) =~= m.refs);
    if constant is Str {
        lemma_text_constant(program, types, entry, room, m, marks, id.0 as int, t.words.last());
    } else {
        lemma_plain_constant(program, id.0 as int);
        if constant is Float {
            lemma_float_shown(program.constants@, id.0 as int);
        }
    }
    lemma_put(
        program,
        types,
        m,
        by,
        crate::frame::kinds::pushes(program, inst),
        word,
        constant is Str,
        n,
    );
    crate::frame::typed::lemma_straight(program, types, entry, room, m, marks, n);
}

/// A constant that is no text is a word of its kind.
proof fn lemma_plain_constant(program: Program, id: int)
    ensures
        program.constants@[id] matches Const::Bool(_) ==> crate::frame::layout::word_of(
            program.constants@[id],
        ) <= 1,
{
}

/// A float the program names shows as something.
proof fn lemma_float_shown(constants: Seq<Const>, id: int)
    requires
        0 <= id < constants.len(),
        constants[id] is Float,
    ensures
        crate::frame::machine::float_shown(constants, constants[id]->bits) is Some,
    decreases id,
{
    if id > 0 {
        lemma_float_shown(constants.skip(1), id - 1);
    }
}

/// A text the program names stands as an object, which crosses.
proof fn lemma_text_constant(
    program: Program,
    types: Types,
    entry: FunctionId,
    room: int,
    m: Machine,
    marks: Seq<Mark>,
    id: int,
    ty: Ty,
)
    requires
        crate::frame::typed::ready(program, types, entry, room, m, marks),
        0 <= id < program.constants@.len(),
        program.constants@[id] is Str,
        crate::frame::rules::admits(types, ty, crate::frame::machine::text_plan()),
    ensures
        ({
            let word = crate::frame::machine::const_handle(program.constants@, id) as u64;
            &&& crate::frame::typing::fits(program, types, m.objects, word, ty)
            &&& crate::frame::typing::kind_holds(program, m.objects, Kind::Str, word, true)
        }),
{
    crate::frame::typed::lemma_rules(program, types, entry, room, m, marks);
    let text = program.constants@[id]->Str_0@;
    assert(vstd::utf8::encode_utf8(text).len() <= u64::MAX) by {
        reveal(crate::frame::typed::ready);
        reveal(crate::frame::rules::well_typed);
    }
    let word = crate::frame::machine::const_handle(program.constants@, id) as u64;
    lemma_text_stands(program, types, m.objects, word, text, ty);
}

/// A text that stands as an object crosses, and is of a type that admits it.
pub proof fn lemma_text_stands(
    program: Program,
    types: Types,
    objects: Map<u64, Object>,
    word: u64,
    text: Seq<char>,
    ty: Ty,
)
    requires
        objects.dom().contains(word),
        objects[word] == (Object {
            plan: crate::frame::machine::text_plan(),
            words: crate::frame::packing::packed(vstd::utf8::encode_utf8(text)),
        }),
        vstd::utf8::encode_utf8(text).len() <= u64::MAX,
    ensures
        crate::frame::rules::admits(types, ty, crate::frame::machine::text_plan())
            ==> crate::frame::typing::fits(program, types, objects, word, ty),
        crate::frame::typing::kind_holds(program, objects, Kind::Str, word, true),
        crate::frame::machine::datum_at(program, objects, word) == Some(Datum::Str(text)),
{
    let bytes = vstd::utf8::encode_utf8(text);
    crate::frame::packing::packing_loses_nothing(bytes);
    vstd::utf8::encode_utf8_decode_utf8(text);
    vstd::utf8::encode_utf8_valid_utf8(text);
    let words = crate::frame::packing::packed(bytes);
    assert(words[0] == bytes.len());
    assert(crate::frame::machine::packs_text(words));
}

// -------------------------------------------------------------- objects

/// An object made out of words of the types its sort lists is of a type that
/// lists the sort.
pub proof fn lemma_makes(
    program: Program,
    types: Types,
    m: Machine,
    plan: Plan,
    words: Seq<u64>,
    ty: Ty,
)
    requires
        crate::frame::typing::objects_stand(program, m),
        m.next < u64::MAX,
        crate::frame::rules::sorts_stand(types),
        !(plan.form is Text),
        crate::frame::rules::admits(types, ty, plan),
        words.len() == plan.refs.len(),
        ty is Object ==> forall|i: int|
            0 <= i < words.len() ==> crate::frame::typing::fits(
                program,
                types,
                m.objects,
                words[i],
                #[trigger] crate::frame::rules::sort(types, ty, plan)[i],
            ),
    ensures
        crate::frame::typing::later(m.objects, m.making(plan, words).objects),
        crate::frame::typing::fits(
            program,
            types,
            m.making(plan, words).objects,
            m.next as u64,
            ty,
        ),
{
    let after = m.making(plan, words).objects;
    let handle = m.next as u64;
    assert(crate::frame::typing::later(m.objects, after));
    if ty is Object {
        let tys = types.sorts(ty->Object_0)[plan];
        assert(crate::frame::rules::sort_stands(tys, plan));
        assert forall|i: int|
            #![trigger tys[i]]
            0 <= i < tys.len() implies if tys[i] is Object {
            words[i] < handle && crate::frame::typing::fits(program, types, after, words[i], tys[i])
        } else {
            crate::frame::typing::plain_fits(program, words[i], tys[i])
        } by {
            assert(crate::frame::rules::sort(types, ty, plan)[i] == tys[i]);
            crate::frame::typing::lemma_fits_later(
                program,
                types,
                m.objects,
                after,
                words[i],
                tys[i],
            );
            if tys[i] is Object {
                assert(m.objects.dom().contains(words[i]));
            }
        }
    }
}

/// The objects stand once one more is made.
pub proof fn lemma_one_more(program: Program, m: Machine, plan: Plan, words: Seq<u64>, n: Machine)
    requires
        crate::frame::typing::objects_stand(program, m),
        m.next < u64::MAX,
        n.objects == m.making(plan, words).objects,
        n.next == m.next + 1,
    ensures
        crate::frame::typing::objects_stand(program, n),
        crate::frame::typing::later(m.objects, n.objects),
{
    assert forall|id: int|
        0 <= id < program.constants@.len() && #[trigger] program.constants@[id] is Str implies {
        let handle = crate::frame::machine::const_handle(program.constants@, id);
        let text = program.constants@[id]->Str_0@;
        &&& 0 <= handle <= u64::MAX
        &&& n.objects.dom().contains(handle as u64)
        &&& n.objects[handle as u64] == (Object {
            plan: crate::frame::machine::text_plan(),
            words: crate::frame::packing::packed(vstd::utf8::encode_utf8(text)),
        })
    } by {
        let handle = crate::frame::machine::const_handle(program.constants@, id);
        assert(m.objects.dom().contains(handle as u64));
    }
}

/// The words an object is built out of are of the types its sort lists.
#[verifier::spinoff_prover]
proof fn lemma_built_words(
    program: Program,
    types: Types,
    entry: FunctionId,
    room: int,
    m: Machine,
    marks: Seq<Mark>,
    plan: Plan,
    ty: Ty,
)
    requires
        crate::frame::typed::ready(program, types, entry, room, m, marks),
        crate::frame::rules::makes(
            types,
            types.stand(m.frames.last().function, m.pc),
            plan,
            ty,
        ),
    ensures
        m.matches_plan(plan.refs),
        ty is Object ==> forall|i: int|
            0 <= i < plan.refs.len() ==> crate::frame::typing::fits(
                program,
                types,
                m.objects,
                m.words.skip(m.words.len() - plan.refs.len())[i],
                #[trigger] crate::frame::rules::sort(types, ty, plan)[i],
            ),
{
    crate::frame::typed::lemma_rules(program, types, entry, room, m, marks);
    let width = plan.refs.len() as int;
    let s = types.stand(m.frames.last().function, m.pc);
    let n0 = s.words.len() as int;
    let from = crate::frame::balance::operands_from(program, m.frames.last());
    assert forall|i: int| 0 <= i < width implies #[trigger] plan.refs[i] == m.refs[m.refs.len()
        - width + i] by {
        crate::frame::typed::lemma_operand(
            program,
            types,
            entry,
            room,
            m,
            marks,
            n0 - width + i,
        );
    }
    if ty is Object {
        assert forall|i: int| 0 <= i < width implies crate::frame::typing::fits(
            program,
            types,
            m.objects,
            m.words.skip(m.words.len() - width)[i],
            #[trigger] crate::frame::rules::sort(types, ty, plan)[i],
        ) by {
            crate::frame::typed::lemma_operand(
                program,
                types,
                entry,
                room,
                m,
                marks,
                n0 - width + i,
            );
            let word = m.words[from + n0 - width + i];
            assert(m.words.skip(m.words.len() - width)[i] == word);
            lemma_plainly(
                program,
                types,
                m.objects,
                word,
                s.words[n0 - width + i],
                crate::frame::rules::sort(types, ty, plan)[i],
            );
        }
    }
}

/// A word taken for itself.
proof fn lemma_plainly(
    program: Program,
    types: Types,
    objects: Map<u64, Object>,
    word: u64,
    a: Ty,
    b: Ty,
)
    requires
        crate::frame::typing::fits(program, types, objects, word, a),
        crate::frame::typing::within(types, crate::frame::typing::plain(a), b),
    ensures
        crate::frame::typing::fits(program, types, objects, word, b),
{
    crate::frame::typing::lemma_within(
        program,
        types,
        objects,
        word,
        crate::frame::typing::plain(a),
        b,
    );
}

/// An object built out of the words on top.
#[verifier::spinoff_prover]
pub proof fn lemma_builds(
    program: Program,
    types: Types,
    entry: FunctionId,
    room: int,
    m: Machine,
    marks: Seq<Mark>,
    plan: Plan,
    fuel: int,
)
    requires
        crate::frame::typed::ready(program, types, entry, room, m, marks),
        m.next < u64::MAX,
        crate::frame::machine::step(program, m) == crate::frame::machine::build(m, plan, fuel),
        ({
            let function = crate::frame::machine::running(program, m);
            let inst = function.code@[m.pc];
            let width = plan.refs.len() as int;
            let s = types.stand(m.frames.last().function, m.pc);
            let t = types.stand(m.frames.last().function, m.pc + 1);
            let words = m.words.skip(m.words.len() - width);
            let put = crate::frame::kinds::pushes(program, inst);
            &&& !(inst is Dup)
            &&& crate::frame::rules::slot_written(inst) is None
            &&& crate::frame::balance::move_of(program, function, m.pc) == Some(
                crate::frame::balance::moves(width, width, Out::Value),
            )
            &&& crate::frame::rules::makes(types, s, plan, t.words.last())
            &&& put is Some ==> crate::frame::typing::kind_holds(
                program,
                m.making(plan, words).objects,
                put->0,
                m.next as u64,
                true,
            )
        }),
    ensures
        stepped_well(program, types, room, m, marks, crate::frame::machine::step(program, m)),
{
    crate::frame::typed::lemma_rules(program, types, entry, room, m, marks);
    crate::frame::typed::lemma_moves(program, types, entry, room, m, marks);
    let function = crate::frame::machine::running(program, m);
    let inst = function.code@[m.pc];
    let width = plan.refs.len() as int;
    let s = types.stand(m.frames.last().function, m.pc);
    let t = types.stand(m.frames.last().function, m.pc + 1);
    let ty = t.words.last();
    let words = m.words.skip(m.words.len() - width);
    lemma_built_words(program, types, entry, room, m, marks, plan, ty);
    lemma_makes(program, types, m, plan, words, ty);
    let n = m.dropped(width).making(plan, words).push(m.next as u64, true).fuelled(
        fuel,
    ).advanced();
    assert(crate::frame::machine::step(program, m) == Outcome::Next(n));
    assert(n.objects == m.making(plan, words).objects);
    lemma_one_more(program, m, plan, words, n);
    lemma_put(
        program,
        types,
        m,
        crate::frame::balance::moves(width, width, Out::Value),
        crate::frame::kinds::pushes(program, inst),
        m.next as u64,
        true,
        n,
    );
    crate::frame::typed::lemma_straight(program, types, entry, room, m, marks, n);
}

#[verifier::spinoff_prover]
proof fn lemma_structs(
    program: Program,
    types: Types,
    entry: FunctionId,
    room: int,
    m: Machine,
    marks: Seq<Mark>,
)
    requires
        crate::frame::typed::ready(program, types, entry, room, m, marks),
        m.next < u64::MAX,
        ({
            let inst = crate::frame::machine::running(program, m).code@[m.pc];
            inst is MakeStruct || inst is MakeEnum
        }),
    ensures
        stepped_well(program, types, room, m, marks, crate::frame::machine::step(program, m)),
{
    crate::frame::typed::lemma_rules(program, types, entry, room, m, marks);
    crate::frame::typed::lemma_moves(program, types, entry, room, m, marks);
    lemma_typed_at(program, types, entry, room, m, marks);
    let function = crate::frame::machine::running(program, m);
    match function.code@[m.pc] {
        Inst::MakeStruct(of) => {
            let declared = program.structs@[of.0 as int];
            let plan = crate::frame::machine::struct_plan(declared);
            assert(plan.refs.len() == declared.fields@.len());
            lemma_builds(
                program,
                types,
                entry,
                room,
                m,
                marks,
                plan,
                declared.fields@.len() as int,
            );
        },
        Inst::MakeEnum { ty, named, argc } => {
            crate::frame::truth::lemma_declared_width(program, ty, named, argc as int);
            let site = crate::frame::layout::construction(
                program,
                crate::frame::machine::standing(program, function),
                m.pc,
                function.code@[m.pc],
            )->0;
            let plan = crate::frame::machine::site_plan(site);
            assert(plan.refs.len() == argc);
            lemma_builds(
                program,
                types,
                entry,
                room,
                m,
                marks,
                plan,
                site.payload.len() as int,
            );
        },
        _ => {},
    }
}

/// A word of an object a typed handle names.
proof fn lemma_field(
    program: Program,
    types: Types,
    objects: Map<u64, Object>,
    word: u64,
    of: Ty,
    at: int,
    expected: Option<bool>,
    is_bool: bool,
    ty: Ty,
)
    requires
        crate::frame::rules::sorts_stand(types),
        crate::frame::typing::fits(program, types, objects, word, of),
        crate::frame::rules::reads(types, of, at, expected, is_bool, ty),
    ensures
        objects.dom().contains(word),
        0 <= at < objects[word].words.len(),
        expected is Some ==> objects[word].is_ref(at) == expected->0,
        objects[word].is_ref(at) == crate::frame::typing::refers(ty),
        crate::frame::typing::fits(program, types, objects, objects[word].words[at], ty),
        is_bool ==> objects[word].words[at] <= 1,
        !(ty is Tests),
{
    let object = objects[word];
    let plan = object.plan;
    let tys = types.sorts(of->Object_0)[plan];
    assert(types.sorts(of->Object_0).dom().contains(plan));
    assert(crate::frame::rules::sort_stands(tys, plan));
    assert(!(tys[at] is Tests));
    assert(crate::frame::rules::sort(types, of, plan)[at] == tys[at]);
    assert(crate::frame::typing::fits(program, types, objects, object.words[at], tys[at]));
    crate::frame::typing::lemma_within(program, types, objects, object.words[at], tys[at], ty);
}

#[verifier::spinoff_prover]
proof fn lemma_reads(
    program: Program,
    types: Types,
    entry: FunctionId,
    room: int,
    m: Machine,
    marks: Seq<Mark>,
)
    requires
        crate::frame::typed::ready(program, types, entry, room, m, marks),
        ({
            let inst = crate::frame::machine::running(program, m).code@[m.pc];
            inst is GetFieldAt || inst is GetFieldAtScalar || inst is GetPayload
        }),
    ensures
        stepped_well(program, types, room, m, marks, crate::frame::machine::step(program, m)),
{
    crate::frame::typed::lemma_rules(program, types, entry, room, m, marks);
    crate::frame::typed::lemma_moves(program, types, entry, room, m, marks);
    lemma_typed_at(program, types, entry, room, m, marks);
    let function = crate::frame::machine::running(program, m);
    let inst = function.code@[m.pc];
    let s = types.stand(m.frames.last().function, m.pc);
    let t = types.stand(m.frames.last().function, m.pc + 1);
    let by = crate::frame::balance::move_of(program, function, m.pc)->0;
    crate::frame::typed::lemma_operand(program, types, entry, room, m, marks, s.words.len() - 1);
    let expected = expected_at(program, inst);
    let at = match inst {
        Inst::GetFieldAt { of: _, at } => at as int,
        Inst::GetFieldAtScalar(at) => at as int,
        Inst::GetPayload { case: _, at } => at as int,
        _ => 0,
    };
    let is_bool = !(inst is GetFieldAtScalar) && crate::frame::rules::pushes_bool(program, inst);
    lemma_field(
        program,
        types,
        m.objects,
        m.top(),
        s.words.last(),
        at,
        expected,
        is_bool,
        t.words.last(),
    );
    let object = m.objects[m.top()];
    let n = m.dropped(by.words).push(object.words[at], object.is_ref(at)).advanced();
    lemma_read_shape(program, m, at, n);
    lemma_read_kind(program, inst, object, at);
    lemma_put(
        program,
        types,
        m,
        by,
        crate::frame::kinds::pushes(program, inst),
        object.words[at],
        object.is_ref(at),
        n,
    );
    crate::frame::typed::lemma_straight(program, types, entry, room, m, marks, n);
}

/// What a read expects of the word it reads.
pub open spec fn expected_at(program: Program, inst: Inst) -> Option<bool> {
    match inst {
        Inst::GetFieldAt { of, at } => crate::frame::machine::field_is_ref(program, of, at as int),
        Inst::GetFieldAtScalar(_) => Some(false),
        Inst::GetPayload { case, at } => match case {
            Some(pair) => crate::frame::machine::payload_is_ref(
                program,
                pair.0,
                pair.1 as int,
                at as int,
            ),
            None => None,
        },
        _ => None,
    }
}

proof fn lemma_read_shape(program: Program, m: Machine, at: int, n: Machine)
    requires
        m.frames.len() > 0,
        m.pending is Nothing,
        0 <= m.pc < crate::frame::machine::running(program, m).code@.len(),
        m.refs.len() == m.words.len(),
        crate::frame::machine::top_object(m) is Some,
        ({
            let inst = crate::frame::machine::running(program, m).code@[m.pc];
            let object = m.objects[m.top()];
            let expected = expected_at(program, inst);
            &&& inst matches Inst::GetFieldAt { of: _, at: a } ==> a == at && expected is Some
                && n == m.dropped(1).push(object.words[at], object.is_ref(at)).advanced()
            &&& inst matches Inst::GetFieldAtScalar(a) ==> a == at && n == m.dropped(1).push(
                object.words[at],
                object.is_ref(at),
            ).advanced()
            &&& inst matches Inst::GetPayload { case, at: a } ==> a == at && (case is Some
                ==> expected is Some) && n == m.dropped(0).push(
                object.words[at],
                object.is_ref(at),
            ).advanced()
            &&& inst is GetFieldAt || inst is GetFieldAtScalar || inst is GetPayload
            &&& 0 <= at < object.words.len()
            &&& expected is Some ==> object.is_ref(at) == expected->0
        }),
    ensures
        crate::frame::machine::step(program, m) == Outcome::Next(n),
        n.frames == m.frames,
        n.objects == m.objects,
        n.next == m.next,
{
    assert(m.words.take(m.words.len() as int) =~= m.words);
    assert(m.refs.take(m.refs.len() as int) =~= m.refs);
}

proof fn lemma_read_kind(program: Program, inst: Inst, object: Object, at: int)
    requires
        inst is GetFieldAt || inst is GetFieldAtScalar || inst is GetPayload,
        expected_at(program, inst) is Some ==> object.is_ref(at) == expected_at(program, inst)->0,
        !(inst is GetFieldAtScalar) && crate::frame::rules::pushes_bool(program, inst)
            ==> object.words[at] <= 1,
        inst matches Inst::GetFieldAt { of, at: a } ==> a == at && program.has_struct(of),
        inst matches Inst::GetPayload { case, at: a } ==> a == at,
        crate::frame::layout::keeps_no_place(program),
    ensures
        !(inst is GetFieldAtScalar) && crate::frame::kinds::pushes(program, inst) is Some
            ==> forall|objects: Map<u64, Object>| #[trigger]
            crate::frame::typing::kind_holds(
                program,
                objects,
                crate::frame::kinds::pushes(program, inst)->0,
                object.words[at],
                object.is_ref(at),
            ),
{
}

#[verifier::spinoff_prover]
proof fn lemma_tests(
    program: Program,
    types: Types,
    entry: FunctionId,
    room: int,
    m: Machine,
    marks: Seq<Mark>,
)
    requires
        crate::frame::typed::ready(program, types, entry, room, m, marks),
        crate::frame::machine::running(program, m).code@[m.pc] is TestCase,
    ensures
        stepped_well(program, types, room, m, marks, crate::frame::machine::step(program, m)),
{
    crate::frame::typed::lemma_rules(program, types, entry, room, m, marks);
    crate::frame::typed::lemma_moves(program, types, entry, room, m, marks);
    lemma_typed_at(program, types, entry, room, m, marks);
    let function = crate::frame::machine::running(program, m);
    let inst = function.code@[m.pc];
    let s = types.stand(m.frames.last().function, m.pc);
    let t = types.stand(m.frames.last().function, m.pc + 1);
    let by = crate::frame::balance::move_of(program, function, m.pc)->0;
    crate::frame::typed::lemma_operand(program, types, entry, room, m, marks, s.words.len() - 1);
    let name = program.name_text(inst->TestCase_0);
    let object = m.objects[m.top()];
    let yes = crate::frame::typing::plan_is(object.plan, name);
    let word = crate::frame::word::bool_word(yes);
    let n = m.push(word, false).advanced();
    assert(crate::frame::machine::step(program, m) == Outcome::Next(n));
    assert(m.words.take(m.words.len() as int) =~= m.words);
    assert(m.refs.take(m.refs.len() as int) =~= m.refs);
    if t.words.last() is Tests {
        assert(t.words[t.words.len() - 1] is Tests);
    }
    lemma_put(
        program,
        types,
        m,
        by,
        crate::frame::kinds::pushes(program, inst),
        word,
        false,
        n,
    );
    crate::frame::typed::lemma_straight(program, types, entry, room, m, marks, n);
}

#[verifier::spinoff_prover]
proof fn lemma_comparisons(
    program: Program,
    types: Types,
    entry: FunctionId,
    room: int,
    m: Machine,
    marks: Seq<Mark>,
)
    requires
        crate::frame::typed::ready(program, types, entry, room, m, marks),
        crate::frame::machine::running(program, m).code@[m.pc] is Binary,
    ensures
        stepped_well(program, types, room, m, marks, crate::frame::machine::step(program, m)),
{
    crate::frame::typed::lemma_rules(program, types, entry, room, m, marks);
    crate::frame::typed::lemma_moves(program, types, entry, room, m, marks);
    lemma_typed_at(program, types, entry, room, m, marks);
    let function = crate::frame::machine::running(program, m);
    let inst = function.code@[m.pc];
    let s = types.stand(m.frames.last().function, m.pc);
    let by = crate::frame::balance::moves(2, 2, Out::Value);
    let n0 = s.words.len() as int;
    crate::frame::typed::lemma_operand(program, types, entry, room, m, marks, n0 - 1);
    crate::frame::typed::lemma_operand(program, types, entry, room, m, marks, n0 - 2);
    let a = m.words[m.words.len() - 2];
    lemma_is_text(program, types, m.objects, a, s.words[n0 - 2]);
    lemma_is_text(program, types, m.objects, m.top(), s.words[n0 - 1]);
    if let Outcome::Next(n) = crate::frame::machine::step(program, m) {
        let word = n.words.last();
        lemma_put(
            program,
            types,
            m,
            by,
            crate::frame::kinds::pushes(program, inst),
            word,
            false,
            n,
        );
        crate::frame::typed::lemma_straight(program, types, entry, room, m, marks, n);
    }
}

/// A handle that may name texts only names one.
proof fn lemma_is_text(
    program: Program,
    types: Types,
    objects: Map<u64, Object>,
    word: u64,
    of: Ty,
)
    requires
        crate::frame::typing::fits(program, types, objects, word, of),
        crate::frame::rules::is_text(types, of),
    ensures
        crate::frame::machine::bytes_at(objects, word) is Some,
{
    assert(types.sorts(of->Object_0).dom().contains(objects[word].plan));
}

/// A step over words comes to good order.
pub proof fn lemma_over_words(
    program: Program,
    types: Types,
    entry: FunctionId,
    room: int,
    m: Machine,
    marks: Seq<Mark>,
)
    requires
        crate::frame::typed::ready(program, types, entry, room, m, marks),
        crate::frame::rules::over_words(crate::frame::machine::running(program, m).code@[m.pc]),
    ensures
        stepped_well(program, types, room, m, marks, crate::frame::machine::step(program, m)),
{
    let inst = crate::frame::machine::running(program, m).code@[m.pc];
    if inst is LoadScalar || inst is LoadLocal || inst is ScalarConst {
        lemma_loads(program, types, entry, room, m, marks);
    } else if inst is StoreScalar || inst is StoreLocal || inst is ScalarPop {
        lemma_stores(program, types, entry, room, m, marks);
    } else if inst is ScalarToValue || inst is ValueToScalar {
        lemma_converts(program, types, entry, room, m, marks);
    } else if inst is Dup {
        lemma_copies(program, types, entry, room, m, marks);
    } else if inst is IntBinary {
        lemma_computes(program, types, entry, room, m, marks);
    } else {
        lemma_constants(program, types, entry, room, m, marks);
    }
}

/// A step that makes an object of what it takes, or looks at one, comes to good
/// order.
pub proof fn lemma_over_objects(
    program: Program,
    types: Types,
    entry: FunctionId,
    room: int,
    m: Machine,
    marks: Seq<Mark>,
)
    requires
        crate::frame::typed::ready(program, types, entry, room, m, marks),
        m.next < u64::MAX,
        ({
            let inst = crate::frame::machine::running(program, m).code@[m.pc];
            inst is MakeStruct || inst is MakeEnum || inst is GetFieldAt || inst is GetFieldAtScalar
                || inst is GetPayload || inst is TestCase || inst is Binary
        }),
    ensures
        stepped_well(program, types, room, m, marks, crate::frame::machine::step(program, m)),
{
    let inst = crate::frame::machine::running(program, m).code@[m.pc];
    if inst is MakeStruct || inst is MakeEnum {
        lemma_structs(program, types, entry, room, m, marks);
    } else if inst is TestCase {
        lemma_tests(program, types, entry, room, m, marks);
    } else if inst is Binary {
        lemma_comparisons(program, types, entry, room, m, marks);
    } else {
        lemma_reads(program, types, entry, room, m, marks);
    }
}

} // verus!
