//! The rules by which the words of a program are typed.
use crate::frame::balance::{Data, Move, Out, Stand, Ty, Types};
use crate::frame::kinds::{Kind, Part};
use crate::frame::layout::Site;
use crate::frame::machine::MAX_CALL_DEPTH;
use crate::ir::{Const, Function, FunctionId, Inst, IntOp, Program, Scalar, SlotKind};
use crate::schema::HostType;
use crate::slot::{Form, Plan};
use vstd::prelude::*;

verus! {

/// The slots are marked as handles where they hold one, and a test stands over
/// the object it tested.
pub open spec fn stands_well(program: Program, id: FunctionId, s: Stand) -> bool {
    let slots = program.func(id).slots@;
    &&& s.locals.len() == slots.len()
    &&& forall|i: int|
        0 <= i < slots.len() ==> crate::frame::typing::refers(#[trigger] s.locals[i]) == (
        slots[i] is Value)
    &&& forall|p: int|
        0 <= p < s.words.len() && (#[trigger] s.words[p]) is Tests ==> p > 0 && s.words[p - 1] is Object
}

/// The sorts of objects are what their plans say.
pub open spec fn sorts_stand(types: Types) -> bool {
    forall|id: int, plan: Plan| #[trigger]
        types.sorts(id).dom().contains(plan) && !(plan.form is Text) ==> sort_stands(
            types.sorts(id)[plan],
            plan,
        )
}

pub open spec fn sort_stands(tys: Seq<Ty>, plan: Plan) -> bool {
    &&& tys.len() == plan.refs.len()
    &&& forall|i: int|
        0 <= i < tys.len() ==> !((#[trigger] tys[i]) is Tests) && crate::frame::typing::refers(tys[i])
            == plan.refs[i]
}

/// A handle of this type may name an object of this sort.
pub open spec fn admits(types: Types, ty: Ty, plan: Plan) -> bool {
    ty is Unset || (ty is Object && types.sorts(ty->Object_0).dom().contains(plan))
}

/// What the words of such an object are.
pub open spec fn sort(types: Types, ty: Ty, plan: Plan) -> Seq<Ty> {
    types.sorts(ty->Object_0)[plan]
}

/// The word is of this type, which is that of a scalar.
pub open spec fn is_scalar(program: Program, word: u64, ty: Ty) -> bool {
    !crate::frame::typing::refers(ty) && !(ty is Tests) && crate::frame::typing::plain_fits(
        program,
        word,
        ty,
    )
}

/// A `Bool`, whichever way it came about.
pub open spec fn is_bool(ty: Ty) -> bool {
    ty is Bool || ty is Tests
}

/// An operator that answers a `Bool`.
pub open spec fn compares(op: IntOp) -> bool {
    op is Eq || op is Ne || op is Lt || op is Le || op is Gt || op is Ge
}

/// A word goes into a slot, or into a field, that is a handle or is none.
pub open spec fn put_as(handle: bool, ty: Ty) -> Ty {
    if handle {
        crate::frame::typing::plain(ty)
    } else {
        crate::frame::typing::scalar(ty)
    }
}

/// What a function answers that answers a scalar.
pub open spec fn result_ty(function: Function) -> Ty {
    if function.returns == SlotKind::Scalar(Scalar::Bool) {
        Ty::Bool
    } else {
        Ty::Word
    }
}

// ----------------------------------------------------------------- flow

/// What stays on the stack and over the boundary is what it is where control
/// goes on. A test that was answered tells of the object below it.
#[verifier::opaque]
pub open spec fn flows(
    types: Types,
    s: Stand,
    by: Move,
    t: Stand,
    test: Option<(Seq<char>, bool)>,
) -> bool {
    let top = s.words.len() - by.words;
    &&& forall|p: int|
        0 <= p < top ==> if test is Some && p == top - 1 {
            crate::frame::typing::narrowed(
                types,
                s.words[p],
                #[trigger] t.words[p],
                (test->0).0,
                (test->0).1,
            )
        } else {
            crate::frame::typing::within(types, s.words[p], t.words[p])
        }
    &&& forall|i: int|
        0 <= i < s.kept.len() - by.kept ==> crate::frame::typing::data_sub(
            s.kept[i],
            #[trigger] t.kept[i],
        )
}

/// The slots are what they are where control goes on, but for one.
#[verifier::opaque]
pub open spec fn keeps_slots(types: Types, s: Stand, t: Stand, slot: Option<int>) -> bool {
    forall|i: int|
        0 <= i < s.locals.len() && slot != Some(i) ==> crate::frame::typing::within(
            types,
            s.locals[i],
            #[trigger] t.locals[i],
        )
}

/// All that stays is what it is where control goes on.
pub open spec fn passes(types: Types, s: Stand, by: Move, t: Stand) -> bool {
    flows(types, s, by, t, None) && keeps_slots(types, s, t, None)
}

/// The test a branch answers, where it goes one way.
pub open spec fn tested(s: Stand, yes: bool) -> Option<(Seq<char>, bool)> {
    if s.words.last() is Tests {
        Some((s.words.last()->Tests_0, yes))
    } else {
        None
    }
}

/// A branch goes on either way.
pub open spec fn branch_typed(
    types: Types,
    id: FunctionId,
    pc: int,
    to: int,
    values: int,
    when_zero: bool,
) -> bool {
    let s = types.stand(id, pc);
    let by = crate::frame::balance::moves(values, 1, Out::Nothing);
    &&& flows(types, s, by, types.stand(id, to), tested(s, !when_zero))
    &&& keeps_slots(types, s, types.stand(id, to), None)
    &&& flows(types, s, by, types.stand(id, pc + 1), tested(s, when_zero))
    &&& keeps_slots(types, s, types.stand(id, pc + 1), None)
}

// ------------------------------------------------------------- objects

/// The words on top make an object of this sort, under a handle of this type.
pub open spec fn makes(types: Types, s: Stand, plan: Plan, ty: Ty) -> bool {
    let width = plan.refs.len();
    let n = s.words.len();
    &&& !(plan.form is Text)
    &&& width <= n
    &&& admits(types, ty, plan)
    &&& forall|i: int|
        0 <= i < width ==> crate::frame::typing::refers(s.words[n - width + i])
            == #[trigger] plan.refs[i]
    &&& ty is Object ==> forall|i: int|
        0 <= i < width ==> crate::frame::typing::within(
            types,
            crate::frame::typing::plain(s.words[n - width + i]),
            #[trigger] sort(types, ty, plan)[i],
        )
}

/// Every object such a handle may name has a word there, which is of this type.
pub open spec fn reads(types: Types, of: Ty, at: int, expected: Option<bool>, is_bool: bool, ty: Ty) -> bool {
    &&& of is Object
    &&& forall|plan: Plan| #[trigger]
        types.sorts(of->Object_0).dom().contains(plan) ==> {
            &&& !(plan.form is Text)
            &&& 0 <= at < plan.refs.len()
            &&& expected matches Some(is_ref) ==> plan.refs[at] == is_ref
            &&& crate::frame::typing::within(types, sort(types, of, plan)[at], ty)
            &&& is_bool ==> sort(types, of, plan)[at] is Bool
        }
}

/// Every object such a handle may name is a text.
pub open spec fn is_text(types: Types, of: Ty) -> bool {
    of is Object && forall|plan: Plan| #[trigger]
        types.sorts(of->Object_0).dom().contains(plan) ==> plan.form is Text
}

/// Every object the first handle may name, with one word changed, is one the
/// second may name.
pub open spec fn changes(types: Types, of: Ty, at: int, put: Ty, ty: Ty) -> bool {
    &&& of is Object
    &&& forall|plan: Plan| #[trigger]
        types.sorts(of->Object_0).dom().contains(plan) ==> {
            let before = sort(types, of, plan);
            let after = sort(types, ty, plan);
            &&& !(plan.form is Text)
            &&& 0 <= at < plan.refs.len()
            &&& plan.refs[at] ==> crate::frame::typing::refers(put)
            &&& admits(types, ty, plan)
            &&& ty is Object ==> crate::frame::typing::within(
                types,
                put_as(plan.refs[at], put),
                after[at],
            )
            &&& ty is Object ==> forall|i: int|
                0 <= i < before.len() && i != at ==> crate::frame::typing::within(
                    types,
                    before[i],
                    #[trigger] after[i],
                )
        }
}

/// What a `?` opens of the value such a handle names, where it opens it.
pub open spec fn opens_as(types: Types, of: Ty, data: Data) -> bool {
    &&& of is Object
    &&& data is Any || data is Int || data is Bool
    &&& forall|plan: Plan| #[trigger]
        types.sorts(of->Object_0).dom().contains(plan) ==> (plan.form matches Form::Case {
            kind_name: _,
            case: _,
            payload,
        } ==> payload.len() == 1 ==> (data is Int ==> payload[0] == Part::Int) && (data is Bool
            ==> payload[0] == Part::Bool))
}

/// A host's answer of a declared type is of this type.
pub open spec fn host_fits(types: Types, declared: HostType, ty: Ty) -> bool
    decreases declared,
{
    match declared {
        HostType::Unit => ty is Word,
        HostType::Int => ty is Word,
        HostType::Bool => ty is Word || ty is Bool,
        HostType::String => admits(types, ty, crate::frame::machine::text_plan()),
        HostType::Error => {
            let plan = crate::frame::machine::error_plan();
            admits(types, ty, plan) && (ty is Object ==> admits(
                types,
                sort(types, ty, plan)[0],
                crate::frame::machine::text_plan(),
            ))
        },
        HostType::Option(inner) => {
            let none = none_plan();
            let some = case_plan("Option"@, "Some"@, *inner);
            &&& admits(types, ty, none)
            &&& admits(types, ty, some)
            &&& ty is Object ==> host_fits(types, *inner, sort(types, ty, some)[0])
        },
        HostType::Result(ok, err) => {
            let good = case_plan("Result"@, "Ok"@, *ok);
            let bad = case_plan("Result"@, "Err"@, *err);
            &&& admits(types, ty, good)
            &&& admits(types, ty, bad)
            &&& ty is Object ==> host_fits(types, *ok, sort(types, ty, good)[0])
            &&& ty is Object ==> host_fits(types, *err, sort(types, ty, bad)[0])
        },
        _ => false,
    }
}

pub open spec fn none_plan() -> Plan {
    crate::frame::machine::site_plan(
        Site { kind_name: "Option"@, case: "None"@, payload: Seq::empty() },
    )
}

pub open spec fn case_plan(kind_name: Seq<char>, case: Seq<char>, held: HostType) -> Plan {
    crate::frame::machine::site_plan(
        Site { kind_name, case, payload: seq![crate::frame::kinds::host_word(held)->0] },
    )
}

// ---------------------------------------------------------- instructions

/// A declared field is a `Bool`.
pub open spec fn pushes_bool(program: Program, inst: Inst) -> bool {
    crate::frame::kinds::pushes(program, inst) == Some(Kind::Bool)
}

/// The operands of an instruction over words are of the types it needs, and so
/// is what it leaves.
pub open spec fn word_typed(program: Program, types: Types, id: FunctionId, pc: int) -> bool {
    let function = program.func(id);
    let s = types.stand(id, pc);
    let t = types.stand(id, pc + 1);
    let top = t.words.last();
    let inst = function.code@[pc];
    match inst {
        Inst::ScalarConst(value) => is_scalar(
            program,
            crate::frame::word::int_word(value as int) as u64,
            top,
        ),
        Inst::LoadScalar(slot) => slot < function.slots@.len() && crate::frame::typing::within(
            types,
            crate::frame::typing::scalar(s.locals[slot as int]),
            top,
        ),
        Inst::LoadLocal(slot) => {
            &&& slot < function.slots@.len()
            &&& function.slots@[slot as int] is Value
            &&& crate::frame::typing::within(types, s.locals[slot as int], top)
        },
        Inst::StoreScalar(slot) => {
            &&& slot < function.slots@.len()
            &&& !(function.slots@[slot as int] is Value)
            &&& crate::frame::typing::within(
                types,
                put_as(false, s.words.last()),
                t.locals[slot as int],
            )
        },
        Inst::StoreLocal(slot) => {
            &&& slot < function.slots@.len()
            &&& crate::frame::typing::within(
                types,
                put_as(function.slots@[slot as int] is Value, s.words.last()),
                t.locals[slot as int],
            )
        },
        Inst::ScalarPop => true,
        Inst::IntBinary(op) => top is Word || (top is Bool && compares(op)),
        Inst::Dup => crate::frame::typing::within(
            types,
            crate::frame::typing::plain(s.words.last()),
            top,
        ),
        Inst::ScalarToValue(scalar) => {
            &&& !crate::frame::typing::refers(s.words.last())
            &&& scalar == Scalar::Bool ==> is_bool(s.words.last())
        },
        Inst::ValueToScalar => !crate::frame::typing::refers(s.words.last()),
        Inst::Const(of) => match program.constants@[of.0 as int] {
            Const::Str(_) => admits(types, top, crate::frame::machine::text_plan()),
            constant => is_scalar(program, crate::frame::layout::word_of(constant), top),
        },
        _ => false,
    }
}

/// The operands of an instruction over objects are of the types it needs, and
/// so is what it leaves.
pub open spec fn object_typed(program: Program, types: Types, id: FunctionId, pc: int) -> bool {
    let function = program.func(id);
    let s = types.stand(id, pc);
    let n = s.words.len() as int;
    let top = types.stand(id, pc + 1).words.last();
    let inst = function.code@[pc];
    let built = crate::frame::layout::construction(
        program,
        crate::frame::machine::standing(program, function),
        pc,
        inst,
    );
    match inst {
        Inst::MakeStruct(of) => makes(
            types,
            s,
            crate::frame::machine::struct_plan(program.structs@[of.0 as int]),
            top,
        ),
        Inst::MakeEnum { ty: _, named: _, argc: _ } => built is Some && makes(
            types,
            s,
            crate::frame::machine::site_plan(built->0),
            top,
        ),
        Inst::MakeBuiltin { name: _, argc: _ } => built is Some ==> makes(
            types,
            s,
            crate::frame::machine::site_plan(built->0),
            top,
        ),
        Inst::SetField(name) => forall|at: int| #[trigger]
            crate::frame::layout::settles(program, program.name_text(name), at) ==> changes(
                types,
                s.words[n - 2],
                at,
                s.words[n - 1],
                top,
            ),
        Inst::GetFieldAt { of, at } => {
            &&& crate::frame::machine::field_is_ref(program, of, at as int) is Some
            &&& reads(
                types,
                s.words.last(),
                at as int,
                crate::frame::machine::field_is_ref(program, of, at as int),
                pushes_bool(program, inst),
                top,
            )
        },
        Inst::GetFieldAtScalar(at) => reads(
            types,
            s.words.last(),
            at as int,
            Some(false),
            false,
            top,
        ),
        Inst::GetPayload { case, at } => match case {
            Some(pair) => {
                let expected = crate::frame::machine::payload_is_ref(
                    program,
                    pair.0,
                    pair.1 as int,
                    at as int,
                );
                expected is Some && reads(
                    types,
                    s.words.last(),
                    at as int,
                    expected,
                    pushes_bool(program, inst),
                    top,
                )
            },
            None => reads(types, s.words.last(), at as int, None, false, top),
        },
        Inst::TestCase(name) => s.words.last() is Object && (top is Word || top is Bool || top
            == Ty::Tests(program.name_text(name))),
        Inst::Concat(_) => admits(types, top, crate::frame::machine::text_plan()),
        Inst::Binary(_) => is_text(types, s.words[n - 2]) && is_text(types, s.words[n - 1]) && (
        top is Word || top is Bool),
        Inst::CallHost { module, op, argc: _ } => crate::frame::kinds::pushes(program, inst) is Some
            ==> host_fits(
            types,
            crate::frame::kinds::host_answer(
                program,
                program.name_text(module),
                program.name_text(op),
            )->0,
            top,
        ),
        Inst::Pop => true,
        Inst::Try { payload } => try_typed(program, types, id, pc, payload),
        _ => false,
    }
}

/// What a `?` opens is what it is taken for, and what it hands back is what
/// the function answers.
pub open spec fn try_typed(program: Program, types: Types, id: FunctionId, pc: int, payload: SlotKind) -> bool {
    let function = program.func(id);
    let s = types.stand(id, pc);
    let t = types.stand(id, pc + 1);
    let opened = match payload {
        SlotKind::Scalar(Scalar::Int) => Data::Int,
        SlotKind::Scalar(Scalar::Bool) => Data::Bool,
        _ => t.kept.last(),
    };
    &&& payload == SlotKind::Scalar(Scalar::Int) ==> t.words.last() is Word
    &&& payload == SlotKind::Scalar(Scalar::Bool) ==> t.words.last() is Word
        || t.words.last() is Bool
    &&& types.answers[id] is Any || types.answers[id] is Opens
    &&& if crate::frame::balance::takes_kept(program, function, pc) {
        opened is Any || s.kept.last() == Data::Opens(Box::new(opened))
    } else {
        opened is Any || opens_as(types, s.words.last(), opened)
    }
}

/// What a function answers is what its callers take it for.
pub open spec fn return_typed(program: Program, types: Types, id: FunctionId, pc: int) -> bool {
    let function = program.func(id);
    let s = types.stand(id, pc);
    let answer = types.answers[id];
    if crate::frame::balance::takes_kept(program, function, pc) {
        crate::frame::typing::data_sub(s.kept.last(), answer)
    } else {
        answer is Any || (answer is Opens && opens_as(types, s.words.last(), *answer->Opens_0))
    }
}

/// The arguments of a call are what the slots of the function called are.
pub open spec fn call_typed(
    program: Program,
    types: Types,
    id: FunctionId,
    pc: int,
    target: FunctionId,
    by: Move,
) -> bool {
    let s = types.stand(id, pc);
    let t = types.stand(id, pc + 1);
    let begin = types.stand(target, 0);
    let callee = program.func(target);
    let top = s.words.len() - by.words;
    &&& forall|i: int|
        0 <= i < by.words ==> crate::frame::typing::within(
            types,
            put_as(callee.slots@[i] is Value, s.words[top + i]),
            #[trigger] begin.locals[i],
        )
    &&& forall|i: int|
        by.words <= i < callee.slots@.len() ==> (#[trigger] begin.locals[i] is Unset
            || begin.locals[i] is Word || begin.locals[i] is Bool)
    &&& passes(types, s, by, t)
    &&& callee.returns is Scalar ==> crate::frame::typing::within(
        types,
        result_ty(callee),
        t.words[top],
    )
    &&& !(callee.returns is Scalar) ==> crate::frame::typing::data_sub(
        types.answers[target],
        t.kept.last(),
    )
}

/// An instruction over words.
pub open spec fn over_words(inst: Inst) -> bool {
    inst is ScalarConst || inst is LoadScalar || inst is LoadLocal || inst is StoreScalar
        || inst is StoreLocal || inst is ScalarPop || inst is IntBinary || inst is Dup
        || inst is ScalarToValue || inst is ValueToScalar || inst is Const
}

/// The slot an instruction writes.
pub open spec fn slot_written(inst: Inst) -> Option<int> {
    match inst {
        Inst::StoreScalar(slot) => Some(slot as int),
        Inst::StoreLocal(slot) => Some(slot as int),
        _ => None,
    }
}

/// An instruction finds operands of the types it needs, and leaves what stands
/// where control goes on.
#[verifier::opaque]
pub open spec fn typed_at(program: Program, types: Types, id: FunctionId, pc: int) -> bool {
    let function = program.func(id);
    let s = types.stand(id, pc);
    let inst = function.code@[pc];
    match inst {
        Inst::Jump(to) => passes(
            types,
            s,
            crate::frame::balance::no_move(),
            types.stand(id, to as int),
        ),
        Inst::JumpIfFalseScalar(to) => branch_typed(types, id, pc, to as int, 0, true),
        Inst::JumpIfTrueScalar(to) => branch_typed(types, id, pc, to as int, 0, false),
        Inst::JumpIfFalse(to) => branch_typed(types, id, pc, to as int, 1, true),
        Inst::JumpIfTrue(to) => branch_typed(types, id, pc, to as int, 1, false),
        Inst::Call { function: target, scalar_argc, value_argc, place_argc: _ } => call_typed(
            program,
            types,
            id,
            pc,
            target,
            crate::frame::balance::call_move(
                program,
                target,
                scalar_argc as int,
                value_argc as int,
            ),
        ),
        Inst::Return => return_typed(program, types, id, pc),
        Inst::ReturnScalar => crate::frame::typing::within(
            types,
            put_as(false, s.words.last()),
            result_ty(function),
        ),
        _ => {
            let t = types.stand(id, pc + 1);
            &&& flows(types, s, crate::frame::balance::move_of(program, function, pc)->0, t, None)
            &&& keeps_slots(types, s, t, slot_written(inst))
            &&& if over_words(inst) {
                word_typed(program, types, id, pc)
            } else {
                object_typed(program, types, id, pc)
            }
        },
    }
}

/// Every function a run can enter is typed, and its words fit the room there
/// is for each.
#[verifier::opaque]
pub open spec fn well_typed(program: Program, types: Types, entry: FunctionId, room: int) -> bool {
    &&& sorts_stand(types)
    &&& 0 <= room
    &&& (MAX_CALL_DEPTH + 1) * room + 64 <= usize::MAX
    &&& forall|id: int|
        0 <= id < program.constants@.len() && #[trigger] program.constants@[id] is Str
            ==> vstd::utf8::encode_utf8(program.constants@[id]->Str_0@).len() <= u64::MAX
    &&& forall|id: FunctionId|
        program.has_function(id) && #[trigger] crate::frame::admission::reaches(program, entry, id)
            ==> function_typed(program, types, id, room)
}

/// A function is typed, and its words fit the room.
#[verifier::opaque]
pub open spec fn function_typed(program: Program, types: Types, id: FunctionId, room: int) -> bool {
    forall|pc: int|
        0 <= pc < program.func(id).code@.len() ==> {
            &&& #[trigger] typed_at(program, types, id, pc)
            &&& stands_well(program, id, types.stand(id, pc))
            &&& program.func(id).slots@.len() + types.stand(id, pc).words.len() <= room
        }
}

} // verus!
