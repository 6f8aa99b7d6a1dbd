//! What each instruction needs of the operands it finds to be admitted, and
//! what it leaves known of them.
use crate::frame::admission::{Reason, Refusal, Standing};
use crate::frame::kinds::{Held, Kind, Part};
use crate::ir::{BinaryOp, Const, Function, FunctionId, Inst, Program, Scalar, SlotKind};
use crate::schema::HostType;
use vstd::prelude::*;

verus! {

/// A comparison of two handles is admitted whichever of the two is a text for
/// certain, and only then; one over a word that is no handle never is.
pub proof fn a_comparison_is_admitted_whichever_side_is_a_text(
    program: Program,
    function: Function,
    at: Standing,
    pc: int,
    op: BinaryOp,
    below: Seq<Held>,
    left: Kind,
    right: Kind,
)
    requires
        function.code@[pc] == Inst::Binary(op),
        0 <= pc < at.len(),
        at[pc] == Some(below.push(Some(left)).push(Some(right))),
    ensures
        crate::frame::admission::reasons(program, function, at, pc).len() == 0 <==> {
            &&& op is Eq || op is Ne || op is Lt || op is Le || op is Gt || op is Ge
            &&& left is Str || right is Str
            &&& left is Str || left is Enum || left is Reference
            &&& right is Str || right is Enum || right is Reference
        },
{
    let stack = below.push(Some(left)).push(Some(right));
    let n = stack.len() as int;
    assert(stack[n - 2] == Some(left) && stack[n - 1] == Some(right));
    assert forall|i: int| n - 2 <= i < n implies #[trigger] stack[i] is Some by {}
}

/// A comparison is refused where one of its operands is not known, or is not
/// there.
pub proof fn a_comparison_of_what_is_not_known_is_refused(
    program: Program,
    function: Function,
    at: Standing,
    pc: int,
    op: BinaryOp,
)
    requires
        function.code@[pc] == Inst::Binary(op),
        0 <= pc < at.len(),
        at[pc] matches Some(stack) ==> stack.len() < 2 || stack[stack.len() - 1] is None
            || stack[stack.len() - 2] is None,
    ensures
        crate::frame::admission::reasons(program, function, at, pc) == seq![
            Reason::Unsupported(Inst::Binary(op)),
        ],
{
}

/// What works on words alone is always admitted, and so is what only moves,
/// copies or reads what stands on the stack.
pub proof fn what_works_on_words_is_always_admitted(
    program: Program,
    function: Function,
    at: Standing,
    pc: int,
)
    requires
        ({
            let inst = function.code@[pc];
            ||| inst is ScalarConst
            ||| inst is LoadScalar
            ||| inst is StoreScalar
            ||| inst is ScalarPop
            ||| inst is IntBinary
            ||| inst is Jump
            ||| inst is JumpIfFalseScalar
            ||| inst is JumpIfTrueScalar
            ||| inst is ReturnScalar
            ||| inst is LoadLocal
            ||| inst is Dup
            ||| inst is ValueToScalar
            ||| inst is GetFieldAt
            ||| inst is GetFieldAtScalar
            ||| inst is ScalarToValue
            ||| inst is Pop
        }),
    ensures
        crate::frame::admission::reasons(program, function, at, pc).len() == 0,
{
}

/// What reads or keeps a handle is admitted just where a handle is on top: a
/// reference, a text or a case.
pub proof fn what_takes_a_handle_needs_one_on_top(
    program: Program,
    function: Function,
    at: Standing,
    pc: int,
    stack: Seq<Held>,
)
    requires
        0 <= pc < at.len(),
        at[pc] == Some(stack),
    ensures
        ({
            let found = crate::frame::admission::reasons(program, function, at, pc);
            let held = stack.len() > 0 && (stack.last() == Some(Kind::Reference) || stack.last()
                == Some(Kind::Str) || stack.last() == Some(Kind::Enum));
            &&& function.code@[pc] is StoreLocal ==> found == (if held {
                Seq::<Reason>::empty()
            } else {
                seq![Reason::Slot]
            })
            &&& function.code@[pc] is TestCase ==> found == (if held {
                Seq::<Reason>::empty()
            } else {
                seq![Reason::CaseTest]
            })
            &&& function.code@[pc] is GetPayload ==> found == (if held {
                Seq::<Reason>::empty()
            } else {
                seq![Reason::PayloadRead]
            })
        }),
{
    let n = stack.len() as int;
    if n > 0 {
        assert(stack[n - 1] == stack.last());
        if stack.last() is Some {
            assert forall|i: int| n - 1 <= i < n implies #[trigger] stack[i] is Some by {}
            let kinds = crate::frame::operands::kinds_at(at, pc, 1)->0;
            assert(kinds[0] == stack.last()->0);
            assert(crate::frame::admission::all_refer(at, pc, 1) <==> kinds[0].refers());
        }
    }
}

/// A branch over a value is admitted just where a `Bool` is on top.
pub proof fn a_branch_needs_a_bool_on_top(
    program: Program,
    function: Function,
    at: Standing,
    pc: int,
    stack: Seq<Held>,
)
    requires
        function.code@[pc] is JumpIfFalse || function.code@[pc] is JumpIfTrue,
        0 <= pc < at.len(),
        at[pc] == Some(stack),
    ensures
        crate::frame::admission::reasons(program, function, at, pc) == (if stack.len() > 0
            && stack.last() == Some(Kind::Bool) {
            Seq::<Reason>::empty()
        } else {
            seq![Reason::Branch]
        }),
{
    let n = stack.len() as int;
    if n > 0 && stack.last() is Some {
        assert forall|i: int| n - 1 <= i < n implies #[trigger] stack[i] is Some by {}
    }
}

/// A constant is admitted unless it is a name or a duration.
pub proof fn a_constant_is_admitted_unless_it_is_a_name_or_a_duration(
    program: Program,
    function: Function,
    at: Standing,
    pc: int,
)
    requires
        function.code@[pc] is Const,
    ensures
        ({
            let found = crate::frame::admission::reasons(program, function, at, pc);
            match program.constants@[function.code@[pc]->Const_0.0 as int] {
                Const::Name(_) => found == seq![Reason::Name],
                Const::Duration(_) => found == seq![Reason::Duration],
                Const::Unit => found.len() == 0,
                Const::Int(_) => found.len() == 0,
                Const::Bool(_) => found.len() == 0,
                Const::Float { bits: _, shown: _ } => found.len() == 0,
                Const::Str(_) => found.len() == 0,
            }
        }),
{
}

/// A builtin call and a host call are admitted just where each argument is
/// known and crosses as a value: a unit, a `Bool`, an `Int`, a `Float` or a
/// text, but no other handle. A call on a resource never is.
pub proof fn an_argument_of_a_host_crosses_as_a_value(
    program: Program,
    function: Function,
    at: Standing,
    pc: int,
    stack: Seq<Held>,
    argc: u32,
)
    requires
        0 <= pc < at.len(),
        at[pc] == Some(stack),
    ensures
        ({
            let found = crate::frame::admission::reasons(program, function, at, pc);
            let crosses = argc <= stack.len() && forall|i: int|
                stack.len() - argc <= i < stack.len() ==> {
                    ||| #[trigger] stack[i] == Some(Kind::Unit)
                    ||| stack[i] == Some(Kind::Bool)
                    ||| stack[i] == Some(Kind::Int)
                    ||| stack[i] == Some(Kind::Float)
                    ||| stack[i] == Some(Kind::Str)
                };
            &&& function.code@[pc] is MakeBuiltin && function.code@[pc]->MakeBuiltin_argc == argc
                ==> found == (if crosses {
                Seq::<Reason>::empty()
            } else {
                seq![Reason::BuiltinCall]
            })
            &&& function.code@[pc] is CallHost && function.code@[pc]->CallHost_argc == argc
                ==> found == (if crosses {
                Seq::<Reason>::empty()
            } else {
                seq![Reason::HostCall]
            })
            &&& function.code@[pc] is CallResource ==> found == seq![Reason::Resource]
        }),
{
    let n = stack.len() as int;
    let known = crate::frame::operands::kinds_at(at, pc, argc as int);
    if known is Some {
        let kinds = known->0;
        assert forall|i: int| 0 <= i < argc implies Some(#[trigger] kinds[i]) == stack[n - argc
            + i] by {
            assert(stack[n - argc + i] is Some);
        }
        if crate::frame::operands::boundary_kinds(at, pc, argc as int) is Some {
            assert forall|i: int| n - argc <= i < n implies {
                ||| #[trigger] stack[i] == Some(Kind::Unit)
                ||| stack[i] == Some(Kind::Bool)
                ||| stack[i] == Some(Kind::Int)
                ||| stack[i] == Some(Kind::Float)
                ||| stack[i] == Some(Kind::Str)
            } by {
                assert(Some(kinds[i - (n - argc)]) == stack[i]);
            }
        }
    }
}

/// A text is built just where each of its parts is known and can be shown: a
/// text, an `Int`, a `Bool` or a `Float`.
pub proof fn a_text_is_built_of_what_can_be_shown(
    program: Program,
    function: Function,
    at: Standing,
    pc: int,
    stack: Seq<Held>,
    count: u32,
)
    requires
        function.code@[pc] == Inst::Concat(count),
        0 <= pc < at.len(),
        at[pc] == Some(stack),
    ensures
        crate::frame::admission::reasons(program, function, at, pc).len() == 0 <==> {
            &&& count <= stack.len()
            &&& forall|i: int|
                stack.len() - count <= i < stack.len() ==> {
                    ||| #[trigger] stack[i] == Some(Kind::Str)
                    ||| stack[i] == Some(Kind::Int)
                    ||| stack[i] == Some(Kind::Bool)
                    ||| stack[i] == Some(Kind::Float)
                }
        },
        crate::frame::admission::reasons(program, function, at, pc).len() <= 1,
{
    let n = stack.len() as int;
    let known = crate::frame::operands::kinds_at(at, pc, count as int);
    if known is Some {
        let kinds = known->0;
        lemma_all_are_rendered(kinds);
        assert forall|i: int| 0 <= i < count implies Some(#[trigger] kinds[i]) == stack[n - count
            + i] by {
            assert(stack[n - count + i] is Some);
        }
        if crate::frame::admission::first_unrendered(kinds) is None {
            assert forall|i: int| n - count <= i < n implies {
                ||| #[trigger] stack[i] == Some(Kind::Str)
                ||| stack[i] == Some(Kind::Int)
                ||| stack[i] == Some(Kind::Bool)
                ||| stack[i] == Some(Kind::Float)
            } by {
                assert(Some(kinds[i - (n - count)]) == stack[i]);
            }
        } else {
            let i = choose|i: int|
                0 <= i < kinds.len() && !crate::frame::admission::renders(#[trigger] kinds[i]);
            assert(stack[n - count + i] == Some(kinds[i]));
        }
    }
}

proof fn lemma_all_are_rendered(kinds: Seq<Kind>)
    ensures
        crate::frame::admission::first_unrendered(kinds) is None <==> forall|i: int|
            0 <= i < kinds.len() ==> crate::frame::admission::renders(#[trigger] kinds[i]),
    decreases kinds.len(),
{
    if kinds.len() > 0 && crate::frame::admission::renders(kinds[0]) {
        let rest = kinds.skip(1);
        lemma_all_are_rendered(rest);
        assert forall|i: int|
            (forall|j: int|
                0 <= j < rest.len() ==> crate::frame::admission::renders(#[trigger] rest[j])) && 0
                <= i < kinds.len() implies crate::frame::admission::renders(#[trigger] kinds[i]) by {
            if i > 0 {
                assert(rest[i - 1] == kinds[i]);
            }
        }
        assert forall|i: int|
            (forall|j: int|
                0 <= j < kinds.len() ==> crate::frame::admission::renders(#[trigger] kinds[j])) && 0
                <= i < rest.len() implies crate::frame::admission::renders(#[trigger] rest[i]) by {
            assert(rest[i] == kinds[i + 1]);
        }
    }
}

/// A `return` and a `?` are admitted just where a text or a case is on top, or
/// where the instruction before leaves a value rather than a word: a call of a
/// function that answers no word, or a builtin call, a host call or a `?` of
/// whose answer no kind is known.
pub proof fn a_return_needs_a_value(
    program: Program,
    function: Function,
    at: Standing,
    pc: int,
    stack: Seq<Held>,
)
    requires
        0 <= pc < at.len(),
        pc < function.code@.len(),
        at[pc] == Some(stack),
    ensures
        ({
            let found = crate::frame::admission::reasons(program, function, at, pc);
            let value = {
                ||| stack.len() > 0 && (stack.last() == Some(Kind::Str) || stack.last() == Some(
                    Kind::Enum,
                ))
                ||| pc > 0 && function.code@[pc - 1] is Call && !(program.functions@[function.code@[pc
                    - 1]->Call_function.0 as int].returns is Scalar)
                ||| pc > 0 && (function.code@[pc - 1] is MakeBuiltin || function.code@[pc
                    - 1] is CallHost || function.code@[pc - 1] is Try)
                    && crate::frame::kinds::pushes(program, function.code@[pc - 1]) is None
            };
            &&& function.code@[pc] is Return ==> found == (if value {
                Seq::<Reason>::empty()
            } else {
                seq![Reason::Return]
            })
            &&& function.code@[pc] is Try ==> found == (if value {
                Seq::<Reason>::empty()
            } else {
                seq![Reason::Try]
            })
        }),
{
    let n = stack.len() as int;
    if n > 0 && stack.last() is Some {
        assert forall|i: int| n - 1 <= i < n implies #[trigger] stack[i] is Some by {}
    }
}

/// A call is admitted just where it passes no `var` argument and every value
/// argument is a handle.
pub proof fn a_call_needs_handles_for_its_value_arguments(
    program: Program,
    function: Function,
    at: Standing,
    pc: int,
    stack: Seq<Held>,
    target: FunctionId,
    scalar_argc: u32,
    value_argc: u32,
    place_argc: u32,
)
    requires
        function.code@[pc] == (Inst::Call { function: target, scalar_argc, value_argc, place_argc }),
        0 <= pc < at.len(),
        at[pc] == Some(stack),
    ensures
        crate::frame::admission::reasons(program, function, at, pc).len() == 0 <==> {
            &&& place_argc == 0
            &&& value_argc <= stack.len()
            &&& forall|i: int|
                stack.len() - value_argc <= i < stack.len() ==> {
                    ||| #[trigger] stack[i] == Some(Kind::Reference)
                    ||| stack[i] == Some(Kind::Str)
                    ||| stack[i] == Some(Kind::Enum)
                }
        },
{
    let n = stack.len() as int;
    let known = crate::frame::operands::kinds_at(at, pc, value_argc as int);
    if known is Some {
        let kinds = known->0;
        assert forall|i: int| 0 <= i < value_argc implies Some(#[trigger] kinds[i]) == stack[n
            - value_argc + i] by {
            assert(stack[n - value_argc + i] is Some);
        }
        if crate::frame::admission::all_refer(at, pc, value_argc as int) {
            assert forall|i: int| n - value_argc <= i < n implies {
                ||| #[trigger] stack[i] == Some(Kind::Reference)
                ||| stack[i] == Some(Kind::Str)
                ||| stack[i] == Some(Kind::Enum)
            } by {
                assert(kinds[i - (n - value_argc)].refers());
            }
        } else {
            let i = choose|i: int| 0 <= i < kinds.len() && !(#[trigger] kinds[i]).refers();
            assert(stack[n - value_argc + i] == Some(kinds[i]));
        }
    }
}

/// The words on top are what declared slots are: an `Int` for an `Int`, a
/// `Bool` for a `Bool`, and a handle for anything else.
proof fn lemma_parts_stand(
    at: Standing,
    pc: int,
    stack: Seq<Held>,
    slots: Seq<SlotKind>,
    parts: Seq<Part>,
)
    requires
        0 <= pc < at.len(),
        at[pc] == Some(stack),
        parts == Seq::new(slots.len(), |i: int| crate::frame::layout::part_of(slots[i])),
    ensures
        crate::frame::admission::parts_stand(at, pc, parts) <==> {
            &&& slots.len() <= stack.len()
            &&& forall|i: int|
                0 <= i < slots.len() ==> match #[trigger] slots[i] {
                    SlotKind::Scalar(Scalar::Int) => stack[stack.len() - slots.len() + i] == Some(
                        Kind::Int,
                    ),
                    SlotKind::Scalar(Scalar::Bool) => stack[stack.len() - slots.len() + i] == Some(
                        Kind::Bool,
                    ),
                    _ => {
                        let held = stack[stack.len() - slots.len() + i];
                        held == Some(Kind::Reference) || held == Some(Kind::Str) || held == Some(
                            Kind::Enum,
                        )
                    },
                }
        },
{
    let n = stack.len() as int;
    let w = slots.len() as int;
    let known = crate::frame::operands::kinds_at(at, pc, w);
    if known is Some {
        let kinds = known->0;
        assert forall|i: int| 0 <= i < w implies Some(#[trigger] kinds[i]) == stack[n - w + i] by {
            assert(stack[n - w + i] is Some);
        }
        if crate::frame::admission::parts_stand(at, pc, parts) {
            assert forall|i: int| 0 <= i < w implies match #[trigger] slots[i] {
                SlotKind::Scalar(Scalar::Int) => stack[n - w + i] == Some(Kind::Int),
                SlotKind::Scalar(Scalar::Bool) => stack[n - w + i] == Some(Kind::Bool),
                _ => {
                    let held = stack[n - w + i];
                    held == Some(Kind::Reference) || held == Some(Kind::Str) || held == Some(
                        Kind::Enum,
                    )
                },
            } by {
                assert(kinds[i].as_part() == parts[i]);
            }
        } else {
            let i = choose|i: int|
                0 <= i < kinds.len() && (#[trigger] kinds[i]).as_part() != parts[i];
            assert(parts[i] == crate::frame::layout::part_of(slots[i]));
            assert(stack[n - w + i] == Some(kinds[i]));
        }
    } else if w <= n {
        let k = choose|k: int| n - w <= k < n && !(#[trigger] stack[k] is Some);
        let i = k - (n - w);
        assert(parts[i] == crate::frame::layout::part_of(slots[i]));
        assert(stack[n - w + i] is None);
    }
}

/// A struct is built just where each word on top is what its field is: an `Int`
/// for an `Int`, a `Bool` for a `Bool`, and a handle for anything else.
pub proof fn a_struct_is_built_of_what_its_fields_are(
    program: Program,
    function: Function,
    at: Standing,
    pc: int,
    stack: Seq<Held>,
)
    requires
        function.code@[pc] is MakeStruct,
        0 <= pc < at.len(),
        at[pc] == Some(stack),
    ensures
        ({
            let fields = program.structs@[function.code@[pc]->MakeStruct_0.0 as int].fields@;
            crate::frame::admission::reasons(program, function, at, pc).len() == 0 <==> {
                &&& fields.len() <= stack.len()
                &&& forall|i: int|
                    0 <= i < fields.len() ==> match (#[trigger] fields[i]).kind {
                        SlotKind::Scalar(Scalar::Int) => stack[stack.len() - fields.len() + i]
                            == Some(Kind::Int),
                        SlotKind::Scalar(Scalar::Bool) => stack[stack.len() - fields.len() + i]
                            == Some(Kind::Bool),
                        _ => {
                            let held = stack[stack.len() - fields.len() + i];
                            held == Some(Kind::Reference) || held == Some(Kind::Str) || held
                                == Some(Kind::Enum)
                        },
                    }
            }
        }),
{
    let declared = program.structs@[function.code@[pc]->MakeStruct_0.0 as int];
    let fields = declared.fields@;
    let slots = Seq::new(fields.len(), |i: int| fields[i].kind);
    let parts = crate::frame::layout::parts_of(declared);
    assert(parts =~= Seq::new(slots.len(), |i: int| crate::frame::layout::part_of(slots[i])));
    lemma_parts_stand(at, pc, stack, slots, parts);
    if crate::frame::admission::parts_stand(at, pc, parts) {
        assert forall|i: int| 0 <= i < fields.len() implies slots[i] == (#[trigger] fields[i]).kind by {}
    } else if fields.len() <= stack.len() {
        assert forall|i: int| 0 <= i < slots.len() implies fields[i].kind == #[trigger] slots[i] by {}
    }
}

/// A case is built just where the enum so called has the case, the case takes
/// that many words, and each word on top is what the payload is there.
pub proof fn a_case_is_built_of_what_its_payload_is(
    program: Program,
    function: Function,
    at: Standing,
    pc: int,
    stack: Seq<Held>,
    t: int,
    c: int,
)
    requires
        function.code@[pc] is MakeEnum,
        0 <= pc < at.len(),
        at[pc] == Some(stack),
        0 <= t < program.enums@.len(),
        program.enums@[t].name@ == program.name_text(function.code@[pc]->MakeEnum_ty),
        forall|u: int|
            0 <= u < t ==> #[trigger] program.enums@[u].name@ != program.name_text(
                function.code@[pc]->MakeEnum_ty,
            ),
        0 <= c < program.enums@[t].cases@.len(),
        program.enums@[t].cases@[c].name@ == program.name_text(
            function.code@[pc]->MakeEnum_named,
        ),
        forall|d: int|
            0 <= d < c ==> #[trigger] program.enums@[t].cases@[d].name@ != program.name_text(
                function.code@[pc]->MakeEnum_named,
            ),
    ensures
        ({
            let payload = program.enums@[t].cases@[c].payload@;
            crate::frame::admission::reasons(program, function, at, pc).len() == 0 <==> {
                &&& payload.len() == function.code@[pc]->MakeEnum_argc
                &&& payload.len() <= stack.len()
                &&& forall|i: int|
                    0 <= i < payload.len() ==> match #[trigger] payload[i] {
                        SlotKind::Scalar(Scalar::Int) => stack[stack.len() - payload.len() + i]
                            == Some(Kind::Int),
                        SlotKind::Scalar(Scalar::Bool) => stack[stack.len() - payload.len() + i]
                            == Some(Kind::Bool),
                        _ => {
                            let held = stack[stack.len() - payload.len() + i];
                            held == Some(Kind::Reference) || held == Some(Kind::Str) || held
                                == Some(Kind::Enum)
                        },
                    }
            }
        }),
{
    let inst = function.code@[pc];
    let ty = program.name_text(inst->MakeEnum_ty);
    let named = program.name_text(inst->MakeEnum_named);
    let payload = program.enums@[t].cases@[c].payload@;
    let parts = crate::frame::layout::payload_parts(payload);
    assert(crate::frame::layout::declared_at(program, ty, named, t, c));
    if exists|u: int, d: int| #[trigger]
        crate::frame::layout::declared_at(program, ty, named, u, d)
            && program.enums@[u].cases@[d].payload@.len() == inst->MakeEnum_argc {
        let (u, d) = choose|u: int, d: int| #[trigger]
            crate::frame::layout::declared_at(program, ty, named, u, d)
                && program.enums@[u].cases@[d].payload@.len() == inst->MakeEnum_argc;
        crate::frame::layout::lemma_declared_once(program, ty, named, t, c, u, d);
        let (v, e) = choose|u: int, d: int| #[trigger]
            crate::frame::layout::declared_at(program, ty, named, u, d);
        crate::frame::layout::lemma_declared_once(program, ty, named, t, c, v, e);
    }
    lemma_parts_stand(at, pc, stack, payload, parts);
}

/// A case that no enum declares is refused.
pub proof fn a_case_that_is_not_declared_is_refused(
    program: Program,
    function: Function,
    at: Standing,
    pc: int,
)
    requires
        function.code@[pc] is MakeEnum,
        forall|t: int, c: int|
            0 <= t < program.enums@.len() && 0 <= c < program.enums@[t].cases@.len()
                && program.enums@[t].name@ == program.name_text(function.code@[pc]->MakeEnum_ty)
                ==> (#[trigger] program.enums@[t].cases@[c]).name@ != program.name_text(
                function.code@[pc]->MakeEnum_named,
            ),
    ensures
        crate::frame::admission::reasons(program, function, at, pc) == seq![Reason::Payload],
{
    let inst = function.code@[pc];
    let ty = program.name_text(inst->MakeEnum_ty);
    let named = program.name_text(inst->MakeEnum_named);
    assert forall|t: int, c: int| !#[trigger] crate::frame::layout::declared_at(
        program,
        ty,
        named,
        t,
        c,
    ) by {
        if crate::frame::layout::declared_at(program, ty, named, t, c) {
            assert(program.enums@[t].cases@[c].name@ == named);
        }
    }
}

/// A write to a field is admitted where some struct has a field so called and
/// every struct that has one has it at the same place.
pub proof fn a_field_is_written_where_it_stands_at_one_place(
    program: Program,
    function: Function,
    at: Standing,
    pc: int,
    of: int,
    place: int,
)
    requires
        function.code@[pc] is SetField,
        0 <= of < program.structs@.len(),
        0 <= place < program.structs@[of].fields@.len(),
        program.structs@[of].fields@[place].name@ == program.name_text(
            function.code@[pc]->SetField_0,
        ),
        forall|s: int, j: int|
            0 <= s < program.structs@.len() && 0 <= j < program.structs@[s].fields@.len()
                && (#[trigger] program.structs@[s].fields@[j]).name@ == program.name_text(
                function.code@[pc]->SetField_0,
            ) ==> j == place,
    ensures
        crate::frame::admission::reasons(program, function, at, pc).len() == 0,
{
    let name = program.name_text(function.code@[pc]->SetField_0);
    assert(crate::frame::layout::has_field(program, name, of, place)) by {
        assert forall|j: int| 0 <= j < place implies (#[trigger] program.structs@[of].fields@[j]).name@
            != name by {}
    }
    assert(crate::frame::layout::settles(program, name, place));
}

/// A write to a field is refused where no struct has one so called, and where
/// two have it at different places.
pub proof fn a_field_at_two_places_is_not_written(
    program: Program,
    function: Function,
    at: Standing,
    pc: int,
    s: int,
    i: int,
    t: int,
    j: int,
)
    requires
        function.code@[pc] is SetField,
        ({
            let name = program.name_text(function.code@[pc]->SetField_0);
            ||| forall|u: int, k: int|
                0 <= u < program.structs@.len() && 0 <= k < program.structs@[u].fields@.len()
                    ==> (#[trigger] program.structs@[u].fields@[k]).name@ != name
            ||| {
                &&& 0 <= s < program.structs@.len()
                &&& 0 <= i < program.structs@[s].fields@.len()
                &&& program.structs@[s].fields@[i].name@ == name
                &&& forall|k: int|
                    0 <= k < i ==> (#[trigger] program.structs@[s].fields@[k]).name@ != name
                &&& 0 <= t < program.structs@.len()
                &&& 0 <= j < program.structs@[t].fields@.len()
                &&& program.structs@[t].fields@[j].name@ == name
                &&& forall|k: int|
                    0 <= k < j ==> (#[trigger] program.structs@[t].fields@[k]).name@ != name
                &&& i != j
            }
        }),
    ensures
        crate::frame::admission::reasons(program, function, at, pc) == seq![
            Reason::Field(function.code@[pc]->SetField_0),
        ],
{
    let name = program.name_text(function.code@[pc]->SetField_0);
    if exists|place: int| crate::frame::layout::settles(program, name, place) {
        let place = choose|place: int| crate::frame::layout::settles(program, name, place);
        let u = choose|u: int| crate::frame::layout::has_field(program, name, u, place);
        assert(program.structs@[u].fields@[place].name@ == name);
        assert(crate::frame::layout::has_field(program, name, s, i));
        assert(crate::frame::layout::has_field(program, name, t, j));
    }
}

/// What is none of these is refused, whatever the operands are.
pub proof fn everything_else_is_refused(
    program: Program,
    function: Function,
    at: Standing,
    pc: int,
)
    requires
        ({
            let inst = function.code@[pc];
            ||| inst is GetField
            ||| inst is MakeHostEnum
            ||| inst is NoMatch
            ||| inst is Unary
            ||| inst matches Inst::Binary(op) && (op is Add || op is Sub || op is Mul || op is Div
                || op is Rem || op is Is)
            ||| inst is MakeClosure
            ||| inst is CallValue
            ||| inst is MakeDyn
            ||| inst is CallDyn
            ||| inst is CallBuiltin
            ||| inst is CallBuiltinAssoc
            ||| inst is MakeArray
            ||| inst is MakeRange
            ||| inst is IterItems
            ||| inst is SpreadArgument
            ||| inst is PlaceLocal
            ||| inst is PlaceScalar
            ||| inst is LoadPlace
            ||| inst is PlaceField
            ||| inst is PlacePop
            ||| inst is PlaceRead
            ||| inst is PlaceWrite
            ||| inst is Freeze
            ||| inst is EnterScope
            ||| inst is LeaveScope
            ||| inst is CancelScope
            ||| inst is Spawn
            ||| inst is Await
            ||| inst is Cancel
            ||| inst is Lock
            ||| inst is Snapshot
        }),
    ensures
        crate::frame::admission::reasons(program, function, at, pc) == seq![
            Reason::Unsupported(function.code@[pc]),
        ],
{
}

/// A function's shape is refused nothing just when it is no closure, answers no
/// task, keeps no place and takes none.
pub proof fn a_plain_function_has_a_shape_that_is_admitted(function: Function)
    ensures
        crate::frame::admission::shape_reasons(function).len() == 0 <==> {
            &&& function.place_frame_size == 0
            &&& function.captures == 0
            &&& !function.answers_a_task
            &&& forall|i: int| 0 <= i < function.params@.len() ==> !(#[trigger] function.params@[i]
                == SlotKind::Place)
        },
{
    if forall|i: int| 0 <= i < function.params@.len() ==> !(#[trigger] function.params@[i]
        == SlotKind::Place) {
        assert forall|i: int| 0 <= i < function.params@.len() implies !((
        #[trigger] function.params@[i]) is Place) by {}
    }
}

/// A function is refused nothing just when none of its instructions is and its
/// shape is not.
pub proof fn a_function_is_admitted_when_all_of_it_is(program: Program, function: Function)
    ensures
        crate::frame::admission::refusals_in(program, function).len() == 0 <==> {
            &&& crate::frame::admission::shape_reasons(function).len() == 0
            &&& forall|pc: int|
                0 <= pc < function.code@.len() ==> #[trigger] crate::frame::admission::reasons(
                    program,
                    function,
                    crate::frame::operands::operands_of(program, function),
                    pc,
                ).len() == 0
        },
{
    let at = crate::frame::operands::operands_of(program, function);
    lemma_what_the_first_are_refused(program, function, at, function.code@.len() as int);
}

proof fn lemma_what_the_first_are_refused(
    program: Program,
    function: Function,
    at: Standing,
    count: int,
)
    ensures
        crate::frame::admission::refusals_before(program, function, at, count).len() == 0
            <==> forall|pc: int|
            0 <= pc < count ==> #[trigger] crate::frame::admission::reasons(
                program,
                function,
                at,
                pc,
            ).len() == 0,
    decreases count,
{
    if count > 0 {
        lemma_what_the_first_are_refused(program, function, at, count - 1);
        let last = crate::frame::admission::reasons(program, function, at, count - 1);
    }
}

/// Every reason an instruction is refused for is told, in its words and with
/// the place the instruction stands at; and so is every reason of the shape,
/// with the place of the function.
pub proof fn every_reason_is_told_where_it_stands(
    program: Program,
    function: Function,
    pc: int,
    k: int,
)
    ensures
        ({
            let found = crate::frame::admission::reasons(
                program,
                function,
                crate::frame::operands::operands_of(program, function),
                pc,
            );
            0 <= pc < function.code@.len() && 0 <= k < found.len()
                ==> crate::frame::admission::refusals_in(program, function).contains(
                Refusal {
                    what: crate::frame::admission::worded(program, function, found[k]),
                    span: Some(function.spot(pc)),
                },
            )
        }),
        ({
            let found = crate::frame::admission::shape_reasons(function);
            0 <= k < found.len() ==> crate::frame::admission::refusals_in(
                program,
                function,
            ).contains(
                Refusal {
                    what: crate::frame::admission::worded(program, function, found[k]),
                    span: Some(function.span),
                },
            )
        }),
{
    let at = crate::frame::operands::operands_of(program, function);
    let n = function.code@.len() as int;
    let all = crate::frame::admission::refusals_in(program, function);
    let first = crate::frame::admission::refusals_before(program, function, at, n);
    let found = crate::frame::admission::reasons(program, function, at, pc);
    if 0 <= pc < n && 0 <= k < found.len() {
        let i = lemma_a_reason_is_told(program, function, at, n, pc, k);
        assert(all[i] == first[i]);
    }
    let shape = crate::frame::admission::shape_reasons(function);
    if 0 <= k < shape.len() {
        let told = Refusal {
            what: crate::frame::admission::worded(program, function, shape[k]),
            span: Some(function.span),
        };
        assert(all[first.len() + k] == told);
    }
}

proof fn lemma_a_reason_is_told(
    program: Program,
    function: Function,
    at: Standing,
    count: int,
    pc: int,
    k: int,
) -> (i: int)
    requires
        0 <= pc < count,
        0 <= k < crate::frame::admission::reasons(program, function, at, pc).len(),
    ensures
        0 <= i < crate::frame::admission::refusals_before(program, function, at, count).len(),
        crate::frame::admission::refusals_before(program, function, at, count)[i] == (Refusal {
            what: crate::frame::admission::worded(
                program,
                function,
                crate::frame::admission::reasons(program, function, at, pc)[k],
            ),
            span: Some(function.spot(pc)),
        }),
    decreases count,
{
    let before = crate::frame::admission::refusals_before(program, function, at, count - 1);
    if pc == count - 1 {
        before.len() + k
    } else {
        lemma_a_reason_is_told(program, function, at, count - 1, pc, k)
    }
}

/// What a slot holds is known as an operand: an `Int`, a `Bool`, or a handle.
pub proof fn what_a_slot_holds_is_known()
    ensures
        crate::frame::kinds::slot_pushes(SlotKind::Scalar(Scalar::Int)) == Some(Kind::Int),
        crate::frame::kinds::slot_pushes(SlotKind::Scalar(Scalar::Bool)) == Some(Kind::Bool),
        crate::frame::kinds::slot_pushes(SlotKind::Value) == Some(Kind::Reference),
{
}

/// An instruction that works on words alone leaves the operands as they were.
pub proof fn what_works_on_words_leaves_the_operands(
    program: Program,
    inst: Inst,
    stack: Seq<Held>,
)
    requires
        inst is ScalarConst || inst is LoadScalar || inst is StoreScalar || inst is ScalarPop
            || inst is IntBinary || inst is Jump || inst is JumpIfFalseScalar
            || inst is JumpIfTrueScalar || inst is ReturnScalar,
    ensures
        crate::frame::operands::after(program, inst, stack) == stack,
{
    reveal(crate::frame::operands::after);
    assert(stack.take(stack.len() as int) =~= stack);
}

/// What is pushed is known: a constant by its type, a scalar by its kind, what
/// a slot holds as a handle, what a case test answers as a `Bool`, and what a
/// payload holds as the case declares it.
pub proof fn what_is_pushed_is_known(program: Program, inst: Inst, stack: Seq<Held>)
    ensures
        inst is Const ==> crate::frame::operands::after(program, inst, stack) == stack.push(
            match program.constants@[inst->Const_0.0 as int] {
                Const::Unit => Some(Kind::Unit),
                Const::Int(_) => Some(Kind::Int),
                Const::Bool(_) => Some(Kind::Bool),
                Const::Float { bits: _, shown: _ } => Some(Kind::Float),
                Const::Str(_) => Some(Kind::Str),
                Const::Name(_) => None,
                Const::Duration(_) => None,
            },
        ),
        inst == Inst::ScalarToValue(Scalar::Int) ==> crate::frame::operands::after(
            program,
            inst,
            stack,
        ) == stack.push(Some(Kind::Int)),
        inst == Inst::ScalarToValue(Scalar::Bool) ==> crate::frame::operands::after(
            program,
            inst,
            stack,
        ) == stack.push(Some(Kind::Bool)),
        inst is LoadLocal ==> crate::frame::operands::after(program, inst, stack) == stack.push(
            Some(Kind::Reference),
        ),
        inst is TestCase ==> crate::frame::operands::after(program, inst, stack) == stack.push(
            Some(Kind::Bool),
        ),
        inst matches Inst::GetPayload { case: Some(pair), at } ==> pair.1
            < program.enums@[pair.0.0 as int].cases@.len() && at
            < program.enums@[pair.0.0 as int].cases@[pair.1 as int].payload@.len()
            ==> crate::frame::operands::after(program, inst, stack) == stack.push(
            match program.enums@[pair.0.0 as int].cases@[pair.1 as int].payload@[at as int] {
                SlotKind::Scalar(Scalar::Int) => Some(Kind::Int),
                SlotKind::Scalar(Scalar::Bool) => Some(Kind::Bool),
                SlotKind::Value => Some(Kind::Reference),
                SlotKind::Place => None,
            },
        ),
{
    reveal(crate::frame::operands::after);
    assert(stack.take(stack.len() as int) =~= stack);
    let now = crate::frame::operands::after(program, inst, stack);
    let put = crate::frame::kinds::pushes(program, inst);
    if inst is Const || inst is ScalarToValue || inst is LoadLocal || inst is TestCase
        || inst is GetPayload {
        assert(now =~= stack.push(put));
    }
}

/// What takes the operand on top takes that one alone: a copy leaves it twice,
/// a field read leaves what the field is, and a `?` over a case whose payload
/// is a scalar leaves the scalar.
pub proof fn what_takes_the_top_takes_it_alone(program: Program, inst: Inst, stack: Seq<Held>)
    requires
        stack.len() > 0,
    ensures
        inst is Pop || inst is StoreLocal || inst is ValueToScalar || inst is GetFieldAtScalar
            || inst is JumpIfFalse || inst is JumpIfTrue || inst is Return
            ==> crate::frame::operands::after(program, inst, stack) == stack.drop_last(),
        inst is Dup ==> crate::frame::operands::after(program, inst, stack) == stack.push(
            stack.last(),
        ),
        inst matches Inst::GetFieldAt { of, at } ==> at
            < program.structs@[of.0 as int].fields@.len() ==> crate::frame::operands::after(
            program,
            inst,
            stack,
        ) == stack.drop_last().push(
            match program.structs@[of.0 as int].fields@[at as int].kind {
                SlotKind::Scalar(Scalar::Int) => Some(Kind::Int),
                SlotKind::Scalar(Scalar::Bool) => Some(Kind::Bool),
                SlotKind::Value => Some(Kind::Reference),
                SlotKind::Place => None,
            },
        ),
        inst matches Inst::Try { payload } ==> crate::frame::operands::after(program, inst, stack)
            == stack.drop_last().push(
            match payload {
                SlotKind::Scalar(Scalar::Int) => Some(Kind::Int),
                SlotKind::Scalar(Scalar::Bool) => Some(Kind::Bool),
                _ => None,
            },
        ),
{
    reveal(crate::frame::operands::after);
    assert(stack.take(stack.len() - 1) =~= stack.drop_last());
    let now = crate::frame::operands::after(program, inst, stack);
    let put = crate::frame::kinds::pushes(program, inst);
    if inst is Dup {
        assert(now =~= stack.push(stack.last()));
    } else if inst is GetFieldAt || inst is Try {
        assert(now =~= stack.drop_last().push(put));
    } else if inst is Pop || inst is StoreLocal || inst is ValueToScalar || inst is GetFieldAtScalar
        || inst is JumpIfFalse || inst is JumpIfTrue || inst is Return {
        assert(now =~= stack.drop_last());
    }
}

/// What builds something takes its parts and leaves one operand: a text is
/// known for one, a struct and a declared case are handles, `Ok`, `Err` and
/// `Some` of one value and `None` of none are known for cases, a comparison
/// answers a `Bool`, and a call leaves a value of no known kind, or a word
/// beside the operands.
pub proof fn what_is_built_is_known(
    program: Program,
    inst: Inst,
    below: Seq<Held>,
    parts: Seq<Held>,
)
    ensures
        inst == Inst::Concat(parts.len() as u32) && parts.len() <= u32::MAX
            ==> crate::frame::operands::after(program, inst, below + parts) == below.push(
            Some(Kind::Str),
        ),
        inst matches Inst::MakeStruct(of) ==> parts.len() == program.structs@[of.0 as int].fields@.len()
            ==> crate::frame::operands::after(program, inst, below + parts) == below.push(
            Some(Kind::Reference),
        ),
        inst matches Inst::MakeEnum { ty: _, named: _, argc } ==> parts.len() == argc
            ==> crate::frame::operands::after(program, inst, below + parts) == below.push(
            Some(Kind::Reference),
        ),
        inst is SetField && parts.len() == 2 ==> crate::frame::operands::after(
            program,
            inst,
            below + parts,
        ) == below.push(Some(Kind::Reference)),
        inst matches Inst::Binary(op) ==> parts.len() == 2 && (op is Eq || op is Ne || op is Lt
            || op is Le || op is Gt || op is Ge) ==> crate::frame::operands::after(
            program,
            inst,
            below + parts,
        ) == below.push(Some(Kind::Bool)),
        inst matches Inst::MakeBuiltin { name, argc } ==> parts.len() == argc
            ==> crate::frame::operands::after(program, inst, below + parts) == below.push(
            if argc == 1 && (program.name_text(name) == "Ok"@ || program.name_text(name) == "Err"@
                || program.name_text(name) == "Some"@) || argc == 0 && program.name_text(name)
                == "None"@ {
                Some(Kind::Enum)
            } else {
                None
            },
        ),
        inst matches Inst::Call { function, scalar_argc: _, value_argc, place_argc: _ }
            ==> parts.len() == value_argc ==> crate::frame::operands::after(
            program,
            inst,
            below + parts,
        ) == (if program.functions@[function.0 as int].returns is Scalar {
            below
        } else {
            below.push(None)
        }),
        inst matches Inst::CallHost { module: _, op: _, argc } ==> parts.len() == argc
            ==> crate::frame::operands::after(program, inst, below + parts).len() == below.len()
            + 1,
{
    reveal(crate::frame::operands::after);
    let stack = below + parts;
    assert(stack.take(stack.len() - parts.len()) =~= below);
    let now = crate::frame::operands::after(program, inst, stack);
    let (taken, left) = crate::ir::stack_effect(program, inst);
    if taken == parts.len() && left == 1 {
        assert(now =~= below.push(crate::frame::kinds::pushes(program, inst)));
    } else if taken == parts.len() && left == 0 {
        assert(now =~= below);
    }
}

/// What a host answers is known by the type its schema declares: a unit, a
/// `Bool`, an `Int` and a text for themselves, an `Error` as a handle, an
/// `Option` or a `Result` as a case where what it may hold is known too, and
/// nothing of any other.
pub proof fn what_a_host_answers_is_known_by_its_type(ty: HostType)
    ensures
        crate::frame::kinds::host_kind(ty) == (match ty {
            HostType::Unit => Some(Kind::Unit),
            HostType::Bool => Some(Kind::Bool),
            HostType::Int => Some(Kind::Int),
            HostType::String => Some(Kind::Str),
            HostType::Error => Some(Kind::Reference),
            HostType::Option(inner) => if crate::frame::kinds::host_kind(*inner) is Some {
                Some(Kind::Enum)
            } else {
                None
            },
            HostType::Result(ok, err) => if crate::frame::kinds::host_kind(*ok) is Some
                && crate::frame::kinds::host_kind(*err) is Some {
                Some(Kind::Enum)
            } else {
                None
            },
            _ => None,
        }),
{
}

/// A host call leaves what the operation so called of the module so called
/// answers, and nothing known where there is no such operation.
pub proof fn a_host_call_leaves_what_its_operation_answers(
    program: Program,
    inst: Inst,
    below: Seq<Held>,
    parts: Seq<Held>,
    m: int,
    o: int,
)
    requires
        inst is CallHost,
        parts.len() == inst->CallHost_argc,
        0 <= m < program.hosts@.len(),
        program.hosts@[m].name@ == program.name_text(inst->CallHost_module),
        forall|j: int|
            0 <= j < m ==> #[trigger] program.hosts@[j].name@ != program.name_text(
                inst->CallHost_module,
            ),
        0 <= o < program.hosts@[m].operations@.len(),
        program.hosts@[m].operations@[o].name@ == program.name_text(inst->CallHost_op),
        forall|j: int|
            0 <= j < o ==> #[trigger] program.hosts@[m].operations@[j].name@ != program.name_text(
                inst->CallHost_op,
            ),
    ensures
        crate::frame::operands::after(program, inst, below + parts) == below.push(
            crate::frame::kinds::host_kind(program.hosts@[m].operations@[o].result),
        ),
{
    let module = program.name_text(inst->CallHost_module);
    let op = program.name_text(inst->CallHost_op);
    assert(crate::frame::kinds::answers_at(program, module, op, m, o));
    let (n, p) = choose|n: int, p: int| crate::frame::kinds::answers_at(program, module, op, n, p);
    assert(n == m) by {
        if n < m {
            assert(program.hosts@[n].name@ == module);
        } else if m < n {
            assert(program.hosts@[m].name@ == module);
        }
    }
    assert(p == o) by {
        if p < o {
            assert(program.hosts@[m].operations@[p].name@ == op);
        } else if o < p {
            assert(program.hosts@[m].operations@[o].name@ == op);
        }
    }
    reveal(crate::frame::operands::after);
    let stack = below + parts;
    assert(stack.take(stack.len() - parts.len()) =~= below);
    assert(crate::frame::operands::after(program, inst, stack) =~= below.push(
        crate::frame::kinds::pushes(program, inst),
    ));
}

/// Control goes on to the next instruction and nowhere else, but for a jump,
/// which goes to its target, a branch, which may do either, and an end, which
/// goes nowhere.
pub proof fn where_control_can_go(inst: Inst, pc: int, to: int)
    ensures
        inst matches Inst::Jump(target) ==> (crate::frame::kinds::goes_to(inst, pc, to) <==> to
            == target),
        inst matches Inst::JumpIfFalse(target) ==> (crate::frame::kinds::goes_to(inst, pc, to)
            <==> to == target || to == pc + 1),
        inst matches Inst::JumpIfTrue(target) ==> (crate::frame::kinds::goes_to(inst, pc, to)
            <==> to == target || to == pc + 1),
        inst matches Inst::JumpIfFalseScalar(target) ==> (crate::frame::kinds::goes_to(inst, pc, to)
            <==> to == target || to == pc + 1),
        inst matches Inst::JumpIfTrueScalar(target) ==> (crate::frame::kinds::goes_to(inst, pc, to)
            <==> to == target || to == pc + 1),
        inst is Return || inst is ReturnScalar || inst is NoMatch ==> !crate::frame::kinds::goes_to(
            inst,
            pc,
            to,
        ),
        !(inst is Jump || inst is JumpIfFalse || inst is JumpIfTrue || inst is JumpIfFalseScalar
            || inst is JumpIfTrueScalar || inst is Return || inst is ReturnScalar
            || inst is NoMatch) ==> (crate::frame::kinds::goes_to(inst, pc, to) <==> to == pc + 1),
{
}

/// A function calls just what its calls name.
pub proof fn a_function_calls_what_its_calls_name(function: Function, target: FunctionId)
    ensures
        crate::frame::admission::calls_of(function).contains(target) <==> exists|pc: int|
            0 <= pc < function.code@.len() && (#[trigger] function.code@[pc]) is Call
                && function.code@[pc]->Call_function == target,
{
    lemma_calls_before(function, function.code@.len() as int, target);
}

proof fn lemma_calls_before(function: Function, count: int, target: FunctionId)
    requires
        count <= function.code@.len(),
    ensures
        crate::frame::admission::calls_before(function, count).contains(target) <==> exists|pc: int|
            0 <= pc < count && (#[trigger] function.code@[pc]) is Call
                && function.code@[pc]->Call_function == target,
    decreases count,
{
    if count > 0 {
        lemma_calls_before(function, count - 1, target);
        let fewer = crate::frame::admission::calls_before(function, count - 1);
        let all = crate::frame::admission::calls_before(function, count);
        if fewer.contains(target) {
            let i = choose|i: int| 0 <= i < fewer.len() && fewer[i] == target;
            assert(all[i] == target);
        }
        if all.contains(target) && !fewer.contains(target) {
            let i = choose|i: int| 0 <= i < all.len() && all[i] == target;
            if i < fewer.len() {
                assert(fewer[i] == target);
            }
            assert(function.code@[count - 1] is Call);
        }
        if function.code@[count - 1] is Call && function.code@[count - 1]->Call_function == target {
            assert(all[all.len() - 1] == target);
        }
    }
}

/// An entry is the first function of its module and name.
pub proof fn an_entry_is_the_first_function_so_called(
    program: Program,
    module: Seq<char>,
    name: Seq<char>,
    id: FunctionId,
)
    ensures
        crate::frame::admission::entry_is(program, module, name, id) <==> {
            &&& id.0 < program.functions@.len()
            &&& program.functions@[id.0 as int].module@ == module
            &&& program.functions@[id.0 as int].name@ == name
            &&& forall|j: int|
                0 <= j < id.0 ==> (#[trigger] program.functions@[j]).module@ != module
                    || program.functions@[j].name@ != name
        },
        crate::frame::admission::declares_nothing(program, module, name) <==> forall|j: int|
            0 <= j < program.functions@.len() ==> (#[trigger] program.functions@[j]).module@
                != module || program.functions@[j].name@ != name,
{
    if crate::frame::admission::declares_nothing(program, module, name) {
        assert forall|j: int| 0 <= j < program.functions@.len() implies (
        #[trigger] program.functions@[j]).module@ != module || program.functions@[j].name@ != name by {
            assert(!program.declares(module, name, j));
        }
    }
    if crate::frame::admission::entry_is(program, module, name, id) {
        assert forall|j: int| 0 <= j < id.0 implies (#[trigger] program.functions@[j]).module@
            != module || program.functions@[j].name@ != name by {
            assert(!program.declares(module, name, j));
        }
    }
}

/// What an entry itself is refused for is told before anything that what it
/// calls is refused for.
pub proof fn an_entry_is_told_of_itself_first(program: Program, entry: FunctionId)
    ensures
        crate::frame::admission::walked(program, entry).len() > 0,
        crate::frame::admission::walked(program, entry)[0] == entry,
        ({
            let own = crate::frame::admission::refusals_in(
                program,
                program.functions@[entry.0 as int],
            );
            let all = crate::frame::admission::refusals_from(program, entry);
            all.len() >= own.len() && all.take(own.len() as int) == own
        }),
{
    let order = crate::frame::admission::walked(program, entry);
    assert(seq![entry].last() == entry);
    assert(order[0] == entry);
    lemma_told_first(program, order);
}

proof fn lemma_told_first(program: Program, order: Seq<FunctionId>)
    requires
        order.len() > 0,
    ensures
        ({
            let own = crate::frame::admission::refusals_in(program, program.func(order[0]));
            let all = crate::frame::admission::refusals_along(program, order);
            all.len() >= own.len() && all.take(own.len() as int) == own
        }),
    decreases order.len(),
{
    let own = crate::frame::admission::refusals_in(program, program.func(order[0]));
    let all = crate::frame::admission::refusals_along(program, order);
    let fewer = order.drop_last();
    if order.len() == 1 {
        assert(fewer =~= Seq::empty());
        assert(all =~= own);
        assert(all.take(own.len() as int) =~= own);
    } else {
        assert(fewer[0] == order[0]);
        lemma_told_first(program, fewer);
        let before = crate::frame::admission::refusals_along(program, fewer);
        assert(all.take(own.len() as int) =~= before.take(own.len() as int));
    }
}

/// Every refusal of every function that a run from an entry can enter is told,
/// and nothing else is.
pub proof fn every_refusal_of_what_is_reached_is_told(
    program: Program,
    entry: FunctionId,
    refusal: Refusal,
)
    requires
        crate::frame::validity::valid(program),
        entry.0 < program.functions@.len(),
    ensures
        crate::frame::admission::refusals_from(program, entry).contains(refusal) <==> exists|
            id: FunctionId,
        | #[trigger]
            crate::frame::admission::reaches(program, entry, id)
                && crate::frame::admission::refusals_in(program, program.func(id)).contains(refusal),
{
    let order = crate::frame::admission::walked(program, entry);
    lemma_told_along(program, order, refusal);
    if crate::frame::admission::refusals_from(program, entry).contains(refusal) {
        let i = choose|i: int|
            0 <= i < order.len() && crate::frame::admission::refusals_in(
                program,
                program.func(#[trigger] order[i]),
            ).contains(refusal);
        crate::frame::admission::a_walk_is_what_a_run_can_enter(program, entry, order[i]);
        assert(order.contains(order[i]));
        assert(crate::frame::admission::reaches(program, entry, order[i]));
    }
    if exists|id: FunctionId| #[trigger]
        crate::frame::admission::reaches(program, entry, id)
            && crate::frame::admission::refusals_in(program, program.func(id)).contains(refusal) {
        let id = choose|id: FunctionId| #[trigger]
            crate::frame::admission::reaches(program, entry, id)
                && crate::frame::admission::refusals_in(program, program.func(id)).contains(refusal);
        crate::frame::admission::a_walk_is_what_a_run_can_enter(program, entry, id);
        let i = choose|i: int| 0 <= i < order.len() && order[i] == id;
        assert(order[i] == id);
    }
}

proof fn lemma_told_along(program: Program, order: Seq<FunctionId>, refusal: Refusal)
    ensures
        crate::frame::admission::refusals_along(program, order).contains(refusal) <==> exists|
            i: int,
        |
            0 <= i < order.len() && crate::frame::admission::refusals_in(
                program,
                program.func(#[trigger] order[i]),
            ).contains(refusal),
    decreases order.len(),
{
    if order.len() > 0 {
        let fewer = order.drop_last();
        lemma_told_along(program, fewer, refusal);
        let before = crate::frame::admission::refusals_along(program, fewer);
        let last = crate::frame::admission::refusals_in(program, program.func(order.last()));
        let all = before + last;
        if all.contains(refusal) {
            let k = choose|k: int| 0 <= k < all.len() && all[k] == refusal;
            if k < before.len() {
                assert(before[k] == refusal);
                assert(before.contains(refusal));
                let i = choose|i: int|
                    0 <= i < fewer.len() && crate::frame::admission::refusals_in(
                        program,
                        program.func(#[trigger] fewer[i]),
                    ).contains(refusal);
                assert(order[i] == fewer[i]);
            } else {
                assert(last[k - before.len()] == refusal);
                assert(order[order.len() - 1] == order.last());
            }
        }
        if before.contains(refusal) {
            let k = choose|k: int| 0 <= k < before.len() && before[k] == refusal;
            assert(all[k] == refusal);
        }
        if last.contains(refusal) {
            let k = choose|k: int| 0 <= k < last.len() && last[k] == refusal;
            assert(all[before.len() + k] == refusal);
        }
        if exists|i: int|
            0 <= i < order.len() && crate::frame::admission::refusals_in(
                program,
                program.func(#[trigger] order[i]),
            ).contains(refusal) {
            let i = choose|i: int|
                0 <= i < order.len() && crate::frame::admission::refusals_in(
                    program,
                    program.func(#[trigger] order[i]),
                ).contains(refusal);
            if i < fewer.len() {
                assert(fewer[i] == order[i]);
            }
        }
    }
}

/// One function reaches another just through a chain of calls: it reaches
/// itself, and whatever a function it reaches calls.
pub proof fn a_function_is_reached_through_calls(
    program: Program,
    a: FunctionId,
    b: FunctionId,
    c: FunctionId,
)
    ensures
        crate::frame::admission::reaches(program, a, a),
        crate::frame::admission::reaches(program, a, b) && crate::frame::admission::calls_of(
            program.functions@[b.0 as int],
        ).contains(c) ==> crate::frame::admission::reaches(program, a, c),
        crate::frame::admission::reaches(program, a, c) && a != c ==> exists|d: FunctionId| #[trigger]
            crate::frame::admission::reaches(program, a, d) && crate::frame::admission::calls_of(
                program.functions@[d.0 as int],
            ).contains(c),
{
    let alone = seq![a];
    assert(crate::frame::admission::call_chain(program, alone));
    assert(alone[0] == a && alone.last() == a);
    if crate::frame::admission::reaches(program, a, b) && crate::frame::admission::calls_of(
        program.func(b),
    ).contains(c) {
        crate::frame::admission::lemma_reaches_on(program, a, b, c);
    }
    if crate::frame::admission::reaches(program, a, c) && a != c {
        let chain = choose|chain: Seq<FunctionId>| #[trigger]
            crate::frame::admission::call_chain(program, chain) && chain[0] == a && chain.last()
                == c;
        let fewer = chain.drop_last();
        let d = fewer.last();
        assert(chain[chain.len() - 2] == d);
        assert(chain[chain.len() - 2 + 1] == c);
        assert forall|i: int| 0 <= i < fewer.len() - 1 implies crate::frame::admission::calls_of(
            program.func(#[trigger] fewer[i]),
        ).contains(fewer[i + 1]) by {
            assert(fewer[i] == chain[i] && fewer[i + 1] == chain[i + 1]);
        }
        assert(crate::frame::admission::call_chain(program, fewer));
        assert(fewer[0] == a);
        assert(crate::frame::admission::reaches(program, a, d));
    }
}

/// What is known of an operand is what every way control can come agrees on,
/// and all of that: a kind is known just where each way leaves that kind there;
/// and as many operands are known of as each way leaves.
pub proof fn what_every_way_agrees_on_is_known(
    program: Program,
    function: Function,
    at: Standing,
    pc: int,
    stack: Seq<Held>,
    i: int,
    kind: Kind,
)
    requires
        crate::frame::operands::tells(program, function, at),
        0 <= pc < at.len(),
        at[pc] == Some(stack),
        0 <= i < stack.len(),
    ensures
        at.len() == function.code@.len(),
        stack[i] == Some(kind) <==> forall|path: Seq<int>|
            crate::frame::operands::is_path(function, path) && path.last() == pc ==> (
            #[trigger] crate::frame::operands::along(program, function, path)).len() > i
                && crate::frame::operands::along(program, function, path)[i] == Some(kind),
        forall|path: Seq<int>|
            crate::frame::operands::is_path(function, path) && path.last() == pc ==> (
            #[trigger] crate::frame::operands::along(program, function, path)).len() == stack.len(),
{
    assert(crate::frame::operands::records(program, function, pc, stack));
    assert forall|path: Seq<int>|
        crate::frame::operands::is_path(function, path) && path.last() == pc implies (
    #[trigger] crate::frame::operands::along(program, function, path)).len() == stack.len() by {
        assert(crate::frame::operands::arrives(function, path, pc));
    }
    let some = choose|path: Seq<int>| crate::frame::operands::arrives(function, path, pc);
    assert(crate::frame::operands::arrives(function, some, pc));
    match stack[i] {
        Some(known) => {
            assert(crate::frame::operands::agreed(program, function, pc, i, known));
            assert forall|path: Seq<int>|
                crate::frame::operands::is_path(function, path) && path.last() == pc implies (
            #[trigger] crate::frame::operands::along(program, function, path)).len() > i
                && crate::frame::operands::along(program, function, path)[i] == Some(known) by {
                assert(crate::frame::operands::arrives(function, path, pc));
            }
            if known != kind {
                assert(crate::frame::operands::along(program, function, some)[i] == Some(known));
            }
        },
        None => {
            assert(!crate::frame::operands::agreed(program, function, pc, i, kind));
            let path = choose|path: Seq<int>|
                crate::frame::operands::arrives(function, path, pc) && !({
                    let stack = #[trigger] crate::frame::operands::along(program, function, path);
                    0 <= i < stack.len() && stack[i] == Some(kind)
                });
            assert(crate::frame::operands::is_path(function, path) && path.last() == pc);
        },
    }
}

/// A way begins at the head of a function with nothing on the stack, and each
/// step of it leaves what its instruction leaves.
pub proof fn a_way_leaves_what_each_instruction_leaves(
    program: Program,
    function: Function,
    path: Seq<int>,
    next: int,
)
    requires
        path.len() > 0,
    ensures
        crate::frame::operands::along(program, function, seq![next]) == Seq::<Held>::empty(),
        crate::frame::operands::along(program, function, path.push(next))
            == crate::frame::operands::after(
            program,
            function.code@[path.last()],
            crate::frame::operands::along(program, function, path),
        ),
        crate::frame::operands::is_path(function, path.push(next))
            <==> crate::frame::operands::is_path(function, path) && 0 <= next < function.code@.len()
            && crate::frame::kinds::goes_to(function.code@[path.last()], path.last(), next),
{
    let longer = path.push(next);
    assert(longer.drop_last() =~= path);
    assert(longer[longer.len() - 2] == path.last());
    if crate::frame::operands::is_path(function, longer) {
        assert forall|j: int| 0 <= j < path.len() implies 0 <= #[trigger] path[j]
            < function.code@.len() by {
            assert(longer[j] == path[j]);
        }
        assert forall|j: int| 0 <= j < path.len() - 1 implies crate::frame::kinds::goes_to(
            function.code@[#[trigger] path[j]],
            path[j],
            path[j + 1],
        ) by {
            assert(longer[j] == path[j] && longer[j + 1] == path[j + 1]);
        }
        assert(longer[path.len() - 1] == path.last());
        assert(longer[path.len() - 1 + 1] == next);
        assert(0 <= longer[longer.len() - 1] < function.code@.len());
        assert(longer[0] == path[0]);
    }
    if crate::frame::operands::is_path(function, path) && 0 <= next < function.code@.len()
        && crate::frame::kinds::goes_to(function.code@[path.last()], path.last(), next) {
        assert forall|j: int| 0 <= j < longer.len() - 1 implies crate::frame::kinds::goes_to(
            function.code@[#[trigger] longer[j]],
            longer[j],
            longer[j + 1],
        ) by {
            if j < path.len() - 1 {
                assert(longer[j] == path[j] && longer[j + 1] == path[j + 1]);
            } else {
                assert(longer[j] == path.last() && longer[j + 1] == next);
            }
        }
        assert forall|j: int| 0 <= j < longer.len() implies 0 <= #[trigger] longer[j]
            < function.code@.len() by {
            if j < path.len() {
                assert(longer[j] == path[j]);
            }
        }
        assert(longer[0] == path[0]);
    }
}

/// An instruction outside the subset is called by what it is for.
pub proof fn what_is_not_admitted_is_called_by_what_it_is_for(inst: Inst)
    ensures
        inst is Unary || inst is Binary ==> crate::frame::admission::described(inst)
            == "an operator over a general value"@,
        inst is MakeClosure || inst is CallValue ==> crate::frame::admission::described(inst)
            == "a closure"@,
        inst is MakeDyn || inst is CallDyn ==> crate::frame::admission::described(inst)
            == "`dyn` dispatch"@,
        inst is CallBuiltin || inst is CallBuiltinAssoc ==> crate::frame::admission::described(inst)
            == "a builtin method"@,
        inst is MakeArray || inst is MakeRange || inst is IterItems || inst is SpreadArgument
            ==> crate::frame::admission::described(inst) == "a collection"@,
        inst is Concat ==> crate::frame::admission::described(inst) == "string interpolation"@,
        inst is GetField ==> crate::frame::admission::described(inst)
            == "a struct field read by name"@,
        inst is MakeHostEnum || inst is NoMatch ==> crate::frame::admission::described(inst)
            == "an enum"@,
        inst is PlaceLocal || inst is PlaceScalar || inst is LoadPlace || inst is PlaceField
            || inst is PlacePop || inst is PlaceRead || inst is PlaceWrite || inst is Freeze
            ==> crate::frame::admission::described(inst) == "a `var` parameter"@,
        inst is EnterScope || inst is LeaveScope || inst is CancelScope || inst is Spawn
            || inst is Await || inst is Cancel || inst is Lock
            ==> crate::frame::admission::described(inst) == "a task"@,
        inst is Snapshot ==> crate::frame::admission::described(inst) == "a snapshot"@,
{
}

/// Whatever a function is refused for, it is named: its module and its name
/// stand between backquotes in what is said.
pub proof fn a_refusal_names_the_function(
    program: Program,
    function: Function,
    reason: Reason,
)
    ensures
        exists|before: Seq<char>, after: Seq<char>|
            crate::frame::admission::worded(program, function, reason) == #[trigger] (before + "`"@
                + function.module@ + "."@ + function.name@ + "`"@ + after),
{
    let name = crate::frame::admission::named(function);
    let said = crate::frame::admission::worded(program, function, reason);
    let none = Seq::<char>::empty();
    let (before, after) = match reason {
        Reason::Slot => (
            "a general value slot in "@,
            " that the 8-byte frame cannot show holds a heap object"@,
        ),
        Reason::Name => ("a name in "@, none),
        Reason::Duration => ("a `Duration` in "@, none),
        Reason::Struct(of) => (
            "building `"@ + program.structs@[of.0 as int].name@ + "` in "@,
            " out of words the 8-byte frame cannot show are what the type's fields are"@,
        ),
        Reason::Field(id) => (
            "a write to `."@ + program.name_text(id) + "` in "@,
            ", which names no field of one settled struct"@,
        ),
        Reason::Payload => (
            "building an enum in "@,
            " out of words the 8-byte frame cannot show are what the case's payload is"@,
        ),
        Reason::CaseTest => (
            "a case test in "@,
            " over something that is a word rather than a handle"@,
        ),
        Reason::PayloadRead => (
            "reading an enum's payload in "@,
            " over something that is a word rather than a handle"@,
        ),
        Reason::Branch => ("a branch in "@, " over something that is not a `Bool` word"@),
        Reason::BuiltinCall => (
            "a builtin call in "@,
            ", whose arguments the 8-byte frame cannot read as values"@,
        ),
        Reason::HostCall => (
            "a Host call in "@,
            ", whose arguments the 8-byte frame cannot read as values"@,
        ),
        Reason::Resource => (
            "a call on a host resource in "@,
            ", whose receiver ADR 0031 keeps out of every frame word"@,
        ),
        Reason::Try => ("a `?` in "@, ", over something that is a word rather than a value"@),
        Reason::Return => (
            "a `return` in "@,
            ", over something that is a word rather than a value"@,
        ),
        Reason::Interpolation(kind) => (
            "string interpolation in "@,
            " over "@ + crate::frame::admission::called(kind),
        ),
        Reason::VarArgument => ("a call in "@, " that passes a `var` argument"@),
        Reason::ValueArgument => (
            "a call in "@,
            " whose value argument the 8-byte frame cannot show is a heap object"@,
        ),
        Reason::Unsupported(inst) => (crate::frame::admission::described(inst) + " in "@, none),
        Reason::VarParameter => (none, ", which takes a `var` parameter"@),
        Reason::Closure => (none, ", which is a closure"@),
        Reason::Async => (none, ", which is `async`"@),
    };
    assert(said =~= before + "`"@ + function.module@ + "."@ + function.name@ + "`"@ + after);
}

/// The refusals of an entry are all there are, or that there is no such entry.
pub proof fn the_refusals_are_all_there_are(
    program: Program,
    module: Seq<char>,
    name: Seq<char>,
    found: Seq<Refusal>,
    entry: FunctionId,
)
    requires
        crate::frame::admission::are_the_refusals(program, module, name, found),
    ensures
        crate::frame::admission::declares_nothing(program, module, name) ==> found.len() == 1
            && found[0].span is None && found[0].what == "`"@ + module + "."@ + name
            + "`, which this package does not declare"@,
        crate::frame::admission::entry_is(program, module, name, entry) ==> found
            == crate::frame::admission::refusals_from(program, entry),
{
    if crate::frame::admission::entry_is(program, module, name, entry) {
        assert(program.declares(module, name, entry.0 as int));
        let other = choose|other: FunctionId| #[trigger]
            crate::frame::admission::entry_is(program, module, name, other) && found
                == crate::frame::admission::refusals_from(program, other);
        if other.0 < entry.0 {
            assert(!program.declares(module, name, other.0 as int));
        } else if entry.0 < other.0 {
            assert(!program.declares(module, name, entry.0 as int));
        }
        assert(other == entry);
    }
    if crate::frame::admission::declares_nothing(program, module, name) {
        assert forall|other: FunctionId| !#[trigger] crate::frame::admission::entry_is(
            program,
            module,
            name,
            other,
        ) by {
            assert(!program.declares(module, name, other.0 as int));
        }
    }
}

/// Of what a module or an operation that is not declared answers nothing is
/// known.
pub proof fn nothing_is_known_of_what_is_not_declared(
    program: Program,
    inst: Inst,
    below: Seq<Held>,
    parts: Seq<Held>,
)
    requires
        inst is CallHost,
        parts.len() == inst->CallHost_argc,
        forall|m: int, o: int|
            0 <= m < program.hosts@.len() && program.hosts@[m].name@ == program.name_text(
                inst->CallHost_module,
            ) && 0 <= o < program.hosts@[m].operations@.len() ==> (
            #[trigger] program.hosts@[m].operations@[o]).name@ != program.name_text(
                inst->CallHost_op,
            ),
    ensures
        crate::frame::operands::after(program, inst, below + parts) == below.push(None),
{
    let module = program.name_text(inst->CallHost_module);
    let op = program.name_text(inst->CallHost_op);
    if exists|m: int, o: int| crate::frame::kinds::answers_at(program, module, op, m, o) {
        let (m, o) = choose|m: int, o: int|
            crate::frame::kinds::answers_at(program, module, op, m, o);
        assert(program.hosts@[m].operations@[o].name@ == op);
    }
    reveal(crate::frame::operands::after);
    let stack = below + parts;
    assert(stack.take(stack.len() - parts.len()) =~= below);
    assert(crate::frame::operands::after(program, inst, stack) =~= below.push(None));
}

} // verus!
