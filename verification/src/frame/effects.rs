//! What each instruction does to the stack, the objects and where control is.
use crate::budget::Budget;
use crate::error::Span;
use crate::frame::kinds::{Held, Kind};
use crate::frame::machine::{Call, Machine, Outcome, Pending};
use crate::ir::{BinaryOp, Const, ConstId, Function, FunctionId, Inst, IntOp, Program, Scalar, SlotKind};
use crate::schema::HostType;
use crate::slot::Object;
use crate::value::Datum;
use vstd::prelude::*;

verus! {

/// A run waits for nothing, stands at this instruction, and marks every word of
/// its stack.
pub open spec fn stands_at(program: Program, m: Machine, inst: Inst) -> bool {
    &&& m.pending == Pending::Nothing
    &&& m.frames.len() > 0
    &&& 0 <= m.pc < program.functions@[m.frames.last().function.0 as int].code@.len()
    &&& program.functions@[m.frames.last().function.0 as int].code@[m.pc] == inst
    &&& m.words.len() == m.refs.len()
}

/// The state goes on at the next instruction with this stack, and with nothing
/// else changed but the height it ever had.
pub open spec fn goes_on_with(m: Machine, outcome: Outcome, words: Seq<u64>, refs: Seq<bool>) -> bool {
    outcome matches Outcome::Next(n) && n == (Machine {
        words,
        refs,
        pc: m.pc + 1,
        high_water: n.high_water,
        ..m
    }) && n.high_water >= m.high_water && (n.high_water == m.high_water || n.high_water
        == words.len()) && (words.len() > m.words.len() ==> n.high_water >= words.len())
}

// ------------------------------------------------------------------ words

/// An operator over integers takes the two on top, the lower one first, and
/// leaves its answer; or raises what it raises, where it stands.
pub proof fn an_operator_takes_the_two_on_top(
    program: Program,
    m: Machine,
    op: IntOp,
    below: Seq<u64>,
    a: i64,
    b: i64,
)
    requires
        stands_at(program, m, Inst::IntBinary(op)),
        m.words == below.push(crate::frame::word::int_word(a as int) as u64).push(
            crate::frame::word::int_word(b as int) as u64,
        ),
    ensures
        match crate::frame::machine::int_binary(op, a as int, b as int) {
            Ok(n) => goes_on_with(
                m,
                crate::frame::machine::step(program, m),
                below.push(crate::frame::word::int_word(n) as u64),
                m.refs.take(below.len() as int).push(false),
            ),
            Err(message) => crate::frame::machine::step(program, m) matches Outcome::Raised(n, failure)
                && failure.message == message && failure.span == Some(
                program.functions@[m.frames.last().function.0 as int].spot(m.pc),
            ) && n == (Machine { words: below, refs: m.refs.take(below.len() as int), ..m }),
        },
{
    crate::frame::word::an_int_survives_a_word(a);
    crate::frame::word::an_int_survives_a_word(b);
    let len = m.words.len() as int;
    assert(m.words[len - 2] == crate::frame::word::int_word(a as int) as u64);
    assert(m.words[len - 1] == crate::frame::word::int_word(b as int) as u64);
    assert(m.words.take(len - 2) =~= below);
    assert(m.refs.take(len - 2) =~= m.refs.take(below.len() as int));
}

/// A comparison of texts takes the two on top, the lower one first, and leaves
/// 1 where it holds of their bytes and 0 where it does not.
pub proof fn a_comparison_takes_the_two_on_top(
    program: Program,
    m: Machine,
    op: BinaryOp,
    below: Seq<u64>,
    marks: Seq<bool>,
    a: u64,
    b: u64,
)
    requires
        stands_at(program, m, Inst::Binary(op)),
        op is Eq || op is Ne || op is Lt || op is Le || op is Gt || op is Ge,
        m.words == below.push(a).push(b),
        m.refs == marks.push(true).push(true),
        crate::frame::machine::bytes_at(m.objects, a) is Some,
        crate::frame::machine::bytes_at(m.objects, b) is Some,
    ensures
        goes_on_with(
            m,
            crate::frame::machine::step(program, m),
            below.push(
                if crate::frame::machine::compared(
                    op,
                    crate::frame::machine::byte_order(
                        crate::frame::machine::bytes_at(m.objects, a)->0,
                        crate::frame::machine::bytes_at(m.objects, b)->0,
                    ),
                ) {
                    1
                } else {
                    0
                },
            ),
            marks.push(false),
        ),
{
    let len = m.words.len() as int;
    assert(m.words[len - 2] == a && m.words[len - 1] == b);
    assert(m.refs[len - 2] && m.refs[len - 1]);
    assert(m.words.take(len - 2) =~= below);
    assert(m.refs.take(len - 2) =~= marks);
}

/// A scalar constant pushes the word the integer is.
pub proof fn a_scalar_constant_pushes_its_integer(program: Program, m: Machine, value: i64)
    requires
        stands_at(program, m, Inst::ScalarConst(value)),
    ensures
        goes_on_with(
            m,
            crate::frame::machine::step(program, m),
            m.words.push(crate::frame::word::int_word(value as int) as u64),
            m.refs.push(false),
        ),
{
}

/// A scalar that is dropped leaves what stood below it, and one that is copied
/// stands twice; a scalar is the same word as a value.
pub proof fn a_word_is_dropped_copied_or_left(
    program: Program,
    m: Machine,
    inst: Inst,
    below: Seq<u64>,
    marks: Seq<bool>,
    top: u64,
    mark: bool,
)
    requires
        stands_at(program, m, inst),
        m.words == below.push(top),
        m.refs == marks.push(mark),
    ensures
        inst is ScalarPop ==> goes_on_with(
            m,
            crate::frame::machine::step(program, m),
            below,
            marks,
        ),
        inst is Dup ==> goes_on_with(
            m,
            crate::frame::machine::step(program, m),
            below.push(top).push(top),
            marks.push(mark).push(mark),
        ),
        (inst is ScalarToValue || inst is ValueToScalar) && !mark ==> goes_on_with(
            m,
            crate::frame::machine::step(program, m),
            below.push(top),
            marks.push(mark),
        ),
{
    let len = m.words.len() as int;
    assert(m.words.take(len - 1) =~= below);
    assert(m.refs.take(len - 1) =~= marks);
}

/// A load pushes what the slot holds, and a store puts what was on top into the
/// slot and into no other word.
pub proof fn a_slot_is_loaded_and_stored(
    program: Program,
    m: Machine,
    inst: Inst,
    slot: u32,
    below: Seq<u64>,
    marks: Seq<bool>,
    top: u64,
    mark: bool,
)
    requires
        stands_at(program, m, inst),
        m.words == below.push(top),
        m.refs == marks.push(mark),
        m.frames.last().base + slot < below.len(),
    ensures
        inst == Inst::LoadScalar(slot) ==> goes_on_with(
            m,
            crate::frame::machine::step(program, m),
            m.words.push(below[m.frames.last().base + slot]),
            m.refs.push(false),
        ),
        inst == Inst::LoadLocal(slot) && marks[m.frames.last().base + slot] ==> goes_on_with(
            m,
            crate::frame::machine::step(program, m),
            m.words.push(below[m.frames.last().base + slot]),
            m.refs.push(true),
        ),
        inst == Inst::StoreScalar(slot) && !marks[m.frames.last().base + slot] ==> goes_on_with(
            m,
            crate::frame::machine::step(program, m),
            below.update(m.frames.last().base + slot, top),
            marks,
        ),
        inst == Inst::StoreLocal(slot) && mark ==> goes_on_with(
            m,
            crate::frame::machine::step(program, m),
            below.update(m.frames.last().base + slot, top),
            marks,
        ),
{
    let len = m.words.len() as int;
    assert(m.words.take(len - 1) =~= below);
    assert(m.refs.take(len - 1) =~= marks);
    assert(m.words[m.frames.last().base + slot] == below[m.frames.last().base + slot]);
    assert(m.refs[m.frames.last().base + slot] == marks[m.frames.last().base + slot]);
}

// ---------------------------------------------------------------- objects

/// Building a struct takes its fields off the stack and leaves the handle of a
/// new object that holds them in order, each marked as its field is declared;
/// no other object changes.
pub proof fn a_struct_holds_what_it_was_built_of(
    program: Program,
    m: Machine,
    of: crate::ir::StructId,
    below: Seq<u64>,
    marks: Seq<bool>,
    fields: Seq<u64>,
    held: Seq<bool>,
)
    requires
        stands_at(program, m, Inst::MakeStruct(of)),
        m.words == below + fields,
        m.refs == marks + held,
        below.len() == marks.len(),
        fields.len() == program.structs@[of.0 as int].fields@.len(),
        forall|i: int|
            0 <= i < fields.len() ==> #[trigger] held[i] == !(program.structs@[of.0 as int].fields@[i].kind is Scalar),
        0 <= m.next < u64::MAX,
    ensures
        crate::frame::machine::step(program, m) matches Outcome::Next(n) && {
            let handle = m.next as u64;
            &&& n.words == below.push(handle)
            &&& n.refs == marks.push(true)
            &&& n.pc == m.pc + 1
            &&& n.next == m.next + 1
            &&& n.objects.contains_key(handle)
            &&& n.objects[handle].words == fields
            &&& n.objects[handle].plan.refs == held
            &&& n.objects[handle].plan.case is None
            &&& n.objects[handle].plan.name == program.structs@[of.0 as int].name@
            &&& forall|h: u64|
                h != handle ==> (#[trigger] n.objects.contains_key(h) <==> m.objects.contains_key(h))
                    && n.objects[h] == m.objects[h]
            &&& n.frames == m.frames
            &&& n.boundary == m.boundary
        },
{
    let len = m.words.len() as int;
    let width = fields.len() as int;
    let declared = program.structs@[of.0 as int];
    let plan = crate::frame::machine::struct_plan(declared);
    assert(m.refs.len() == marks.len() + held.len());
    assert(plan.refs.len() == width);
    assert forall|i: int| 0 <= i < width implies #[trigger] plan.refs[i] == m.refs[m.refs.len()
        - width + i] by {
        assert(m.refs[m.refs.len() - width + i] == held[i]);
        assert(plan.refs[i] == (crate::frame::layout::part_of(declared.fields@[i].kind)
            == crate::frame::kinds::Part::Nested));
    }
    assert(plan.refs =~= held);
    assert(m.words.take(len - width) =~= below);
    assert(m.refs.take(m.refs.len() - width) =~= marks);
    assert(m.words.skip(len - width) =~= fields);
}

/// Reading a field takes the handle and leaves what the object holds there,
/// marked as the object marks it.
pub proof fn a_field_is_read_as_it_is_held(
    program: Program,
    m: Machine,
    inst: Inst,
    below: Seq<u64>,
    marks: Seq<bool>,
    handle: u64,
    at: u32,
)
    requires
        stands_at(program, m, inst),
        m.words == below.push(handle),
        m.refs == marks.push(true),
        m.objects.contains_key(handle),
        at < m.objects[handle].words.len(),
        at < m.objects[handle].plan.refs.len(),
    ensures
        inst == Inst::GetFieldAtScalar(at) && !m.objects[handle].plan.refs[at as int]
            ==> goes_on_with(
            m,
            crate::frame::machine::step(program, m),
            below.push(m.objects[handle].words[at as int]),
            marks.push(false),
        ),
        inst matches Inst::GetFieldAt { of, at: place } ==> place == at
            && at < program.structs@[of.0 as int].fields@.len()
            && (program.structs@[of.0 as int].fields@[at as int].kind is Scalar)
            != m.objects[handle].plan.refs[at as int] ==> goes_on_with(
            m,
            crate::frame::machine::step(program, m),
            below.push(m.objects[handle].words[at as int]),
            marks.push(m.objects[handle].plan.refs[at as int]),
        ),
{
    let len = m.words.len() as int;
    assert(m.words.take(len - 1) =~= below);
    assert(m.refs.take(len - 1) =~= marks);
    assert(m.words[len - 1] == handle && m.refs[len - 1]);
}

/// Reading a payload leaves the handle where it is and pushes what the object
/// holds there.
pub proof fn a_payload_is_read_as_it_is_held(
    program: Program,
    m: Machine,
    case: Option<(crate::ir::EnumId, u32)>,
    below: Seq<u64>,
    marks: Seq<bool>,
    handle: u64,
    at: u32,
)
    requires
        stands_at(program, m, Inst::GetPayload { case, at }),
        m.words == below.push(handle),
        m.refs == marks.push(true),
        m.objects.contains_key(handle),
        at < m.objects[handle].words.len(),
        at < m.objects[handle].plan.refs.len(),
        case matches Some(pair) ==> {
            &&& pair.1 < program.enums@[pair.0.0 as int].cases@.len()
            &&& at < program.enums@[pair.0.0 as int].cases@[pair.1 as int].payload@.len()
            &&& (program.enums@[pair.0.0 as int].cases@[pair.1 as int].payload@[at as int] is Scalar)
                != m.objects[handle].plan.refs[at as int]
        },
    ensures
        goes_on_with(
            m,
            crate::frame::machine::step(program, m),
            m.words.push(m.objects[handle].words[at as int]),
            m.refs.push(m.objects[handle].plan.refs[at as int]),
        ),
{
    let len = m.words.len() as int;
    assert(m.words[len - 1] == handle && m.refs[len - 1]);
}

/// A case test leaves the handle where it is and pushes 1 where the object is
/// of the case, and 0 where it is not or is no case.
pub proof fn a_case_is_tested_by_its_name(
    program: Program,
    m: Machine,
    id: ConstId,
    below: Seq<u64>,
    marks: Seq<bool>,
    handle: u64,
)
    requires
        stands_at(program, m, Inst::TestCase(id)),
        m.words == below.push(handle),
        m.refs == marks.push(true),
        m.objects.contains_key(handle),
    ensures
        goes_on_with(
            m,
            crate::frame::machine::step(program, m),
            m.words.push(
                match m.objects[handle].plan.case {
                    Some(pair) => if crate::frame::layout::is_case(
                        pair.0,
                        pair.1,
                        program.name_text(id),
                    ) {
                        1
                    } else {
                        0
                    },
                    None => 0,
                },
            ),
            m.refs.push(false),
        ),
{
    let len = m.words.len() as int;
    assert(m.words[len - 1] == handle && m.refs[len - 1]);
}

/// A bare name is a case's when it is the case's name; a name with a dot is
/// when what follows its last dot is the case's name and what stands before it
/// the type's name, or what follows the last dot of that.
pub proof fn a_case_is_named_bare_or_by_its_type(
    module: Seq<char>,
    ty: Seq<char>,
    case: Seq<char>,
    tested: Seq<char>,
    before: Seq<char>,
    last: Seq<char>,
)
    requires
        !ty.contains('.'),
        !last.contains('.'),
    ensures
        !tested.contains('.') ==> (crate::frame::layout::is_case(ty, case, tested) <==> case
            == tested),
        !tested.contains('.') ==> (crate::frame::layout::is_case(
            module + seq!['.'] + ty,
            case,
            tested,
        ) <==> case == tested),
        crate::frame::layout::is_case(ty, case, before + seq!['.'] + last) <==> case == last && ty
            == before,
        crate::frame::layout::is_case(module + seq!['.'] + ty, case, before + seq!['.'] + last)
            <==> case == last && ty == before,
{
    lemma_no_dot(ty);
    lemma_no_dot(tested);
    lemma_the_last_dot(module, ty);
    lemma_the_last_dot(before, last);
    let name = before + seq!['.'] + last;
    assert(name.skip((before.len() + 1) as int) =~= last);
    assert(name.take(before.len() as int) =~= before);
    assert((module + seq!['.'] + ty).skip((module.len() + 1) as int) =~= ty);
}

proof fn lemma_no_dot(text: Seq<char>)
    ensures
        !text.contains('.') ==> crate::frame::layout::last_dot(text) is None,
    decreases text.len(),
{
    if text.len() > 0 && !text.contains('.') {
        assert(text[text.len() - 1] != '.');
        let shorter = text.drop_last();
        assert forall|i: int| 0 <= i < shorter.len() implies shorter[i] != '.' by {
            assert(text[i] != '.');
        }
        lemma_no_dot(shorter);
    }
}

proof fn lemma_the_last_dot(before: Seq<char>, last: Seq<char>)
    requires
        !last.contains('.'),
    ensures
        crate::frame::layout::last_dot(before + seq!['.'] + last) == Some(before.len() as int),
    decreases last.len(),
{
    let text = before + seq!['.'] + last;
    if last.len() > 0 {
        let shorter = last.drop_last();
        assert(last[last.len() - 1] != '.');
        assert forall|i: int| 0 <= i < shorter.len() implies shorter[i] != '.' by {
            assert(last[i] != '.');
        }
        lemma_the_last_dot(before, shorter);
        assert(text.drop_last() =~= before + seq!['.'] + shorter);
    } else {
        assert(text.last() == '.');
    }
}

/// Writing a field leaves the object that was named as it was, and leaves the
/// handle of a new one that holds what was written at the field's place and is
/// like the old everywhere else.
pub proof fn a_field_write_makes_a_new_object(
    program: Program,
    m: Machine,
    id: ConstId,
    below: Seq<u64>,
    marks: Seq<bool>,
    target: u64,
    value: u64,
    mark: bool,
    of: int,
    place: int,
)
    requires
        stands_at(program, m, Inst::SetField(id)),
        m.words == below.push(target).push(value),
        m.refs == marks.push(true).push(mark),
        m.objects.contains_key(target),
        target < m.next,
        m.next < u64::MAX,
        0 <= place < m.objects[target].words.len(),
        mark || !m.objects[target].plan.refs[place],
        0 <= of < program.structs@.len(),
        0 <= place < program.structs@[of].fields@.len(),
        program.structs@[of].fields@[place].name@ == program.name_text(id),
        forall|s: int, j: int|
            0 <= s < program.structs@.len() && 0 <= j < program.structs@[s].fields@.len()
                && (#[trigger] program.structs@[s].fields@[j]).name@ == program.name_text(id) ==> j
                == place,
    ensures
        crate::frame::machine::step(program, m) matches Outcome::Next(n) && {
            let handle = m.next as u64;
            &&& n.words == below.push(handle)
            &&& n.refs == marks.push(true)
            &&& n.pc == m.pc + 1
            &&& n.objects[handle].words[place] == value
            &&& n.objects[handle].words.len() == m.objects[target].words.len()
            &&& n.objects[handle].plan == m.objects[target].plan
            &&& forall|i: int|
                0 <= i < m.objects[target].words.len() && i != place ==> #[trigger] n.objects[handle].words[i]
                    == m.objects[target].words[i]
            &&& n.objects[target] == m.objects[target]
            &&& forall|h: u64|
                h != handle ==> (#[trigger] n.objects.contains_key(h) <==> m.objects.contains_key(h))
                    && n.objects[h] == m.objects[h]
            &&& n.next == m.next + 1
            &&& n.frames == m.frames
        },
{
    let name = program.name_text(id);
    let len = m.words.len() as int;
    assert(m.words[len - 2] == target && m.words[len - 1] == value);
    assert(m.refs[len - 2] && m.refs[len - 1] == mark);
    assert(m.words.take(len - 2) =~= below);
    assert(m.refs.take(len - 2) =~= marks);
    assert(crate::frame::layout::has_field(program, name, of, place)) by {
        assert forall|j: int| 0 <= j < place implies (#[trigger] program.structs@[of].fields@[j]).name@
            != name by {}
    }
    assert(crate::frame::layout::settles(program, name, place));
    let chosen = choose|at: int| crate::frame::layout::settles(program, name, at);
    assert(chosen == place);
}

// ------------------------------------------------------------------- flow

/// A jump goes to its target; a branch that asks for no goes there where the
/// top word is 0 and on where it is not, and one that asks for yes the other
/// way round; and each takes the word it asks.
pub proof fn control_goes_where_the_word_says(
    program: Program,
    m: Machine,
    inst: Inst,
    to: u32,
    below: Seq<u64>,
    marks: Seq<bool>,
    top: u64,
    mark: bool,
)
    requires
        stands_at(program, m, inst),
        m.words == below.push(top),
        m.refs == marks.push(mark),
        to < program.functions@[m.frames.last().function.0 as int].code@.len(),
        m.pc + 1 < program.functions@[m.frames.last().function.0 as int].code@.len(),
    ensures
        inst == Inst::Jump(to) ==> {
            let outcome = crate::frame::machine::step(program, m);
            &&& outcome is Next || outcome is Raised
            &&& m.budget is None ==> outcome is Next
            &&& outcome matches Outcome::Next(n) ==> n.pc == to && n.words == m.words && n.refs
                == m.refs
        },
        inst == Inst::JumpIfFalse(to) || inst == Inst::JumpIfFalseScalar(to) ==> {
            let outcome = crate::frame::machine::step(program, m);
            &&& outcome is Next || outcome is Raised
            &&& m.budget is None ==> outcome is Next
            &&& outcome matches Outcome::Next(n) ==> n.pc == (if top == 0 {
                to as int
            } else {
                m.pc + 1
            }) && n.words == below && n.refs == marks
        },
        inst == Inst::JumpIfTrue(to) || inst == Inst::JumpIfTrueScalar(to) ==> {
            let outcome = crate::frame::machine::step(program, m);
            &&& outcome is Next || outcome is Raised
            &&& m.budget is None ==> outcome is Next
            &&& outcome matches Outcome::Next(n) ==> n.pc == (if top == 0 {
                m.pc + 1
            } else {
                to as int
            }) && n.words == below && n.refs == marks
        },
        inst is Jump || inst is JumpIfFalse || inst is JumpIfFalseScalar || inst is JumpIfTrue
            || inst is JumpIfTrueScalar ==> (crate::frame::machine::step(program, m) matches
        Outcome::Next(n) ==> n.objects == m.objects && n.frames == m.frames && n.boundary
            == m.boundary && n.next == m.next),
{
    let len = m.words.len() as int;
    assert(m.words.take(len - 1) =~= below);
    assert(m.refs.take(len - 1) =~= marks);
}

/// A block is charged for each of its instructions, once: the count of
/// instructions and the fuel grow by as many, unless they are past what they
/// can show; and the fuel is handed over once as much has gathered as a
/// safepoint waits for, and not before.
pub proof fn a_block_is_charged_for_each_instruction(m: Machine, block: u32, span: Span)
    requires
        0 <= m.fuel <= u64::MAX,
        0 <= m.instructions,
        m.instructions + block <= u64::MAX,
        m.fuel + block <= u64::MAX,
    ensures
        m.fuel + block < 1024 ==> crate::frame::machine::charge(m, block as int, span) == Ok::<
            Machine,
            (Machine, crate::error::Failure),
        >(Machine { fuel: m.fuel + block, instructions: m.instructions + block, ..m }),
        m.fuel + block >= 1024 ==> match crate::frame::machine::charge(m, block as int, span) {
            Ok(n) => n.fuel == 0 && n.instructions == m.instructions + block && n.safepoints
                == m.safepoints + 1 && (m.budget is Some ==> n.budget == Some(
                m.budget->0.having_spent(m.fuel + block),
            )) && (m.budget is None ==> n.budget is None),
            Err(stopped) => m.budget is Some && stopped.0.fuel == 0 && stopped.0.instructions
                == m.instructions + block && stopped.0.budget == Some(
                m.budget->0.having_spent(m.fuel + block),
            ),
        },
{
}

/// A jump back hands over the fuel that has gathered once it is 64, and a jump
/// ahead does not ask.
pub proof fn a_jump_back_hands_over_what_has_gathered(m: Machine, span: Span)
    ensures
        m.fuel < 64 ==> crate::frame::machine::back_edge(m, span) == Ok::<
            Machine,
            (Machine, crate::error::Failure),
        >(m),
        m.fuel >= 64 ==> crate::frame::machine::back_edge(m, span)
            == crate::frame::machine::safepoint(m, span),
        crate::frame::machine::safepoint(m, span) matches Ok(n) ==> n.fuel == 0 && n.safepoints
            == m.safepoints + 1 && n.words == m.words && n.frames == m.frames && n.pc == m.pc,
{
}

/// A safepoint stops a run just when it was cancelled, or when what it has
/// spent goes past the fuel it was given; a run without a budget goes on.
pub proof fn a_safepoint_stops_what_is_cancelled_or_spent(m: Machine, span: Span)
    requires
        0 <= m.fuel <= u64::MAX,
    ensures
        m.budget is None ==> crate::frame::machine::safepoint(m, span) is Ok,
        m.budget matches Some(budget) ==> (crate::frame::machine::safepoint(m, span) is Err <==> {
            ||| budget.cancelled
            ||| budget.limits.fuel matches Some(most) && (budget.fuel_spent + m.fuel > most && most
                < u64::MAX)
        }),
        m.budget matches Some(budget) ==> (crate::frame::machine::safepoint(m, span) matches Err(
            stopped,
        ) ==> stopped.1.outcome == (if budget.cancelled {
            crate::error::RunOutcome::Cancelled
        } else {
            crate::error::RunOutcome::Budget
        }) && stopped.1.span == Some(span)),
{
}

/// A call is raised for its depth just when as many stand as may, 256 or what
/// the budget allows; otherwise depth is no reason.
pub proof fn a_call_is_raised_when_too_many_stand(m: Machine, callee: Function, span: Span)
    ensures
        crate::frame::machine::too_deep(m, callee, span) is Some <==> {
            ||| m.frames.len() >= 256
            ||| m.budget matches Some(budget) && budget.limits.max_call_depth matches Some(most)
                && m.frames.len() >= most
        },
{
}

/// A return from the entry answers the word on top as what the entry declares.
pub proof fn the_entry_answers_the_word_on_top(
    program: Program,
    m: Machine,
    below: Seq<u64>,
    marks: Seq<bool>,
    n: i64,
    mark: bool,
)
    requires
        stands_at(program, m, Inst::ReturnScalar),
        m.frames.len() == 1,
        m.frames.last().base <= below.len(),
        m.words == below.push(crate::frame::word::int_word(n as int) as u64),
        m.refs == marks.push(mark),
    ensures
        ({
            let outcome = crate::frame::machine::step(program, m);
            let declared = program.functions@[m.frames.last().function.0 as int].returns;
            &&& declared == SlotKind::Scalar(Scalar::Int) ==> outcome is Answered
                || outcome is Raised
            &&& declared == SlotKind::Scalar(Scalar::Int) && m.budget is None
                ==> outcome is Answered
            &&& declared == SlotKind::Scalar(Scalar::Int) ==> (outcome matches Outcome::Answered(
                after,
                value,
            ) ==> value == Datum::Int(n as int) && after.frames.len() == 0)
            &&& declared == SlotKind::Scalar(Scalar::Bool) && (n == 0 || n == 1)
                && m.budget is None ==> (outcome matches Outcome::Answered(after, value) && value
                == Datum::Bool(n == 1) && after.frames.len() == 0)
        }),
{
    crate::frame::word::an_int_survives_a_word(n);
    assert(m.words.last() == crate::frame::word::int_word(n as int) as u64);
}

/// A `?` opens an `Ok` and a `Some` and hands back an `Err` and a `None` as
/// they are; anything else is neither.
pub proof fn a_try_opens_a_success_and_hands_back_a_failure(value: Datum, held: Datum)
    ensures
        crate::frame::machine::tried(Datum::Enum("Result"@, "Ok"@, seq![held])) == Some(
            Ok::<Datum, Datum>(held),
        ),
        crate::frame::machine::tried(Datum::Enum("Option"@, "Some"@, seq![held])) == Some(
            Ok::<Datum, Datum>(held),
        ),
        crate::frame::machine::tried(Datum::Enum("Result"@, "Err"@, seq![held])) == Some(
            Err::<Datum, Datum>(Datum::Enum("Result"@, "Err"@, seq![held])),
        ),
        crate::frame::machine::tried(Datum::Enum("Option"@, "None"@, Seq::empty())) == Some(
            Err::<Datum, Datum>(Datum::Enum("Option"@, "None"@, Seq::empty())),
        ),
        !(value is Enum) ==> crate::frame::machine::tried(value) is None,
        value matches Datum::Enum(ty, case, payload) ==> ty != "Result"@ && ty != "Option"@
            ==> crate::frame::machine::tried(value) is None,
{
    reveal_strlit("Ok");
    reveal_strlit("Err");
    reveal_strlit("Some");
    reveal_strlit("None");
    reveal_strlit("Result");
    reveal_strlit("Option");
    assert("Ok"@.len() != "Err"@.len());
    assert("Ok"@.len() != "Some"@.len());
    assert("Ok"@.len() != "None"@.len());
    assert("Err"@.len() != "Some"@.len());
    assert("Some"@[0] != "None"@[0]);
    assert("Result"@[0] != "Option"@[0]);
}

// ------------------------------------------------------------------ texts

/// A text that is made is read back byte for byte, and as the value it is.
pub proof fn a_text_that_is_made_is_read_back(program: Program, m: Machine, text: Seq<char>)
    requires
        0 <= m.next < u64::MAX,
        vstd::utf8::encode_utf8(text).len() <= u64::MAX,
    ensures
        crate::frame::machine::text_made(m, text) matches Some(pair) && {
            &&& crate::frame::machine::bytes_at(pair.1.objects, pair.0) == Some(
                vstd::utf8::encode_utf8(text),
            )
            &&& crate::frame::machine::datum_at(program, pair.1.objects, pair.0) == Some(
                Datum::Str(text),
            )
            &&& forall|h: u64|
                h != pair.0 ==> (#[trigger] pair.1.objects.contains_key(h)
                    <==> m.objects.contains_key(h)) && pair.1.objects[h] == m.objects[h]
            &&& pair.1.words == m.words
            &&& pair.1.next == m.next + 1
        },
{
    let bytes = vstd::utf8::encode_utf8(text);
    crate::frame::packing::packing_loses_nothing(bytes);
    vstd::utf8::encode_utf8_decode_utf8(text);
    vstd::utf8::encode_utf8_valid_utf8(text);
    let words = crate::frame::packing::packed(bytes);
    assert(words[0] == bytes.len());
    assert(crate::frame::machine::packs_text(words));
}

/// Texts in a row are each text in its place.
pub proof fn what_is_shown_in_a_row_is_each_in_its_place(before: Seq<Datum>, value: Datum)
    ensures
        crate::frame::machine::all_shown(Seq::<Datum>::empty()) == Seq::<char>::empty(),
        crate::frame::machine::all_shown(before.push(value)) == crate::frame::machine::all_shown(
            before,
        ) + crate::value::shown(value),
{
    assert(before.push(value).drop_last() =~= before);
}

proof fn lemma_const_handles(constants: Seq<Const>, a: int, b: int)
    requires
        0 <= a <= b <= constants.len(),
    ensures
        1 <= crate::frame::machine::const_handle(constants, a),
        crate::frame::machine::const_handle(constants, a) <= crate::frame::machine::const_handle(
            constants,
            b,
        ) <= 1 + b,
        a < b && constants[a] is Str ==> crate::frame::machine::const_handle(constants, a)
            < crate::frame::machine::const_handle(constants, b),
    decreases b,
{
    if a < b {
        lemma_const_handles(constants, a, b - 1);
    } else if b > 0 {
        lemma_const_handles(constants, b - 1, b - 1);
    }
}

proof fn lemma_text_objects(constants: Seq<Const>, count: int, id: int)
    requires
        0 <= id < count <= constants.len(),
        constants.len() < u64::MAX,
        constants[id] is Str,
    ensures
        ({
            let handle = crate::frame::machine::const_handle(constants, id) as u64;
            let objects = crate::frame::machine::text_objects(constants, count);
            objects.contains_key(handle) && objects[handle] == (Object {
                plan: crate::frame::machine::text_plan(),
                words: crate::frame::packing::packed(
                    vstd::utf8::encode_utf8(constants[id]->Str_0@),
                ),
            })
        }),
    decreases count,
{
    lemma_const_handles(constants, id, count - 1);
    lemma_const_handles(constants, count - 1, count - 1);
    if id < count - 1 {
        lemma_text_objects(constants, count - 1, id);
    }
}

/// A text constant pushes the handle of its own text, which stands from the
/// beginning of every run; any other constant pushes its word.
pub proof fn a_constant_pushes_what_it_holds(program: Program, m: Machine, id: ConstId)
    requires
        stands_at(program, m, Inst::Const(id)),
        id.0 < program.constants@.len(),
        program.constants@.len() < u64::MAX,
    ensures
        crate::frame::machine::step(program, m) matches Outcome::Next(n) && {
            &&& n.words.len() == m.words.len() + 1
            &&& n.words.take(m.words.len() as int) == m.words
            &&& n.refs == m.refs.push(program.constants@[id.0 as int] is Str)
            &&& n.pc == m.pc + 1
            &&& match program.constants@[id.0 as int] {
                Const::Int(value) => crate::frame::word::word_int(n.words.last()) == value,
                Const::Bool(value) => n.words.last() == (if value {
                    1u64
                } else {
                    0u64
                }),
                Const::Float { bits, shown: _ } => n.words.last() == bits,
                Const::Unit => n.words.last() == 0,
                Const::Str(text) => vstd::utf8::encode_utf8(text@).len() <= u64::MAX
                    ==> crate::frame::machine::bytes_at(
                    crate::frame::machine::initial(program, m.budget).objects,
                    n.words.last(),
                ) == Some(vstd::utf8::encode_utf8(text@)),
                _ => true,
            }
        },
{
    let constants = program.constants@;
    match constants[id.0 as int] {
        Const::Int(value) => {
            crate::frame::word::an_int_survives_a_word(value);
        },
        Const::Str(text) => {
            lemma_text_objects(constants, constants.len() as int, id.0 as int);
            let bytes = vstd::utf8::encode_utf8(text@);
            if bytes.len() <= u64::MAX {
                crate::frame::packing::packing_loses_nothing(bytes);
                let words = crate::frame::packing::packed(bytes);
                assert(words[0] == bytes.len());
                assert(crate::frame::machine::packs_text(words));
            }
        },
        _ => {},
    }
    assert(m.words.push(crate::frame::machine::constant(program, id)).take(m.words.len() as int)
        =~= m.words);
}

// ---------------------------------------------------------- the boundary

/// A word crosses to the value it stands for: a unit, a flag or an integer, a
/// float as some constant of the program shows it, and a text by its bytes; a
/// handle that cannot be shown to be more crosses to nothing.
pub proof fn a_word_crosses_to_what_it_stands_for(
    program: Program,
    objects: Map<u64, Object>,
    word: u64,
    mark: bool,
    n: i64,
)
    ensures
        crate::frame::machine::crossed(program, objects, Kind::Unit, word, mark) == Some(
            Datum::Unit,
        ),
        crate::frame::machine::crossed(
            program,
            objects,
            Kind::Int,
            crate::frame::word::int_word(n as int) as u64,
            mark,
        ) == Some(Datum::Int(n as int)),
        crate::frame::machine::crossed(program, objects, Kind::Bool, 0, mark) == Some(
            Datum::Bool(false),
        ),
        crate::frame::machine::crossed(program, objects, Kind::Bool, 1, mark) == Some(
            Datum::Bool(true),
        ),
        crate::frame::machine::crossed(program, objects, Kind::Reference, word, mark) is None,
        crate::frame::machine::crossed(program, objects, Kind::Str, word, mark) matches Some(value)
            ==> mark && value is Str && crate::frame::machine::bytes_at(objects, word) == Some(
            vstd::utf8::encode_utf8(value->Str_0),
        ),
        crate::frame::machine::crossed(program, objects, Kind::Float, word, mark) matches Some(
            value,
        ) ==> value is Float && value->Float_0 == word && exists|i: int|
            0 <= i < program.constants@.len() && (#[trigger] program.constants@[i]) is Float && program.constants@[i]->bits == word && program.constants@[i]->shown@ == value->Float_1,
{
    crate::frame::word::an_int_survives_a_word(n);
    if let Some(bytes) = crate::frame::machine::bytes_at(objects, word) {
        if vstd::utf8::valid_utf8(bytes) {
            vstd::utf8::decode_utf8_encode_utf8(bytes);
        }
    }
    lemma_a_float_is_a_constant(program.constants@, word);
}

proof fn lemma_a_float_is_a_constant(constants: Seq<Const>, word: u64)
    ensures
        crate::frame::machine::float_shown(constants, word) matches Some(text) ==> exists|i: int|
            0 <= i < constants.len() && (#[trigger] constants[i]) is Float && constants[i]->bits == word && constants[i]->shown@ == text,
        (exists|i: int|
            0 <= i < constants.len() && (#[trigger] constants[i]) is Float && constants[i]->bits == word) ==> crate::frame::machine::float_shown(constants, word) is Some,
    decreases constants.len(),
{
    if constants.len() > 0 {
        let rest = constants.skip(1);
        lemma_a_float_is_a_constant(rest, word);
        if constants[0] matches Const::Float { bits, shown: _ } && bits == word {
            assert(constants[0] is Float);
        } else {
            if let Some(text) = crate::frame::machine::float_shown(rest, word) {
                let i = choose|i: int|
                    0 <= i < rest.len() && (#[trigger] rest[i]) is Float && rest[i]->bits == word && rest[i]->shown@ == text;
                assert(constants[i + 1] == rest[i]);
            }
            if exists|i: int|
                0 <= i < constants.len() && (#[trigger] constants[i]) is Float && constants[i]->bits == word {
                let i = choose|i: int|
                    0 <= i < constants.len() && (#[trigger] constants[i]) is Float && constants[i]->bits == word;
                assert(rest[i - 1] == constants[i]);
            }
        }
    }
}

/// The arguments of a call cross each for itself, in the order they stand.
pub proof fn arguments_cross_in_the_order_they_stand(
    program: Program,
    m: Machine,
    kinds: Seq<Kind>,
    i: int,
)
    requires
        m.words.len() == m.refs.len(),
        crate::frame::machine::arguments(program, m, kinds) is Some,
        0 <= i < kinds.len(),
    ensures
        ({
            let pair = crate::frame::machine::arguments(program, m, kinds)->0;
            let at = m.words.len() - kinds.len() + i;
            &&& pair.0.len() == kinds.len()
            &&& crate::frame::machine::crossed(
                program,
                m.objects,
                kinds[i],
                m.words[at],
                m.refs[at],
            ) == Some(pair.0[i])
            &&& pair.1.words == m.words.take(m.words.len() - kinds.len())
            &&& pair.1.refs == m.refs.take(m.words.len() - kinds.len())
            &&& pair.1.objects == m.objects
            &&& pair.1.pc == m.pc
        }),
{
    let argc = kinds.len() as int;
    lemma_all_crossed(
        program,
        m.objects,
        kinds,
        m.words.skip(m.words.len() - argc),
        m.refs.skip(m.refs.len() - argc),
        argc,
        i,
    );
}

proof fn lemma_all_crossed(
    program: Program,
    objects: Map<u64, Object>,
    kinds: Seq<Kind>,
    words: Seq<u64>,
    refs: Seq<bool>,
    count: int,
    i: int,
)
    requires
        0 <= i < count,
        crate::frame::machine::all_crossed(program, objects, kinds, words, refs, count) is Some,
    ensures
        crate::frame::machine::all_crossed(program, objects, kinds, words, refs, count)->0.len()
            == count,
        crate::frame::machine::crossed(program, objects, kinds[i], words[i], refs[i]) == Some(
            crate::frame::machine::all_crossed(program, objects, kinds, words, refs, count)->0[i],
        ),
    decreases count,
{
    if i < count - 1 {
        lemma_all_crossed(program, objects, kinds, words, refs, count - 1, i);
    } else if count > 1 {
        lemma_all_crossed(program, objects, kinds, words, refs, count - 1, 0);
    }
}

/// A host call hands over the module and the operation it names and its
/// arguments, without them on the stack; and waits.
pub proof fn a_host_call_hands_over_its_arguments(
    program: Program,
    m: Machine,
    module: ConstId,
    op: ConstId,
    argc: u32,
    kinds: Seq<Kind>,
)
    requires
        stands_at(program, m, Inst::CallHost { module, op, argc }),
        crate::frame::operands::boundary_kinds(
            crate::frame::operands::operands_of(
                program,
                program.functions@[m.frames.last().function.0 as int],
            ),
            m.pc,
            argc as int,
        ) == Some(kinds),
        crate::frame::machine::arguments(program, m, kinds) is Some,
    ensures
        ({
            let outcome = crate::frame::machine::step(program, m);
            &&& outcome is Host || outcome is Raised
            &&& m.budget is None ==> outcome is Host
            &&& outcome matches Outcome::Host(n, called, operation, args, span) ==> {
                &&& called == program.name_text(module)
                &&& operation == program.name_text(op)
                &&& args == (crate::frame::machine::arguments(program, m, kinds)->0).0
                &&& n.words == m.words.take(m.words.len() - kinds.len())
                &&& n.pending == Pending::Host
                &&& n.pc == m.pc
                &&& n.frames == m.frames
                &&& n.objects == m.objects
                &&& n.boundary == m.boundary
            }
        }),
{
}

/// What a host answers is pushed as the word it becomes, where its type has
/// one, and kept outside the stack where it has none; and what it fails with
/// ends the run, placed where the call stands.
pub proof fn what_a_host_answers_is_taken_in(
    program: Program,
    m: Machine,
    module: ConstId,
    op: ConstId,
    argc: u32,
    value: Datum,
    failure: crate::error::Failure,
)
    requires
        m.pending == Pending::Host,
        m.frames.len() > 0,
        0 <= m.pc < program.functions@[m.frames.last().function.0 as int].code@.len(),
        program.functions@[m.frames.last().function.0 as int].code@[m.pc] == (Inst::CallHost {
            module,
            op,
            argc,
        }),
    ensures
        ({
            let function = program.functions@[m.frames.last().function.0 as int];
            let outcome = crate::frame::machine::host_answered(program, m, function, Ok(value));
            let raised = crate::frame::machine::host_answered(program, m, function, Err(failure));
            let ty = crate::frame::kinds::host_answer(
                program,
                program.name_text(module),
                program.name_text(op),
            );
            &&& ty == Some(HostType::Int) && value is Int ==> (outcome matches Outcome::Next(n)
                && n.words == m.words.push(crate::frame::word::int_word(value->Int_0) as u64)
                && n.refs == m.refs.push(false) && n.pc == m.pc + 1 && n.pending
                == Pending::Nothing)
            &&& ty == Some(HostType::Bool) && value is Bool ==> (outcome matches Outcome::Next(n)
                && n.words == m.words.push(
                if value->Bool_0 {
                    1
                } else {
                    0
                },
            ) && n.refs == m.refs.push(false) && n.pc == m.pc + 1)
            &&& ty == Some(HostType::String) && value is Str && m.next < u64::MAX ==> (
            outcome matches Outcome::Next(n) && n.refs == m.refs.push(true) && n.words.len()
                == m.words.len() + 1 && n.pc == m.pc + 1)
            &&& ty is None ==> (outcome matches Outcome::Next(n) && n.words == m.words && n.boundary
                == m.boundary.push(value) && n.pc == m.pc + 1 && n.pending == Pending::Nothing)
            &&& raised matches Outcome::Raised(n, told) && told.message == failure.message && (
            failure.span is None ==> told.span == Some(function.spot(m.pc))) && (
            failure.span is Some ==> told.span == failure.span) && n.pending == Pending::Nothing
        }),
{
}

/// What a builtin answers is kept outside the stack, and what it fails with
/// ends the run; an assertion that failed is remembered where it stands, with
/// what it said, and nothing else is.
pub proof fn what_a_builtin_answers_is_taken_in(
    m: Machine,
    function: Function,
    value: Datum,
    failure: crate::error::Failure,
    assertion: bool,
    held: Datum,
)
    requires
        m.pending == Pending::Builtin,
        m.frames.len() > 0,
        0 <= m.pc < function.code@.len(),
    ensures
        crate::frame::machine::builtin_answered(m, function, Ok(value), assertion) matches
        Outcome::Next(n) && n.boundary == m.boundary.push(value) && n.pc == m.pc + 1 && n.words
            == m.words && n.pending == Pending::Nothing && (!assertion ==> n.assertion_failure
            == m.assertion_failure) && (value == Datum::Enum("Result"@, "Err"@, seq![held])
            && assertion ==> n.assertion_failure == Some(
            (function.spot(m.pc), crate::value::shown(held)),
        )) && (!(value is Enum) ==> n.assertion_failure == m.assertion_failure),
        crate::frame::machine::builtin_answered(m, function, Err(failure), assertion) matches
        Outcome::Raised(n, told) && told == failure,
{
}

/// A value that leaves a frame is handed to its caller, whose words stay and
/// whose next instruction is the one after the call; one that leaves the entry
/// is the run's answer.
pub proof fn a_value_that_leaves_a_frame_is_handed_over(program: Program, m: Machine, value: Datum)
    requires
        m.frames.len() > 0,
        m.words.len() == m.refs.len(),
        m.frames.last().base <= m.words.len(),
    ensures
        m.frames.len() == 1 ==> (crate::frame::machine::leave(program, m, value) matches
        Outcome::Answered(n, answer) && answer == value && n.frames.len() == 0 && n.words
            == m.words.take(m.frames.last().base as int)),
        m.frames.len() > 1 ==> (crate::frame::machine::leave(program, m, value) matches
        Outcome::Next(n) ==> n.boundary == m.boundary.push(value) && n.words == m.words.take(
            m.frames.last().base as int,
        ) && n.refs == m.refs.take(m.frames.last().base as int) && n.frames == m.frames.drop_last()
            && n.pc == m.frames.last().return_pc),
        m.frames.len() > 1 && m.budget is None && m.frames.last().return_pc
            < program.functions@[m.frames[m.frames.len() - 2].function.0 as int].code@.len()
            ==> crate::frame::machine::leave(program, m, value) is Next,
{
}

/// A call opens a frame over the arguments it passes, scalars and values, and
/// goes to the head of what it calls; it goes on wherever depth and budget
/// allow and the arguments fit the slots.
pub proof fn a_call_opens_a_frame_over_its_arguments(
    program: Program,
    m: Machine,
    target: FunctionId,
    scalar_argc: u32,
    value_argc: u32,
    place_argc: u32,
)
    requires
        stands_at(
            program,
            m,
            Inst::Call { function: target, scalar_argc, value_argc, place_argc },
        ),
        m.pc < usize::MAX,
        m.words.len() <= usize::MAX,
    ensures
        ({
            let outcome = crate::frame::machine::step(program, m);
            let callee = program.functions@[target.0 as int];
            let base = m.words.len() - scalar_argc - value_argc;
            &&& outcome matches Outcome::Next(n) ==> {
                &&& n.frames == m.frames.push(
                    Call { function: target, return_pc: (m.pc + 1) as usize, base: base as usize },
                )
                &&& base >= 0
                &&& n.pc == 0
                &&& n.words.len() == base + callee.slots@.len()
                &&& n.words.take(m.words.len() as int) == m.words
            }
            &&& m.budget is None && m.frames.len() < 256 && callee.code@.len() > 0 && base >= 0
                && scalar_argc + value_argc <= callee.slots@.len() && base + callee.slots@.len()
                + 64 <= usize::MAX && (forall|i: int|
                0 <= i < scalar_argc + value_argc && #[trigger] callee.slots@[i] is Value
                    ==> m.refs[base + i]) ==> outcome is Next
        }),
{
    let outcome = crate::frame::machine::step(program, m);
    if let Outcome::Next(n) = outcome {
        assert(n.words.take(m.words.len() as int) =~= m.words);
    }
}

/// A run begins with the entry's frame and nothing below it: as many words as
/// the entry has slots, all of them nothing, and control at its head.
pub proof fn a_run_begins_at_the_head_of_its_entry(program: Program, m: Machine, entry: FunctionId)
    ensures
        crate::frame::machine::begun(program, m, entry) matches Outcome::Next(n) ==> {
            let function = program.functions@[entry.0 as int];
            &&& n.pc == 0
            &&& n.frames == seq![Call { function: entry, return_pc: 0, base: 0 }]
            &&& n.words.len() == function.slots@.len()
            &&& forall|i: int| 0 <= i < n.words.len() ==> #[trigger] n.words[i] == 0
            &&& n.refs.len() == n.words.len()
            &&& forall|i: int|
                0 <= i < n.refs.len() ==> #[trigger] n.refs[i] == (function.slots@[i] is Value)
            &&& n.boundary.len() == 0
            &&& n.objects == m.objects
            &&& n.pending == Pending::Nothing
        },
        m.budget is None && program.functions@[entry.0 as int].code@.len() > 0
            && program.functions@[entry.0 as int].slots@.len() + 64 <= usize::MAX
            ==> crate::frame::machine::begun(program, m, entry) is Next,
{
}

/// A run that has ended has handed over all its fuel; what it answered or was
/// raised for stays.
pub proof fn a_run_that_has_ended_has_handed_over_its_fuel(m: Machine, value: Datum)
    requires
        0 <= m.fuel <= u64::MAX,
    ensures
        crate::frame::machine::ended(Outcome::Answered(m, value)) matches Outcome::Answered(
            n,
            answer,
        ) && answer == value && n.fuel == 0 && n.words == m.words && (m.budget is Some
            && m.budget->0.fuel_spent + m.fuel <= u64::MAX ==> n.budget is Some
            && n.budget->0.fuel_spent == m.budget->0.fuel_spent + m.fuel),
{
}

/// An object that is made is counted once, by its words of eight bytes each.
pub proof fn what_is_made_is_counted(m: Machine, plan: crate::slot::Plan, words: Seq<u64>)
    requires
        0 <= m.allocated_objects < u64::MAX,
        0 <= m.allocated_bytes,
        m.allocated_bytes + 8 * words.len() <= u64::MAX,
    ensures
        ({
            let n = m.making(plan, words);
            &&& n.allocated_objects == m.allocated_objects + 1
            &&& n.allocated_bytes == m.allocated_bytes + 8 * words.len()
            &&& n.next == m.next + 1
            &&& n.words == m.words
        }),
{
}

/// A text is built of what its parts show as, in order: the handle that is left
/// names a new text of those bytes, and the parts are gone. It costs as much as
/// there are parts and bytes.
pub proof fn a_text_is_built_of_what_its_parts_show_as(
    program: Program,
    m: Machine,
    count: u32,
    kinds: Seq<Kind>,
)
    requires
        stands_at(program, m, Inst::Concat(count)),
        crate::frame::operands::kinds_at(
            crate::frame::operands::operands_of(
                program,
                program.functions@[m.frames.last().function.0 as int],
            ),
            m.pc,
            count as int,
        ) == Some(kinds),
        crate::frame::machine::arguments(program, m, kinds) is Some,
        0 <= m.next < u64::MAX,
        vstd::utf8::encode_utf8(
            crate::frame::machine::all_shown(
                (crate::frame::machine::arguments(program, m, kinds)->0).0,
            ),
        ).len() <= u64::MAX,
    ensures
        crate::frame::machine::step(program, m) matches Outcome::Next(n) && {
            &&& n.words == m.words.take(m.words.len() - kinds.len()).push(m.next as u64)
            &&& n.refs == m.refs.take(m.words.len() - kinds.len()).push(true)
            &&& n.pc == m.pc + 1
            &&& crate::frame::machine::bytes_at(n.objects, m.next as u64) == Some(
                vstd::utf8::encode_utf8(
                    crate::frame::machine::all_shown(
                        (crate::frame::machine::arguments(program, m, kinds)->0).0,
                    ),
                ),
            )
            &&& {
                let cost = count + vstd::utf8::encode_utf8(
                    crate::frame::machine::all_shown(
                        (crate::frame::machine::arguments(program, m, kinds)->0).0,
                    ),
                ).len();
                0 <= m.fuel && m.fuel + cost <= u64::MAX ==> n.fuel == m.fuel + cost
            }
        },
{
    let pair = crate::frame::machine::arguments(program, m, kinds)->0;
    let text = crate::frame::machine::all_shown(pair.0);
    let bytes = vstd::utf8::encode_utf8(text).len();
    a_text_that_is_made_is_read_back(
        program,
        pair.1.fuelled(crate::budget::tallied(count as int, bytes as int)),
        text,
    );
}

/// The value an instruction takes from over the boundary is the text or the
/// case the top word names, where the top is known for one, and else the last
/// value that was handed over.
pub proof fn a_value_is_taken_where_it_stands(
    program: Program,
    m: Machine,
    stack: Seq<Held>,
    value: Datum,
)
    requires
        m.frames.len() > 0,
        m.words.len() > 0,
        m.words.len() == m.refs.len(),
        ({
            let function = program.functions@[m.frames.last().function.0 as int];
            let at = crate::frame::operands::operands_of(program, function);
            0 <= m.pc < at.len() && at[m.pc] == Some(stack)
        }),
    ensures
        ({
            let function = program.functions@[m.frames.last().function.0 as int];
            let found = crate::frame::machine::taken(program, m, function);
            &&& stack.len() > 0 && (stack.last() == Some(Kind::Str) || stack.last() == Some(
                Kind::Enum,
            )) ==> match crate::frame::machine::crossed(
                program,
                m.objects,
                stack.last()->0,
                m.words.last(),
                m.refs.last(),
            ) {
                Some(datum) => found matches Some(pair) && pair.0 == datum && pair.1.words
                    == m.words.drop_last() && pair.1.refs == m.refs.drop_last() && pair.1.boundary
                    == m.boundary,
                None => found is None,
            }
            &&& stack.len() == 0 || (stack.last() != Some(Kind::Str) && stack.last() != Some(
                Kind::Enum,
            )) ==> {
                &&& m.boundary.len() == 0 ==> found is None
                &&& m.boundary.len() > 0 ==> (found matches Some(pair) && pair.0
                    == m.boundary.last() && pair.1.boundary == m.boundary.drop_last()
                    && pair.1.words == m.words && pair.1.refs == m.refs)
            }
        }),
{
    let n = stack.len() as int;
    if n > 0 && stack.last() is Some {
        assert forall|i: int| n - 1 <= i < n implies #[trigger] stack[i] is Some by {}
    }
}

/// A `?` over a success goes on with what was opened, as a word where its type
/// is settled and as a value elsewhere; over a failure it leaves the frame with
/// the failure as it is; and over anything else it raises.
pub proof fn a_try_goes_on_or_leaves(
    program: Program,
    m: Machine,
    payload: SlotKind,
    value: Datum,
    rest: Machine,
    held: Datum,
)
    requires
        stands_at(program, m, Inst::Try { payload }),
        m.budget is None,
        m.pc + 1 < program.functions@[m.frames.last().function.0 as int].code@.len(),
        crate::frame::machine::taken(
            program,
            m,
            program.functions@[m.frames.last().function.0 as int],
        ) == Some((value, rest)),
        m.frames.last().base <= rest.words.len(),
    ensures
        ({
            let outcome = crate::frame::machine::step(program, m);
            let opens = value == Datum::Enum("Result"@, "Ok"@, seq![held]) || value == Datum::Enum(
                "Option"@,
                "Some"@,
                seq![held],
            );
            let fails = value == Datum::Enum("Result"@, "Err"@, seq![held]) || value == Datum::Enum(
                "Option"@,
                "None"@,
                Seq::empty(),
            );
            &&& opens && payload == SlotKind::Scalar(Scalar::Int) && held is Int ==> (
            outcome matches Outcome::Next(n) && n.words == rest.words.push(
                crate::frame::word::int_word(held->Int_0) as u64,
            ) && n.pc == m.pc + 1 && n.frames == m.frames)
            &&& opens && payload == SlotKind::Scalar(Scalar::Bool) && held is Bool ==> (
            outcome matches Outcome::Next(n) && n.words == rest.words.push(
                if held->Bool_0 {
                    1
                } else {
                    0
                },
            ) && n.pc == m.pc + 1 && n.frames == m.frames)
            &&& opens && payload == SlotKind::Value ==> (outcome matches Outcome::Next(n)
                && n.boundary == rest.boundary.push(held) && n.words == rest.words && n.pc == m.pc
                + 1 && n.frames == m.frames)
            &&& fails && m.frames.len() == 1 ==> (outcome matches Outcome::Answered(n, answer)
                && answer == value)
            &&& fails && m.frames.len() > 1 ==> (outcome matches Outcome::Next(n) ==> n.boundary
                == rest.boundary.push(value) && n.frames == m.frames.drop_last() && n.pc
                == m.frames.last().return_pc && n.words == rest.words.take(
                m.frames.last().base as int,
            ))
            &&& !(value is Enum) ==> (outcome matches Outcome::Raised(n, failure) && failure.message
                == "`?` needs a `Result` or an `Option`"@)
        }),
{
    a_try_opens_a_success_and_hands_back_a_failure(value, held);
}

/// A case is built as it is declared: the handle that is left names a new
/// object that holds the payload in order and is known by its type and case, so
/// that a test of that case answers yes.
pub proof fn a_case_holds_what_it_was_built_of(
    program: Program,
    m: Machine,
    ty: ConstId,
    named: ConstId,
    argc: u32,
    below: Seq<u64>,
    marks: Seq<bool>,
    payload: Seq<u64>,
    held: Seq<bool>,
    t: int,
    c: int,
)
    requires
        stands_at(program, m, Inst::MakeEnum { ty, named, argc }),
        m.words == below + payload,
        m.refs == marks + held,
        below.len() == marks.len(),
        payload.len() == argc,
        held.len() == argc,
        0 <= t < program.enums@.len(),
        program.enums@[t].name@ == program.name_text(ty),
        forall|u: int| 0 <= u < t ==> #[trigger] program.enums@[u].name@ != program.name_text(ty),
        0 <= c < program.enums@[t].cases@.len(),
        program.enums@[t].cases@[c].name@ == program.name_text(named),
        forall|d: int|
            0 <= d < c ==> #[trigger] program.enums@[t].cases@[d].name@ != program.name_text(named),
        program.enums@[t].cases@[c].payload@.len() == argc,
        forall|i: int|
            0 <= i < argc ==> #[trigger] held[i] == !(program.enums@[t].cases@[c].payload@[i] is Scalar),
        0 <= m.next < u64::MAX,
    ensures
        crate::frame::machine::step(program, m) matches Outcome::Next(n) && {
            let handle = m.next as u64;
            &&& n.words == below.push(handle)
            &&& n.refs == marks.push(true)
            &&& n.pc == m.pc + 1
            &&& n.objects.contains_key(handle)
            &&& n.objects[handle].words == payload
            &&& n.objects[handle].plan.refs == held
            &&& n.objects[handle].plan.case == Some(
                (program.enums@[t].name@, program.enums@[t].cases@[c].name@),
            )
            &&& forall|h: u64|
                h != handle ==> (#[trigger] n.objects.contains_key(h) <==> m.objects.contains_key(h))
                    && n.objects[h] == m.objects[h]
        },
{
    let kind_name = program.name_text(ty);
    let case = program.name_text(named);
    let declared = program.enums@[t].cases@[c].payload@;
    assert(crate::frame::layout::declared_at(program, kind_name, case, t, c));
    let (u, d) = choose|u: int, d: int| #[trigger]
        crate::frame::layout::declared_at(program, kind_name, case, u, d);
    crate::frame::layout::lemma_declared_once(program, kind_name, case, t, c, u, d);
    let site = crate::frame::layout::declared_site(program, kind_name, case, argc as int)->0;
    let plan = crate::frame::machine::site_plan(site);
    lemma_builds(m, plan, below, marks, payload, held, declared);
}

proof fn lemma_builds(
    m: Machine,
    plan: crate::slot::Plan,
    below: Seq<u64>,
    marks: Seq<bool>,
    parts: Seq<u64>,
    held: Seq<bool>,
    slots: Seq<SlotKind>,
)
    requires
        m.words == below + parts,
        m.refs == marks + held,
        below.len() == marks.len(),
        parts.len() == held.len(),
        slots.len() == parts.len(),
        plan.refs == crate::frame::machine::nested(crate::frame::layout::payload_parts(slots)),
        forall|i: int| 0 <= i < parts.len() ==> #[trigger] held[i] == !(slots[i] is Scalar),
    ensures
        plan.refs == held,
        m.matches_plan(plan.refs),
        m.words.take(m.words.len() - parts.len()) == below,
        m.refs.take(m.refs.len() - parts.len()) == marks,
        m.words.skip(m.words.len() - parts.len()) == parts,
{
    let width = parts.len() as int;
    assert forall|i: int| 0 <= i < width implies #[trigger] plan.refs[i] == held[i] by {
        assert(plan.refs[i] == (crate::frame::layout::part_of(slots[i])
            == crate::frame::kinds::Part::Nested));
    }
    assert(plan.refs =~= held);
    assert forall|i: int| 0 <= i < width implies #[trigger] plan.refs[i] == m.refs[m.refs.len()
        - width + i] by {
        assert(m.refs[m.refs.len() - width + i] == held[i]);
    }
    assert(m.words.take(m.words.len() - width) =~= below);
    assert(m.refs.take(m.refs.len() - width) =~= marks);
    assert(m.words.skip(m.words.len() - width) =~= parts);
}

/// `Ok`, `Err` and `Some` of one word and `None` of none build the case of
/// that name, which holds the word.
pub proof fn a_builtin_case_holds_what_it_was_built_of(
    program: Program,
    m: Machine,
    name: ConstId,
    below: Seq<u64>,
    marks: Seq<bool>,
    word: u64,
    mark: bool,
    stack: Seq<Held>,
)
    requires
        stands_at(program, m, Inst::MakeBuiltin { name, argc: 1 }),
        program.name_text(name) == "Ok"@ || program.name_text(name) == "Err"@ || program.name_text(
            name,
        ) == "Some"@,
        m.words == below.push(word),
        m.refs == marks.push(mark),
        ({
            let function = program.functions@[m.frames.last().function.0 as int];
            let at = crate::frame::operands::operands_of(program, function);
            0 <= m.pc < at.len() && at[m.pc] == Some(stack)
        }),
        stack.len() > 0,
        stack.last() is Some,
        mark == (stack.last() == Some(Kind::Str) || stack.last() == Some(Kind::Enum) || stack.last()
            == Some(Kind::Reference)),
        0 <= m.next < u64::MAX,
    ensures
        crate::frame::machine::step(program, m) matches Outcome::Next(n) && {
            let handle = m.next as u64;
            &&& n.words == below.push(handle)
            &&& n.refs == marks.push(true)
            &&& n.pc == m.pc + 1
            &&& n.objects[handle].words == seq![word]
            &&& n.objects[handle].plan.refs == seq![mark]
            &&& n.objects[handle].plan.case == Some(
                (
                    if program.name_text(name) == "Some"@ {
                        "Option"@
                    } else {
                        "Result"@
                    },
                    program.name_text(name),
                ),
            )
        },
{
    reveal_strlit("Ok");
    reveal_strlit("Err");
    reveal_strlit("Some");
    assert("Ok"@.len() != "Some"@.len());
    assert("Err"@.len() != "Some"@.len());
    let k = stack.len() as int;
    assert forall|i: int| k - 1 <= i < k implies #[trigger] stack[i] is Some by {}
    let function = program.functions@[m.frames.last().function.0 as int];
    let at = crate::frame::operands::operands_of(program, function);
    let kinds = crate::frame::operands::kinds_at(at, m.pc, 1)->0;
    assert(kinds[0] == stack.last()->0);
    let site = crate::frame::layout::construction(program, at, m.pc, function.code@[m.pc])->0;
    let plan = crate::frame::machine::site_plan(site);
    let len = m.words.len() as int;
    assert(plan.refs =~= seq![mark]);
    assert(m.refs[m.refs.len() - 1] == mark);
    assert(m.words.take(len - 1) =~= below);
    assert(m.refs.take(len - 1) =~= marks);
    assert(m.words.skip(len - 1) =~= seq![word]);
}

/// Only the cases of `Result` and `Option` cross to a value as cases.
pub proof fn only_the_cases_of_builtins_cross(kind_name: Seq<char>, case: Seq<char>)
    ensures
        crate::frame::layout::names_builtin_case(kind_name, case) <==> {
            ||| kind_name == "Result"@ && case == "Ok"@
            ||| kind_name == "Result"@ && case == "Err"@
            ||| kind_name == "Option"@ && case == "Some"@
            ||| kind_name == "Option"@ && case == "None"@
        },
{
}

/// A discard takes the word on top where a word is left there, and the value
/// that was handed over where one was.
pub proof fn a_discard_takes_what_is_left(
    program: Program,
    m: Machine,
    below: Seq<u64>,
    marks: Seq<bool>,
    top: u64,
    mark: bool,
    stack: Seq<Held>,
)
    requires
        stands_at(program, m, Inst::Pop),
        m.words == below.push(top),
        m.refs == marks.push(mark),
        ({
            let function = program.functions@[m.frames.last().function.0 as int];
            let at = crate::frame::operands::operands_of(program, function);
            0 <= m.pc < at.len() && at[m.pc] == Some(stack)
        }),
        stack.len() > 0,
    ensures
        ({
            let outcome = crate::frame::machine::step(program, m);
            let function = program.functions@[m.frames.last().function.0 as int];
            &&& (stack.last() == Some(Kind::Int) || stack.last() == Some(Kind::Bool) || stack.last()
                == Some(Kind::Unit) || stack.last() == Some(Kind::Float) || stack.last() == Some(
                Kind::Reference,
            )) && !crate::frame::admission::leaves_boundary(program, function, m.pc)
                ==> goes_on_with(m, outcome, below, marks)
            &&& stack.last() is None && crate::frame::admission::leaves_boundary(
                program,
                function,
                m.pc,
            ) && m.boundary.len() > 0 ==> (outcome matches Outcome::Next(n) && n.boundary
                == m.boundary.drop_last() && n.words == m.words && n.pc == m.pc + 1)
        }),
{
    let k = stack.len() as int;
    if stack.last() is Some {
        assert forall|i: int| k - 1 <= i < k implies #[trigger] stack[i] is Some by {}
    }
    let len = m.words.len() as int;
    assert(m.words.take(len - 1) =~= below);
    assert(m.refs.take(len - 1) =~= marks);
}

/// A return hands its caller the value it takes, and answers it where the entry
/// returns.
pub proof fn a_return_hands_over_the_value_it_takes(
    program: Program,
    m: Machine,
    value: Datum,
    rest: Machine,
)
    requires
        stands_at(program, m, Inst::Return),
        m.budget is None,
        crate::frame::machine::taken(
            program,
            m,
            program.functions@[m.frames.last().function.0 as int],
        ) == Some((value, rest)),
        m.frames.last().base <= rest.words.len(),
    ensures
        ({
            let outcome = crate::frame::machine::step(program, m);
            &&& m.frames.len() == 1 ==> (outcome matches Outcome::Answered(n, answer) && answer
                == value)
            &&& m.frames.len() > 1 ==> (outcome matches Outcome::Next(n) ==> n.boundary
                == rest.boundary.push(value) && n.frames == m.frames.drop_last() && n.pc
                == m.frames.last().return_pc && n.words == rest.words.take(
                m.frames.last().base as int,
            ))
        }),
{
}

/// A builtin call that builds no case hands over the builtin's name and its
/// arguments, and waits.
pub proof fn a_builtin_call_hands_over_its_arguments(
    program: Program,
    m: Machine,
    name: ConstId,
    argc: u32,
    kinds: Seq<Kind>,
)
    requires
        stands_at(program, m, Inst::MakeBuiltin { name, argc }),
        program.name_text(name) != "Ok"@,
        program.name_text(name) != "Err"@,
        program.name_text(name) != "Some"@,
        program.name_text(name) != "None"@,
        crate::frame::operands::boundary_kinds(
            crate::frame::operands::operands_of(
                program,
                program.functions@[m.frames.last().function.0 as int],
            ),
            m.pc,
            argc as int,
        ) == Some(kinds),
        crate::frame::machine::arguments(program, m, kinds) is Some,
    ensures
        crate::frame::machine::step(program, m) matches Outcome::Builtin(n, called, args, span) && {
            &&& called == program.name_text(name)
            &&& args == (crate::frame::machine::arguments(program, m, kinds)->0).0
            &&& n.words == m.words.take(m.words.len() - kinds.len())
            &&& n.pending == Pending::Builtin
            &&& n.pc == m.pc
            &&& n.frames == m.frames
        },
{
}

/// An entry that is refused ends in the first thing it is refused for, and one
/// that takes parameters in that it does, before anything runs; any other runs.
pub proof fn an_entry_runs_when_nothing_is_against_it(
    program: Program,
    m: Machine,
    module: Seq<char>,
    name: Seq<char>,
    entry: FunctionId,
    steps: nat,
)
    ensures
        ({
            let outcome = crate::frame::machine::entered(program, m, module, name, entry, steps);
            let refusals = crate::frame::admission::refusals_from(program, entry);
            let function = program.functions@[entry.0 as int];
            &&& refusals.len() > 0 ==> (outcome matches Outcome::Raised(n, failure) && n == m
                && failure.message == "the 8-byte frame cannot run "@ + refusals[0].what
                && failure.span == refusals[0].span)
            &&& refusals.len() == 0 && function.params@.len() > 0 ==> (outcome matches
            Outcome::Raised(n, failure) && n == m && failure.span == Some(function.span)
                && failure.message == "entry `"@ + module + "."@ + name + "` declares "@
                + crate::text::digits(function.params@.len())
                + " parameter(s), which the 8-byte frame cannot supply"@)
            &&& refusals.len() == 0 && function.params@.len() == 0 ==> outcome == (
            match crate::frame::machine::begun(program, m, entry) {
                Outcome::Next(n) => crate::frame::machine::ended(
                    crate::frame::machine::run_for(program, n, steps),
                ),
                other => crate::frame::machine::ended(other),
            })
        }),
{
}

/// A run takes one step after another and stops at the first that does not go
/// on.
pub proof fn a_run_takes_one_step_after_another(program: Program, m: Machine, steps: nat)
    ensures
        crate::frame::machine::run_for(program, m, 0) == Outcome::Next(m),
        steps > 0 ==> crate::frame::machine::run_for(program, m, steps) == (
        match crate::frame::machine::step(program, m) {
            Outcome::Next(n) => crate::frame::machine::run_for(program, n, (steps - 1) as nat),
            other => other,
        }),
{
}

/// Only a run that waits for nothing, in a frame and at an instruction of its
/// function, takes a step.
pub proof fn only_a_standing_run_takes_a_step(program: Program, m: Machine)
    requires
        m.pending != Pending::Nothing || m.frames.len() == 0 || m.pc < 0 || m.pc
            >= program.functions@[m.frames.last().function.0 as int].code@.len(),
    ensures
        crate::frame::machine::step(program, m) is Stuck,
{
}

/// Every value that crosses is counted: the arguments of a host call, what a
/// host answers that stays outside the stack, and the value a frame returns.
pub proof fn what_crosses_is_counted(
    program: Program,
    m: Machine,
    module: ConstId,
    op: ConstId,
    argc: u32,
    value: Datum,
)
    requires
        0 <= m.materialized,
        m.materialized + argc < u64::MAX,
    ensures
        stands_at(program, m, Inst::CallHost { module, op, argc }) ==> (
        crate::frame::machine::step(program, m) matches Outcome::Host(n, a, b, c, d)
            ==> n.materialized == m.materialized + argc),
        crate::frame::machine::answer_kept(m, value) matches Outcome::Next(n) && n.materialized
            == m.materialized + 1 && n.boundary == m.boundary.push(value),
        stands_at(program, m, Inst::Return) && m.frames.len() == 1 && m.budget is None ==> (
        crate::frame::machine::step(program, m) matches Outcome::Answered(n, answer)
            ==> n.materialized == m.materialized + 1),
{
}

/// Wherever control lands, the block that begins there is charged: after a
/// jump, a branch, a call and a return of a word, the count of instructions has
/// grown by what the function that then runs charges there.
pub proof fn where_control_lands_is_charged(program: Program, m: Machine, inst: Inst)
    requires
        stands_at(program, m, inst),
        inst is Jump || inst is JumpIfFalse || inst is JumpIfTrue || inst is JumpIfFalseScalar
            || inst is JumpIfTrueScalar || inst is Call || inst is ReturnScalar,
        0 <= m.instructions,
        m.instructions + 0xffff_ffff <= u64::MAX,
    ensures
        crate::frame::machine::step(program, m) matches Outcome::Next(n) ==> n.instructions
            == m.instructions + program.functions@[n.frames.last().function.0 as int].block_fuel@[n.pc],
{
}

proof fn lemma_leaving_is_charged(program: Program, m: Machine, value: Datum)
    requires
        m.frames.len() > 0,
        0 <= m.instructions,
        m.instructions + 0xffff_ffff <= u64::MAX,
    ensures
        crate::frame::machine::leave(program, m, value) matches Outcome::Next(n) ==> n.instructions
            == m.instructions + program.functions@[n.frames.last().function.0 as int].block_fuel@[n.pc],
{
}

/// After a return of a value, and after a `?` that leaves its frame or goes on,
/// the count of instructions has grown by what the function that then runs
/// charges where control is.
#[verifier::spinoff_prover]
pub proof fn where_a_value_is_returned_to_is_charged(program: Program, m: Machine, inst: Inst)
    requires
        stands_at(program, m, inst),
        inst is Return || inst is Try,
        0 <= m.instructions,
        m.instructions + 0xffff_ffff <= u64::MAX,
    ensures
        crate::frame::machine::step(program, m) matches Outcome::Next(n) ==> n.instructions
            == m.instructions + program.functions@[n.frames.last().function.0 as int].block_fuel@[n.pc],
{
    let function = program.functions@[m.frames.last().function.0 as int];
    let span = function.spot(m.pc);
    if inst is Return {
        let n = crate::frame::machine::safepoint(m, span);
        if n is Ok {
            let n = n->Ok_0.materializing(1);
            let found = crate::frame::machine::taken(program, n, function);
            if found is Some {
                lemma_leaving_is_charged(program, (found->0).1, (found->0).0);
            }
        }
    } else {
        let found = crate::frame::machine::taken(program, m, function);
        if found is Some {
            let n = (found->0).1.materializing(1);
            let after = crate::frame::machine::safepoint(n, span);
            if after is Ok {
                if let Some(Err(value)) = crate::frame::machine::tried((found->0).0) {
                    lemma_leaving_is_charged(program, after->Ok_0, value);
                }
            }
        }
    }
}

/// A jump takes a safepoint where it goes back and enough has gathered, or
/// where enough has gathered once the block it lands on is charged; and what is
/// charged and not yet handed over is the rest.
pub proof fn a_jump_takes_a_safepoint_where_enough_has_gathered(
    program: Program,
    m: Machine,
    to: u32,
)
    requires
        stands_at(program, m, Inst::Jump(to)),
        to < program.functions@[m.frames.last().function.0 as int].code@.len(),
        m.budget is None,
        0 <= m.fuel,
        m.fuel + 0xffff_ffff <= u64::MAX,
        0 <= m.instructions,
        m.instructions + 0xffff_ffff <= u64::MAX,
    ensures
        ({
            let block = program.functions@[m.frames.last().function.0 as int].block_fuel@[to as int];
            let back = to <= m.pc && m.fuel >= 64;
            let left = if back {
                0
            } else {
                m.fuel
            };
            crate::frame::machine::step(program, m) matches Outcome::Next(n) && {
                &&& n.safepoints == m.safepoints + (if back {
                    1int
                } else {
                    0
                }) + (if left + block >= 1024 {
                    1int
                } else {
                    0
                })
                &&& n.fuel == (if left + block >= 1024 {
                    0
                } else {
                    left + block
                })
            }
        }),
{
}

/// A call and a return take a safepoint each, before what they land on is
/// charged.
pub proof fn a_call_and_a_return_take_a_safepoint(program: Program, m: Machine, inst: Inst)
    requires
        stands_at(program, m, inst),
        inst is Call || inst is ReturnScalar || inst is Return,
    ensures
        crate::frame::machine::step(program, m) matches Outcome::Next(n) ==> n.safepoints
            >= m.safepoints + 1,
{
}

/// What building costs beside its instruction: a struct as much as it has
/// fields, and a field write as much as the object has words.
pub proof fn what_building_costs(
    program: Program,
    m: Machine,
    of: crate::ir::StructId,
    id: ConstId,
)
    requires
        0 <= m.fuel,
        m.fuel + 0xffff_ffff_ffff <= u64::MAX,
    ensures
        stands_at(program, m, Inst::MakeStruct(of))
            && program.structs@[of.0 as int].fields@.len() <= 0xffff_ffff ==> (
        crate::frame::machine::step(program, m) matches Outcome::Next(n) ==> n.fuel == m.fuel
            + program.structs@[of.0 as int].fields@.len()),
        stands_at(program, m, Inst::SetField(id)) && m.words.len() >= 2
            && m.objects[m.words[m.words.len() - 2]].words.len() <= 0xffff_ffff ==> (
        crate::frame::machine::step(program, m) matches Outcome::Next(n) ==> n.fuel == m.fuel
            + m.objects[m.words[m.words.len() - 2]].words.len()),
{
}

/// A backend that has run nothing has nothing on its stack, no frame, nothing
/// counted and nothing spent.
pub proof fn a_backend_begins_with_nothing(program: Program, budget: Option<Budget>)
    ensures
        ({
            let m = crate::frame::machine::initial(program, budget);
            &&& m.words.len() == 0 && m.refs.len() == 0 && m.frames.len() == 0
            &&& m.boundary.len() == 0
            &&& m.fuel == 0 && m.instructions == 0 && m.materialized == 0
            &&& m.allocated_objects == 0 && m.allocated_bytes == 0
            &&& m.high_water == 0 && m.safepoints == 0
            &&& m.budget == budget
            &&& m.pending == Pending::Nothing
            &&& m.assertion_failure is None
        }),
{
}

/// Each text a program comes with has a handle of its own, given out in order
/// from 1, and the next handle is the one after them.
pub proof fn each_text_has_a_handle_of_its_own(program: Program, a: ConstId, b: ConstId)
    requires
        a.0 < b.0 < program.constants@.len(),
        program.constants@[a.0 as int] is Str,
        program.constants@[b.0 as int] is Str,
        program.constants@.len() < u64::MAX,
    ensures
        1 <= crate::frame::machine::constant(program, a) < crate::frame::machine::constant(
            program,
            b,
        ) < crate::frame::machine::initial(program, None).next,
{
    let constants = program.constants@;
    lemma_const_handles(constants, a.0 as int, b.0 as int);
    lemma_const_handles(constants, b.0 as int, constants.len() as int);
}

/// A word stands for the integer it was made of, for the bool its two values
/// are, and for no bool besides; a handle is no value of its own.
pub proof fn a_word_stands_for_what_it_was_made_of(program: Program, n: i64, word: u64)
    ensures
        crate::frame::machine::scalar_datum(program, crate::frame::kinds::Part::Unit, word) == Some(
            Datum::Unit,
        ),
        crate::frame::machine::scalar_datum(
            program,
            crate::frame::kinds::Part::Int,
            crate::frame::word::int_word(n as int) as u64,
        ) == Some(Datum::Int(n as int)),
        crate::frame::machine::scalar_datum(program, crate::frame::kinds::Part::Bool, 0) == Some(
            Datum::Bool(false),
        ),
        crate::frame::machine::scalar_datum(program, crate::frame::kinds::Part::Bool, 1) == Some(
            Datum::Bool(true),
        ),
        word > 1 ==> crate::frame::machine::scalar_datum(program, crate::frame::kinds::Part::Bool, word)
            is None,
        crate::frame::machine::scalar_datum(program, crate::frame::kinds::Part::Nested, word) is None,
{
}

/// A float is shown as the first constant with its bits is, and not at all
/// where no constant has them.
pub proof fn a_float_is_shown_as_its_constant(constants: Seq<Const>, bits: u64, at: int)
    ensures
        0 <= at < constants.len() && (constants[at] matches Const::Float { bits: b, shown } && b
            == bits) && (forall|i: int|
            0 <= i < at ==> !(#[trigger] constants[i] is Float && constants[i]->bits == bits))
            ==> crate::frame::machine::float_shown(constants, bits) == Some(
            constants[at]->shown@,
        ),
        (forall|i: int|
            0 <= i < constants.len() ==> !(#[trigger] constants[i] is Float && constants[i]->bits
                == bits)) ==> crate::frame::machine::float_shown(constants, bits) is None,
    decreases constants.len(),
{
    if constants.len() > 0 {
        let rest = constants.skip(1);
        assert(forall|i: int| 0 <= i < rest.len() ==> #[trigger] rest[i] == constants[i + 1]);
        a_float_is_shown_as_its_constant(rest, bits, at - 1);
    }
}

/// An error that a host answers is made of the text of its message alone, and
/// what is no error of the empty text; a message that is no text is not made.
pub proof fn an_error_is_made_of_its_message(m: Machine, value: Datum, text: Seq<char>)
    requires
        0 <= m.next,
    ensures
        ({
            let made = crate::frame::machine::worded(m, value, HostType::Error);
            let of_text = crate::frame::machine::worded(m, Datum::Str(text), HostType::String);
            let none: Seq<char> = Seq::empty();
            let of_none = crate::frame::machine::worded(m, Datum::Str(none), HostType::String);
            let whole = made->0;
            let told = of_text->0;
            let empty = of_none->0;
            &&& (value matches Datum::Struct(kind_name, fields) && kind_name == "Error"@
                && fields.len() > 0 && fields[0] == ("message"@, Datum::Str(text))) && made is Some
                ==> {
                &&& of_text is Some
                &&& whole.1.objects[whole.0].words == seq![told.0]
                &&& whole.1.objects[whole.0].plan.refs == seq![true]
                &&& whole.1.objects[told.0] == told.1.objects[told.0]
            }
            &&& (value matches Datum::Struct(kind_name, fields) && kind_name == "Error"@
                && fields.len() > 0 && fields[0].0 == "message"@ && !(fields[0].1 is Str))
                ==> made is None
            &&& !(value matches Datum::Struct(kind_name, fields) && kind_name == "Error"@
                && fields.len() > 0 && fields[0].0 == "message"@) && made is Some ==> {
                &&& of_none is Some
                &&& whole.1.objects[whole.0].words == seq![empty.0]
                &&& whole.1.objects[whole.0].plan.refs == seq![true]
                &&& whole.1.objects[empty.0] == empty.1.objects[empty.0]
            }
        }),
{
}

} // verus!
