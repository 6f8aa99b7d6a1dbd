//! What the words of a run are: the types of a program, and what it is for a
//! run to keep to them.
use crate::frame::balance::{Data, Mark, Move, Ty, Types};
use crate::frame::kinds::{Held, Kind, Part};
use crate::frame::machine::{Call, Machine, MAX_CALL_DEPTH};
use crate::ir::{Inst, Program};
use crate::slot::{Form, Object, Plan};
use crate::value::Datum;
use vstd::prelude::*;

verus! {

/// A word of this type is marked as a handle.
pub open spec fn refers(ty: Ty) -> bool {
    ty is Object || ty is Unset
}

/// A word is of a type, where it is no handle of an object.
pub open spec fn plain_fits(program: Program, word: u64, ty: Ty) -> bool {
    match ty {
        Ty::Bool => word <= 1,
        Ty::Tests(_) => word <= 1,
        Ty::Float => crate::frame::machine::float_shown(program.constants@, word) is Some,
        Ty::Object(_) => false,
        _ => true,
    }
}

/// A word is of a type: a handle names an object of one of the sorts its type
/// lists, and so do the handles in it.
pub open spec fn fits(
    program: Program,
    types: Types,
    objects: Map<u64, Object>,
    word: u64,
    ty: Ty,
) -> bool
    decreases word,
{
    match ty {
        Ty::Object(id) => {
            let object = objects[word];
            let tys = types.sorts(id)[object.plan];
            &&& objects.dom().contains(word)
            &&& types.sorts(id).dom().contains(object.plan)
            &&& object.plan.form is Text ==> crate::frame::machine::packs_text(object.words)
            &&& !(object.plan.form is Text) ==> tys.len() == object.words.len()
                && object.plan.refs.len() == tys.len() && forall|i: int|
                #![trigger tys[i]]
                0 <= i < tys.len() ==> if tys[i] is Object {
                    object.words[i] < word && fits(program, types, objects, object.words[i], tys[i])
                } else {
                    plain_fits(program, object.words[i], tys[i])
                }
        },
        _ => plain_fits(program, word, ty),
    }
}

/// A value is what is said of it.
pub open spec fn data_is(value: Datum, data: Data) -> bool
    decreases data,
{
    match data {
        Data::Any => true,
        Data::Int => value is Int,
        Data::Bool => value is Bool,
        Data::Opens(inner) => crate::frame::machine::tried(value) matches Some(Ok(opened))
            ==> data_is(opened, *inner),
    }
}

/// What is said of a value says what is asked of it.
pub open spec fn data_sub(data: Data, asked: Data) -> bool {
    data == asked || asked is Any
}

/// The word of a test, taken for itself.
pub open spec fn plain(ty: Ty) -> Ty {
    if ty is Tests {
        Ty::Bool
    } else {
        ty
    }
}

/// A word, taken as a scalar.
pub open spec fn scalar(ty: Ty) -> Ty {
    if refers(ty) {
        Ty::Word
    } else {
        plain(ty)
    }
}

/// Every word of one type is of the other.
pub open spec fn within(types: Types, a: Ty, b: Ty) -> bool {
    ||| a == b
    ||| b is Word && !refers(a)
    ||| b is Bool && a is Tests
    ||| b is Unset && refers(a)
    ||| a is Object && b is Object && listed_in(types, a->Object_0, b->Object_0)
}

/// The sorts under one number are among those under another.
pub open spec fn listed_in(types: Types, a: int, b: int) -> bool {
    forall|plan: Plan| #[trigger]
        types.sorts(a).dom().contains(plan) ==> types.sorts(b).dom().contains(plan)
            && types.sorts(b)[plan] == types.sorts(a)[plan]
}

/// An object of this sort is the case a test asks about.
pub open spec fn plan_is(plan: Plan, name: Seq<char>) -> bool {
    plan.case matches Some(pair) && crate::frame::layout::is_case(pair.0, pair.1, name)
}

/// A handle names an object that is the case a test asks about.
pub open spec fn is_the_case(objects: Map<u64, Object>, word: u64, name: Seq<char>) -> bool {
    objects.dom().contains(word) && plan_is(objects[word].plan, name)
}

/// An object of one of the sorts of a type is of another once a test of it was
/// answered.
pub open spec fn narrowed(types: Types, a: Ty, b: Ty, name: Seq<char>, yes: bool) -> bool {
    within(types, a, b) || (a is Object && b is Object && forall|plan: Plan| #[trigger]
        types.sorts(a->Object_0).dom().contains(plan) && plan_is(plan, name) == yes
            ==> types.sorts(b->Object_0).dom().contains(plan)
            && types.sorts(b->Object_0)[plan] == types.sorts(a->Object_0)[plan])
}

/// An operand of a known kind is a word of that kind: one that crosses, where
/// the kind says so.
pub open spec fn kind_holds(
    program: Program,
    objects: Map<u64, Object>,
    kind: Kind,
    word: u64,
    is_ref: bool,
) -> bool {
    &&& is_ref == kind.refers()
    &&& kind != Kind::Reference ==> crate::frame::machine::crossed(
        program,
        objects,
        kind,
        word,
        is_ref,
    ) is Some
}

// ------------------------------------------------------------- a run

/// An operand is of its type, and a test says of the word below what it says.
pub open spec fn operand_is(
    program: Program,
    types: Types,
    m: Machine,
    from: int,
    tys: Seq<Ty>,
    p: int,
) -> bool {
    &&& m.refs[from + p] == refers(tys[p])
    &&& fits(program, types, m.objects, m.words[from + p], tys[p])
    &&& tys[p] is Tests ==> p > 0 && tys[p - 1] is Object && (m.words[from + p] == 1 <==> is_the_case(
        m.objects,
        m.words[from + p - 1],
        tys[p]->Tests_0,
    ))
}

pub open spec fn operands_are(
    program: Program,
    types: Types,
    m: Machine,
    from: int,
    tys: Seq<Ty>,
    count: int,
) -> bool {
    forall|p: int| 0 <= p < count ==> #[trigger] operand_is(program, types, m, from, tys, p)
}

/// A slot is of its type, and marked as a handle where it holds one.
pub open spec fn local_is(
    program: Program,
    types: Types,
    m: Machine,
    call: Call,
    tys: Seq<Ty>,
    i: int,
) -> bool {
    &&& m.refs[call.base + i] == (program.func(call.function).slots@[i] is Value)
    &&& fits(program, types, m.objects, m.words[call.base + i], tys[i])
}

pub open spec fn locals_are(
    program: Program,
    types: Types,
    m: Machine,
    call: Call,
    tys: Seq<Ty>,
) -> bool {
    forall|i: int|
        0 <= i < program.func(call.function).slots@.len() ==> #[trigger] local_is(
            program,
            types,
            m,
            call,
            tys,
            i,
        )
}

/// The values kept over the boundary are what is said of them.
pub open spec fn kept_are(m: Machine, low: int, kept: Seq<Data>, count: int) -> bool {
    forall|i: int| 0 <= i < count ==> data_is(m.boundary[low + i], #[trigger] kept[i])
}

/// The operands of known kinds are of them.
pub open spec fn kinds_hold(
    program: Program,
    m: Machine,
    from: int,
    held: Seq<Held>,
    values: Seq<Option<int>>,
    count: int,
) -> bool {
    forall|i: int|
        0 <= i < count && (#[trigger] held[i]) is Some ==> values[i] is Some && kind_holds(
            program,
            m.objects,
            held[i]->0,
            m.words[from + values[i]->0],
            m.refs[from + values[i]->0],
        )
}

/// A call that stands at an instruction, some operands taken, keeps to its
/// types.
#[verifier::opaque]
pub open spec fn typed_call(
    program: Program,
    types: Types,
    m: Machine,
    call: Call,
    mark: Mark,
    pc: int,
    by: Move,
) -> bool {
    let s = types.stand(call.function, pc);
    let from = crate::frame::balance::operands_from(program, call);
    let held = crate::frame::operands::along(program, program.func(call.function), mark.path);
    &&& operands_are(program, types, m, from, s.words, s.words.len() - by.words)
    &&& locals_are(program, types, m, call, s.locals)
    &&& kept_are(m, mark.low, s.kept, s.kept.len() - by.kept)
    &&& kinds_hold(program, m, from, held, s.values, held.len() - by.values)
}

/// What a waiting call has taken.
pub open spec fn taken_by(program: Program, caller: Call, call: Call) -> Move {
    match program.func(caller.function).code@[call.return_pc - 1] {
        Inst::Call { function: target, scalar_argc, value_argc, place_argc: _ } =>
            crate::frame::balance::call_move(
                program,
                target,
                scalar_argc as int,
                value_argc as int,
            ),
        _ => crate::frame::balance::no_move(),
    }
}

/// Every call but the last keeps to its types, and there is room for all.
#[verifier::opaque]
pub open spec fn typed_callers(
    program: Program,
    types: Types,
    room: int,
    m: Machine,
    marks: Seq<Mark>,
) -> bool {
    &&& m.frames.len() <= MAX_CALL_DEPTH
    &&& forall|i: int| 0 <= i < m.frames.len() ==> (#[trigger] m.frames[i]).base <= i * room
    &&& forall|i: int, j: int|
        #![trigger marks[i], marks[j]]
        0 <= i <= j < marks.len() ==> 0 <= marks[i].low <= marks[j].low
    &&& forall|i: int, j: int|
        #![trigger m.frames[i], m.frames[j]]
        0 <= i && j == i + 1 && j < m.frames.len() ==> typed_call(
            program,
            types,
            m,
            m.frames[i],
            marks[i],
            m.frames[j].return_pc - 1,
            taken_by(program, m.frames[i], m.frames[j]),
        )
}

/// The objects of a run: handles are given out in order, and the program's
/// texts stand where they were made.
pub open spec fn objects_stand(program: Program, m: Machine) -> bool {
    &&& 1 <= m.next <= u64::MAX
    &&& forall|h: u64| #[trigger] m.objects.dom().contains(h) ==> h < m.next
    &&& forall|id: int|
        0 <= id < program.constants@.len() && #[trigger] program.constants@[id] is Str ==> {
            let handle = crate::frame::machine::const_handle(program.constants@, id);
            let text = program.constants@[id]->Str_0@;
            &&& 0 <= handle <= u64::MAX
            &&& m.objects.dom().contains(handle as u64)
            &&& m.objects[handle as u64] == (Object {
                plan: crate::frame::machine::text_plan(),
                words: crate::frame::packing::packed(vstd::utf8::encode_utf8(text)),
            })
        }
}

/// A run keeps to its types, some operands taken.
pub open spec fn typed_by(
    program: Program,
    types: Types,
    room: int,
    m: Machine,
    marks: Seq<Mark>,
    by: Move,
) -> bool {
    &&& objects_stand(program, m)
    &&& typed_callers(program, types, room, m, marks)
    &&& typed_call(program, types, m, m.frames.last(), marks.last(), m.pc, by)
}

// --------------------------------------------------------- more objects

/// Objects are added to, and none is lost or changed.
pub open spec fn later(before: Map<u64, Object>, after: Map<u64, Object>) -> bool {
    forall|h: u64| #[trigger]
        before.dom().contains(h) ==> after.dom().contains(h) && after[h] == before[h]
}

pub proof fn lemma_fits_later(
    program: Program,
    types: Types,
    before: Map<u64, Object>,
    after: Map<u64, Object>,
    word: u64,
    ty: Ty,
)
    requires
        later(before, after),
        fits(program, types, before, word, ty),
    ensures
        fits(program, types, after, word, ty),
    decreases word,
{
    if let Ty::Object(id) = ty {
        let object = before[word];
        let tys = types.sorts(id)[object.plan];
        if !(object.plan.form is Text) {
            assert forall|i: int|
                #![trigger tys[i]]
                0 <= i < tys.len() implies if tys[i] is Object {
                object.words[i] < word && fits(program, types, after, object.words[i], tys[i])
            } else {
                plain_fits(program, object.words[i], tys[i])
            } by {
                if tys[i] is Object {
                    lemma_fits_later(program, types, before, after, object.words[i], tys[i]);
                }
            }
        }
    }
}

pub proof fn lemma_datum_later(
    program: Program,
    before: Map<u64, Object>,
    after: Map<u64, Object>,
    handle: u64,
)
    requires
        later(before, after),
        crate::frame::machine::datum_at(program, before, handle) is Some,
    ensures
        crate::frame::machine::datum_at(program, after, handle)
            == crate::frame::machine::datum_at(program, before, handle),
    decreases handle, 1int, 0int,
{
    match before[handle].plan.form {
        Form::Case { kind_name, case, payload } => {
            lemma_parts_later(program, before, after, handle, payload, payload.len() as int);
        },
        Form::Record { kind_name, fields } => {
            lemma_parts_later(
                program,
                before,
                after,
                handle,
                Seq::new(fields.len(), |i: int| fields[i].1),
                fields.len() as int,
            );
        },
        _ => {},
    }
}

proof fn lemma_parts_later(
    program: Program,
    before: Map<u64, Object>,
    after: Map<u64, Object>,
    handle: u64,
    parts: Seq<Part>,
    count: int,
)
    requires
        later(before, after),
        before.dom().contains(handle),
        crate::frame::machine::parts_at(program, before, handle, parts, count) is Some,
    ensures
        crate::frame::machine::parts_at(program, after, handle, parts, count)
            == crate::frame::machine::parts_at(program, before, handle, parts, count),
    decreases handle, 0int, count,
{
    if count > 0 {
        let at = count - 1;
        lemma_parts_later(program, before, after, handle, parts, at);
        let held = before[handle];
        if parts[at] == Part::Nested {
            lemma_datum_later(program, before, after, held.words[at]);
        }
        assert(crate::frame::machine::part_at(program, after, handle, at, parts[at])
            == crate::frame::machine::part_at(program, before, handle, at, parts[at]));
    }
}

pub proof fn lemma_kind_later(
    program: Program,
    before: Map<u64, Object>,
    after: Map<u64, Object>,
    kind: Kind,
    word: u64,
    is_ref: bool,
)
    requires
        later(before, after),
        kind_holds(program, before, kind, word, is_ref),
    ensures
        kind_holds(program, after, kind, word, is_ref),
{
    if kind is Str || kind is Enum {
        lemma_datum_later(program, before, after, word);
    }
}

/// A word of a type is of a wider one.
pub proof fn lemma_within(
    program: Program,
    types: Types,
    objects: Map<u64, Object>,
    word: u64,
    a: Ty,
    b: Ty,
)
    requires
        fits(program, types, objects, word, a),
        within(types, a, b),
    ensures
        fits(program, types, objects, word, b),
        refers(a) == refers(b),
{
}

/// A word of a type that was tested is of what is left of it.
pub proof fn lemma_narrowed(
    program: Program,
    types: Types,
    objects: Map<u64, Object>,
    word: u64,
    a: Ty,
    b: Ty,
    name: Seq<char>,
    yes: bool,
)
    requires
        fits(program, types, objects, word, a),
        narrowed(types, a, b, name, yes),
        a is Object ==> is_the_case(objects, word, name) == yes,
    ensures
        fits(program, types, objects, word, b),
        refers(a) == refers(b),
{
    if !within(types, a, b) {
        assert(types.sorts(a->Object_0).dom().contains(objects[word].plan));
    } else {
        lemma_within(program, types, objects, word, a, b);
    }
}

/// A call keeps to its types in a run that has the same words and values where
/// the call has its own, and no fewer objects.
pub proof fn lemma_call_elsewhere(
    program: Program,
    types: Types,
    m: Machine,
    call: Call,
    mark: Mark,
    pc: int,
    by: Move,
    n: Machine,
    words: int,
    boundary: int,
)
    requires
        typed_call(program, types, m, call, mark, pc, by),
        crate::frame::balance::part_way(
            program,
            types,
            call,
            mark,
            pc,
            by,
            words,
            boundary,
            m.refs,
        ),
        later(m.objects, n.objects),
        forall|i: int|
            0 <= i < words ==> #[trigger] n.words[i] == m.words[i] && n.refs[i] == m.refs[i],
        forall|i: int| 0 <= i < boundary ==> #[trigger] n.boundary[i] == m.boundary[i],
    ensures
        typed_call(program, types, n, call, mark, pc, by),
{
    reveal(typed_call);
    let s = types.stand(call.function, pc);
    let from = crate::frame::balance::operands_from(program, call);
    let held = crate::frame::operands::along(program, program.func(call.function), mark.path);
    assert forall|p: int| 0 <= p < s.words.len() - by.words implies #[trigger] operand_is(
        program,
        types,
        n,
        from,
        s.words,
        p,
    ) by {
        assert(operand_is(program, types, m, from, s.words, p));
        assert(n.words[from + p] == m.words[from + p]);
        lemma_fits_later(
            program,
            types,
            m.objects,
            n.objects,
            m.words[from + p],
            s.words[p],
        );
        if s.words[p] is Tests {
            assert(operand_is(program, types, m, from, s.words, p - 1));
            assert(n.words[from + p - 1] == m.words[from + p - 1]);
            lemma_case_later(m.objects, n.objects, m.words[from + p - 1], s.words[p]->Tests_0);
        }
    }
    assert forall|i: int|
        0 <= i < program.func(call.function).slots@.len() implies #[trigger] local_is(
        program,
        types,
        n,
        call,
        s.locals,
        i,
    ) by {
        assert(local_is(program, types, m, call, s.locals, i));
        assert(n.words[call.base + i] == m.words[call.base + i]);
        lemma_fits_later(
            program,
            types,
            m.objects,
            n.objects,
            m.words[call.base + i],
            s.locals[i],
        );
    }
    assert forall|i: int|
        0 <= i < held.len() - by.values && (#[trigger] held[i]) is Some implies s.values[i] is Some
        && kind_holds(
        program,
        n.objects,
        held[i]->0,
        n.words[from + s.values[i]->0],
        n.refs[from + s.values[i]->0],
    ) by {
        let p = s.values[i]->0;
        assert(s.values[i] matches Some(p) ==> 0 <= p < s.words.len() - by.words);
        assert(n.words[from + p] == m.words[from + p]);
        lemma_kind_later(
            program,
            m.objects,
            n.objects,
            held[i]->0,
            m.words[from + p],
            m.refs[from + p],
        );
    }
}

/// What a test asks of a handle that names nothing yet may come to be said
/// later, so a test stands over a handle that names something.
proof fn lemma_case_later(
    before: Map<u64, Object>,
    after: Map<u64, Object>,
    word: u64,
    name: Seq<char>,
)
    requires
        later(before, after),
    ensures
        before.dom().contains(word) ==> is_the_case(after, word, name) == is_the_case(
            before,
            word,
            name,
        ),
{
}

} // verus!
