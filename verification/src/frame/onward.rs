//! An admitted run goes on, at the instructions that reach over the boundary.
use crate::frame::balance::{Mark, Out, Ty, Types};
use crate::frame::kinds::{Kind, Part};
use crate::frame::machine::{Machine, Outcome};
use crate::ir::{FunctionId, Inst, Program};
use crate::slot::Object;
use vstd::prelude::*;

verus! {

/// The operands on top whose kinds the simulation knows are of them.
#[verifier::spinoff_prover]
proof fn lemma_top_kinds(
    program: Program,
    types: Types,
    entry: FunctionId,
    room: int,
    m: Machine,
    marks: Seq<Mark>,
    count: int,
    i: int,
)
    requires
        crate::frame::typed::ready(program, types, entry, room, m, marks),
        0 <= i < count,
        ({
            let function = crate::frame::machine::running(program, m);
            let s = types.stand(m.frames.last().function, m.pc);
            let at = crate::frame::machine::standing(program, function);
            crate::frame::balance::on_top(s.values, count, s.words.len() as int)
                && crate::frame::operands::kinds_at(at, m.pc, count) is Some
        }),
    ensures
        ({
            let function = crate::frame::machine::running(program, m);
            let at = crate::frame::machine::standing(program, function);
            let kinds = crate::frame::operands::kinds_at(at, m.pc, count)->0;
            &&& kinds.len() == count
            &&& count <= m.words.len()
            &&& crate::frame::typing::kind_holds(
                program,
                m.objects,
                kinds[i],
                m.words[m.words.len() - count + i],
                m.refs[m.refs.len() - count + i],
            )
        }),
{
    crate::frame::typed::lemma_rules(program, types, entry, room, m, marks);
    let s = types.stand(m.frames.last().function, m.pc);
    let k = s.values.len() - count + i;
    crate::frame::typed::lemma_known(program, types, entry, room, m, marks, k);
    let function = crate::frame::machine::running(program, m);
    let at = crate::frame::machine::standing(program, function);
    let stack = at[m.pc]->0;
    assert(stack[k] is Some);
    assert(s.values[k] == Some(s.words.len() - s.values.len() + k));
}

/// Operands that are known to cross are handed over.
proof fn lemma_all_cross(
    program: Program,
    objects: Map<u64, Object>,
    kinds: Seq<Kind>,
    words: Seq<u64>,
    refs: Seq<bool>,
    count: int,
)
    requires
        0 <= count <= kinds.len(),
        forall|i: int|
            0 <= i < kinds.len() ==> crate::frame::machine::crossed(
                program,
                objects,
                #[trigger] kinds[i],
                words[i],
                refs[i],
            ) is Some,
    ensures
        crate::frame::machine::all_crossed(program, objects, kinds, words, refs, count) is Some,
    decreases count,
{
    if count > 0 {
        lemma_all_cross(program, objects, kinds, words, refs, count - 1);
        assert(crate::frame::machine::crossed(
            program,
            objects,
            kinds[count - 1],
            words[count - 1],
            refs[count - 1],
        ) is Some);
    }
}

#[verifier::spinoff_prover]
proof fn lemma_hands_over(
    program: Program,
    types: Types,
    entry: FunctionId,
    room: int,
    m: Machine,
    marks: Seq<Mark>,
    count: int,
)
    requires
        crate::frame::typed::ready(program, types, entry, room, m, marks),
        0 <= count,
        ({
            let function = crate::frame::machine::running(program, m);
            let s = types.stand(m.frames.last().function, m.pc);
            let at = crate::frame::machine::standing(program, function);
            let kinds = crate::frame::operands::kinds_at(at, m.pc, count);
            &&& crate::frame::balance::on_top(s.values, count, s.words.len() as int)
            &&& kinds is Some
            &&& forall|i: int| 0 <= i < count ==> #[trigger] (kinds->0)[i] != Kind::Reference
        }),
    ensures
        ({
            let function = crate::frame::machine::running(program, m);
            let at = crate::frame::machine::standing(program, function);
            let kinds = crate::frame::operands::kinds_at(at, m.pc, count)->0;
            crate::frame::machine::arguments(program, m, kinds) matches Some(pair) && pair.1
                == m.dropped(count)
        }),
{
    crate::frame::typed::lemma_rules(program, types, entry, room, m, marks);
    let function = crate::frame::machine::running(program, m);
    let at = crate::frame::machine::standing(program, function);
    let kinds = crate::frame::operands::kinds_at(at, m.pc, count)->0;
    assert(kinds.len() == count);
    let words = m.words.skip(m.words.len() - count);
    let refs = m.refs.skip(m.refs.len() - count);
    assert forall|i: int| 0 <= i < kinds.len() implies crate::frame::machine::crossed(
        program,
        m.objects,
        #[trigger] kinds[i],
        words[i],
        refs[i],
    ) is Some by {
        lemma_top_kinds(program, types, entry, room, m, marks, count, i);
    }
    lemma_all_cross(program, m.objects, kinds, words, refs, count);
}

/// Every kind of a list renders, where none was found that does not.
proof fn lemma_all_render(kinds: Seq<Kind>, i: int)
    requires
        crate::frame::admission::first_unrendered(kinds) is None,
        0 <= i < kinds.len(),
    ensures
        crate::frame::admission::renders(kinds[i]),
    decreases kinds.len(),
{
    if i > 0 {
        lemma_all_render(kinds.skip(1), i - 1);
    }
}

/// Every text an interpolation makes is short enough to say how long it is.
pub open spec fn says_its_length(program: Program, m: Machine) -> bool {
    let function = crate::frame::machine::running(program, m);
    function.code@[m.pc] matches Inst::Concat(count) ==> {
        let at = crate::frame::machine::standing(program, function);
        let kinds = crate::frame::operands::kinds_at(at, m.pc, count as int)->0;
        crate::frame::machine::arguments(program, m, kinds) matches Some(pair)
            ==> vstd::utf8::encode_utf8(crate::frame::machine::all_shown(pair.0)).len() <= u64::MAX
    }
}

#[verifier::spinoff_prover]
pub proof fn lemma_interpolates(
    program: Program,
    types: Types,
    entry: FunctionId,
    room: int,
    m: Machine,
    marks: Seq<Mark>,
)
    requires
        crate::frame::typed::ready(program, types, entry, room, m, marks),
        m.next < u64::MAX,
        says_its_length(program, m),
        crate::frame::machine::running(program, m).code@[m.pc] is Concat,
    ensures
        crate::frame::progress::stepped_well(
            program,
            types,
            room,
            m,
            marks,
            crate::frame::machine::step(program, m),
        ),
{
    crate::frame::typed::lemma_rules(program, types, entry, room, m, marks);
    crate::frame::typed::lemma_moves(program, types, entry, room, m, marks);
    crate::frame::progress::lemma_typed_at(program, types, entry, room, m, marks);
    let function = crate::frame::machine::running(program, m);
    let inst = function.code@[m.pc];
    let count = inst->Concat_0 as int;
    let at = crate::frame::machine::standing(program, function);
    let kinds = crate::frame::operands::kinds_at(at, m.pc, count)->0;
    let t = types.stand(m.frames.last().function, m.pc + 1);
    assert forall|i: int| 0 <= i < count implies #[trigger] kinds[i] != Kind::Reference by {
        lemma_all_render(kinds, i);
    }
    lemma_hands_over(program, types, entry, room, m, marks, count);
    let pair = crate::frame::machine::arguments(program, m, kinds)->0;
    let text = crate::frame::machine::all_shown(pair.0);
    let words = crate::frame::packing::packed(vstd::utf8::encode_utf8(text));
    let plan = crate::frame::machine::text_plan();
    if let Outcome::Next(n) = crate::frame::machine::step(program, m) {
        assert(n.objects == m.making(plan, words).objects);
        crate::frame::progress::lemma_one_more(program, m, plan, words, n);
        crate::frame::progress::lemma_text_stands(
            program,
            types,
            n.objects,
            m.next as u64,
            text,
            t.words.last(),
        );
        crate::frame::progress::lemma_put(
            program,
            types,
            m,
            crate::frame::balance::moves(count, count, Out::Value),
            Some(Kind::Str),
            m.next as u64,
            true,
            n,
        );
        crate::frame::typed::lemma_straight(program, types, entry, room, m, marks, n);
    }
}

/// A field written leaves an object of the type its handle has.
#[verifier::spinoff_prover]
proof fn lemma_changed(
    program: Program,
    types: Types,
    m: Machine,
    target: u64,
    of: Ty,
    at: int,
    word: u64,
    put: Ty,
    ty: Ty,
)
    requires
        crate::frame::typing::objects_stand(program, m),
        m.next < u64::MAX,
        crate::frame::rules::sorts_stand(types),
        crate::frame::typing::fits(program, types, m.objects, target, of),
        crate::frame::typing::fits(program, types, m.objects, word, put),
        crate::frame::rules::changes(types, of, at, put, ty),
    ensures
        m.objects.dom().contains(target),
        ({
            let object = m.objects[target];
            let words = object.words.update(at, word);
            &&& 0 <= at < object.words.len()
            &&& object.is_ref(at) ==> crate::frame::typing::refers(put)
            &&& crate::frame::typing::refers(ty)
            &&& crate::frame::typing::fits(
                program,
                types,
                m.making(object.plan, words).objects,
                m.next as u64,
                ty,
            )
        }),
{
    let object = m.objects[target];
    let plan = object.plan;
    let words = object.words.update(at, word);
    assert(types.sorts(of->Object_0).dom().contains(plan));
    let before = types.sorts(of->Object_0)[plan];
    assert(before == crate::frame::rules::sort(types, of, plan));
    assert(crate::frame::rules::sort_stands(before, plan));
    if ty is Object {
        let after = crate::frame::rules::sort(types, ty, plan);
        assert forall|i: int| 0 <= i < words.len() implies crate::frame::typing::fits(
            program,
            types,
            m.objects,
            words[i],
            #[trigger] crate::frame::rules::sort(types, ty, plan)[i],
        ) by {
            if i == at {
                let a = crate::frame::rules::put_as(plan.refs[at], put);
                assert(crate::frame::typing::fits(program, types, m.objects, word, a));
                crate::frame::typing::lemma_within(program, types, m.objects, word, a, after[at]);
            } else {
                assert(!(before[i] is Tests));
                assert(crate::frame::typing::fits(
                    program,
                    types,
                    m.objects,
                    object.words[i],
                    before[i],
                ));
                assert(crate::frame::typing::within(types, before[i], after[i]));
                crate::frame::typing::lemma_within(
                    program,
                    types,
                    m.objects,
                    object.words[i],
                    before[i],
                    after[i],
                );
            }
        }
    }
    crate::frame::progress::lemma_makes(program, types, m, plan, words, ty);
}

#[verifier::spinoff_prover]
pub proof fn lemma_writes(
    program: Program,
    types: Types,
    entry: FunctionId,
    room: int,
    m: Machine,
    marks: Seq<Mark>,
)
    requires
        crate::frame::typed::ready(program, types, entry, room, m, marks),
        m.next < u64::MAX,
        crate::frame::machine::running(program, m).code@[m.pc] is SetField,
    ensures
        crate::frame::progress::stepped_well(
            program,
            types,
            room,
            m,
            marks,
            crate::frame::machine::step(program, m),
        ),
{
    crate::frame::typed::lemma_rules(program, types, entry, room, m, marks);
    crate::frame::typed::lemma_moves(program, types, entry, room, m, marks);
    crate::frame::progress::lemma_typed_at(program, types, entry, room, m, marks);
    let function = crate::frame::machine::running(program, m);
    let inst = function.code@[m.pc];
    let name = program.name_text(inst->SetField_0);
    let s = types.stand(m.frames.last().function, m.pc);
    let t = types.stand(m.frames.last().function, m.pc + 1);
    let n0 = s.words.len() as int;
    crate::frame::typed::lemma_operand(program, types, entry, room, m, marks, n0 - 1);
    crate::frame::typed::lemma_operand(program, types, entry, room, m, marks, n0 - 2);
    assert(exists|at: int| crate::frame::layout::settles(program, name, at));
    let at = choose|at: int| crate::frame::layout::settles(program, name, at);
    let target = m.words[m.words.len() - 2];
    lemma_changed(
        program,
        types,
        m,
        target,
        s.words[n0 - 2],
        at,
        m.top(),
        s.words[n0 - 1],
        t.words.last(),
    );
    let object = m.objects[target];
    let words = object.words.update(at, m.top());
    let n = m.dropped(2).making(object.plan, words).push(m.next as u64, true).fuelled(
        object.words.len() as int,
    ).advanced();
    assert(crate::frame::machine::step(program, m) == Outcome::Next(n));
    assert(n.objects == m.making(object.plan, words).objects);
    crate::frame::progress::lemma_one_more(program, m, object.plan, words, n);
    crate::frame::progress::lemma_put(
        program,
        types,
        m,
        crate::frame::balance::moves(2, 2, Out::Value),
        Some(Kind::Reference),
        m.next as u64,
        true,
        n,
    );
    crate::frame::typed::lemma_straight(program, types, entry, room, m, marks, n);
}

/// A builtin case of one value that crosses, or of none, crosses itself.
#[verifier::spinoff_prover]
proof fn lemma_case_crosses(
    program: Program,
    m: Machine,
    site: crate::frame::layout::Site,
    words: Seq<u64>,
    kind: Kind,
)
    requires
        crate::frame::typing::objects_stand(program, m),
        m.next < u64::MAX,
        crate::frame::layout::names_builtin_case(site.kind_name, site.case),
        words.len() == site.payload.len(),
        site.payload.len() <= 1,
        site.payload.len() == 1 ==> site.payload[0] == kind.as_part() && kind != Kind::Reference
            && kind != Kind::Enum && crate::frame::typing::kind_holds(
            program,
            m.objects,
            kind,
            words[0],
            kind.refers(),
        ),
    ensures
        crate::frame::typing::kind_holds(
            program,
            m.making(crate::frame::machine::site_plan(site), words).objects,
            Kind::Enum,
            m.next as u64,
            true,
        ),
{
    let plan = crate::frame::machine::site_plan(site);
    let after = m.making(plan, words).objects;
    let handle = m.next as u64;
    assert(crate::frame::typing::later(m.objects, after));
    assert(after[handle] == (Object { plan, words }));
    reveal_with_fuel(crate::frame::machine::parts_at, 2);
    if site.payload.len() == 1 {
        let part = site.payload[0];
        if part == Part::Nested {
            crate::frame::typing::lemma_datum_later(program, m.objects, after, words[0]);
            assert(after[handle].is_ref(0));
        }
        assert(crate::frame::machine::part_at(program, after, handle, 0, part) is Some);
        assert(crate::frame::machine::parts_at(program, after, handle, site.payload, 1) is Some);
    }
}

#[verifier::spinoff_prover]
pub proof fn lemma_builtins(
    program: Program,
    types: Types,
    entry: FunctionId,
    room: int,
    m: Machine,
    marks: Seq<Mark>,
)
    requires
        crate::frame::typed::ready(program, types, entry, room, m, marks),
        m.next < u64::MAX,
        ({
            let inst = crate::frame::machine::running(program, m).code@[m.pc];
            inst is MakeBuiltin || inst is CallHost
        }),
    ensures
        crate::frame::progress::stepped_well(
            program,
            types,
            room,
            m,
            marks,
            crate::frame::machine::step(program, m),
        ),
{
    crate::frame::typed::lemma_rules(program, types, entry, room, m, marks);
    crate::frame::typed::lemma_moves(program, types, entry, room, m, marks);
    let function = crate::frame::machine::running(program, m);
    let inst = function.code@[m.pc];
    let at = crate::frame::machine::standing(program, function);
    let argc = match inst {
        Inst::MakeBuiltin { name: _, argc } => argc as int,
        Inst::CallHost { module: _, op: _, argc } => argc as int,
        _ => 0,
    };
    let by = crate::frame::balance::move_of(program, function, m.pc)->0;
    let kinds = crate::frame::operands::boundary_kinds(at, m.pc, argc)->0;
    let built = crate::frame::layout::construction(program, at, m.pc, inst);
    if built is Some {
        lemma_builds_case(program, types, entry, room, m, marks);
    } else {
        lemma_hands_over(program, types, entry, room, m, marks, argc);
        let pair = crate::frame::machine::arguments(program, m, kinds)->0;
        crate::frame::truth::lemma_charged(pair.1.materializing(argc), 0, function.spot(m.pc));
        let done = crate::frame::machine::step(program, m);
        assert(m.boundary.take(m.boundary.len() as int) =~= m.boundary);
        if let Outcome::Host(n, _, _, _, _) = done {
            crate::frame::typed::lemma_taken_off(program, types, entry, room, m, marks, by, n);
            reveal(crate::frame::progress::waits_typed);
        }
        if let Outcome::Builtin(n, _, _, _) = done {
            crate::frame::typed::lemma_taken_off(program, types, entry, room, m, marks, by, n);
            reveal(crate::frame::progress::waits_typed);
        }
    }
}

#[verifier::spinoff_prover]
proof fn lemma_builds_case(
    program: Program,
    types: Types,
    entry: FunctionId,
    room: int,
    m: Machine,
    marks: Seq<Mark>,
)
    requires
        crate::frame::typed::ready(program, types, entry, room, m, marks),
        m.next < u64::MAX,
        ({
            let function = crate::frame::machine::running(program, m);
            let inst = function.code@[m.pc];
            let at = crate::frame::machine::standing(program, function);
            inst is MakeBuiltin && crate::frame::layout::construction(
                program,
                at,
                m.pc,
                inst,
            ) is Some
        }),
    ensures
        crate::frame::progress::stepped_well(
            program,
            types,
            room,
            m,
            marks,
            crate::frame::machine::step(program, m),
        ),
{
    crate::frame::typed::lemma_rules(program, types, entry, room, m, marks);
    crate::frame::typed::lemma_moves(program, types, entry, room, m, marks);
    crate::frame::progress::lemma_typed_at(program, types, entry, room, m, marks);
    let function = crate::frame::machine::running(program, m);
    let inst = function.code@[m.pc];
    let at = crate::frame::machine::standing(program, function);
    let argc = inst->MakeBuiltin_argc as int;
    let site = crate::frame::layout::construction(program, at, m.pc, inst)->0;
    let plan = crate::frame::machine::site_plan(site);
    crate::frame::truth::lemma_built_site(program, function, m.pc);
    assert(plan.refs.len() == argc);
    let words = m.words.skip(m.words.len() - argc);
    let kind = if argc == 1 {
        (crate::frame::operands::kinds_at(at, m.pc, 1)->0)[0]
    } else {
        Kind::Unit
    };
    if argc == 1 {
        lemma_top_kinds(program, types, entry, room, m, marks, 1, 0);
        assert(words[0] == m.top());
        let kinds = crate::frame::operands::boundary_kinds(at, m.pc, 1)->0;
        assert(kinds[0] == kind);
    }
    lemma_case_crosses(program, m, site, words, kind);
    crate::frame::progress::lemma_builds(program, types, entry, room, m, marks, plan, 0);
}

/// A value that stands on the stack for certain is taken from it.
#[verifier::spinoff_prover]
pub proof fn lemma_takes_value(
    program: Program,
    types: Types,
    entry: FunctionId,
    room: int,
    m: Machine,
    marks: Seq<Mark>,
    asked: Machine,
)
    requires
        crate::frame::typed::ready(program, types, entry, room, m, marks),
        asked == (Machine {
            fuel: asked.fuel,
            budget: asked.budget,
            safepoints: asked.safepoints,
            materialized: asked.materialized,
            ..m
        }),
        ({
            let function = crate::frame::machine::running(program, m);
            let s = types.stand(m.frames.last().function, m.pc);
            let kept = !crate::frame::balance::crosses(program, function, m.pc);
            crate::frame::balance::can_move(
                s,
                crate::frame::balance::takes_value(kept, Out::Nothing),
            )
        }),
    ensures
        ({
            let function = crate::frame::machine::running(program, m);
            let crosses = crate::frame::balance::crosses(program, function, m.pc);
            let by = crate::frame::balance::takes_value(!crosses, Out::Nothing);
            let off = crate::frame::balance::taken_off(m, by);
            crate::frame::machine::taken(program, asked, function) matches Some(pair) && {
                let n = pair.1;
                &&& n == (Machine { words: n.words, refs: n.refs, boundary: n.boundary, ..asked })
                &&& n.words == off.words
                &&& n.refs == off.refs
                &&& n.boundary == off.boundary
                &&& !crosses ==> m.boundary.len() > 0 && pair.0 == m.boundary.last()
                &&& crosses ==> m.words.len() > 0 && crate::frame::machine::datum_at(
                    program,
                    m.objects,
                    m.top(),
                ) == Some(pair.0)
            }
        }),
{
    crate::frame::typed::lemma_rules(program, types, entry, room, m, marks);
    let function = crate::frame::machine::running(program, m);
    crate::frame::truth::lemma_taken_shape(program, asked, function);
    if crate::frame::balance::crosses(program, function, m.pc) {
        lemma_top_kinds(program, types, entry, room, m, marks, 1, 0);
    }
}

#[verifier::spinoff_prover]
pub proof fn lemma_discards(
    program: Program,
    types: Types,
    entry: FunctionId,
    room: int,
    m: Machine,
    marks: Seq<Mark>,
)
    requires
        crate::frame::typed::ready(program, types, entry, room, m, marks),
        crate::frame::machine::running(program, m).code@[m.pc] is Pop,
    ensures
        crate::frame::progress::stepped_well(
            program,
            types,
            room,
            m,
            marks,
            crate::frame::machine::step(program, m),
        ),
{
    crate::frame::typed::lemma_rules(program, types, entry, room, m, marks);
    crate::frame::typed::lemma_moves(program, types, entry, room, m, marks);
    let function = crate::frame::machine::running(program, m);
    let by = crate::frame::balance::move_of(program, function, m.pc)->0;
    if crate::frame::balance::crosses(program, function, m.pc)
        || crate::frame::admission::leaves_boundary(program, function, m.pc) {
        lemma_takes_value(program, types, entry, room, m, marks, m.materializing(1));
    }
    if let Outcome::Next(n) = crate::frame::machine::step(program, m) {
        let off = crate::frame::balance::taken_off(m, by);
        assert(n.words == off.words && n.refs == off.refs && n.boundary =~= off.boundary);
        crate::frame::typed::lemma_straight(program, types, entry, room, m, marks, n);
    }
}

} // verus!
