//! What a lowered program has to satisfy before anything here reads it.
use crate::frame::kinds::successors;
use crate::ir::{names_exist, stack_shape, Function, Inst, Program, SlotKind};
use vstd::prelude::*;

verus! {

/// Every instruction names what exists, and the tables beside the code are as
/// long as it is.
pub open spec fn well_named(program: Program, function: Function) -> bool {
    &&& function.code@.len() <= u32::MAX
    &&& function.block_fuel@.len() == function.code@.len()
    &&& function.params@.len() <= function.slots@.len()
    &&& function.slots@.len() <= u32::MAX
    &&& forall|pc: int|
        0 <= pc < function.code@.len() ==> crate::ir::names_what_exists(
            program,
            #[trigger] function.code@[pc],
        )
}

/// What the lowering guarantees of a program.
pub open spec fn valid(program: Program) -> bool {
    &&& program.functions@.len() <= u32::MAX
    &&& crate::frame::layout::keeps_no_place(program)
    &&& forall|f: int|
        0 <= f < program.functions@.len() ==> well_named(program, #[trigger] program.functions@[f])
    &&& forall|f: int|
        0 <= f < program.functions@.len() ==> crate::frame::operands::levelled(
            program,
            #[trigger] program.functions@[f],
        )
}

/// Depths, mathematically.
pub open spec fn depths_of(depths: Seq<Option<u64>>) -> Seq<Option<int>> {
    Seq::new(
        depths.len(),
        |i: int|
            match depths[i] {
                Some(depth) => Some(depth as int),
                None => None,
            },
    )
}

/// The depth an instruction leaves, where it takes no more than there is.
spec fn depth_left(program: Program, inst: Inst, depth: int) -> int {
    let (taken, left) = crate::ir::stack_effect(program, inst);
    (if taken <= depth {
        depth - taken
    } else {
        0
    }) + left
}

/// The depth recorded for an instruction is that of some path to it.
spec fn reached(program: Program, function: Function, pc: int, depth: int) -> bool {
    exists|path: Seq<int>|
        crate::frame::operands::arrives(function, path, pc)
            && #[trigger] crate::frame::operands::along(program, function, path).len() == depth
}

proof fn lemma_depth_left(
    program: Program,
    inst: Inst,
    stack: Seq<crate::frame::kinds::Held>,
)
    ensures
        crate::frame::operands::after(program, inst, stack).len() == depth_left(
            program,
            inst,
            stack.len() as int,
        ),
{
    reveal(crate::frame::operands::after);
}

/// A path that goes on by one instruction.
proof fn lemma_reached_after(program: Program, function: Function, pc: int, to: int, depth: int)
    requires
        reached(program, function, pc, depth),
        0 <= pc < function.code@.len(),
        0 <= to < function.code@.len(),
        crate::frame::kinds::goes_to(function.code@[pc], pc, to),
    ensures
        reached(program, function, to, depth_left(program, function.code@[pc], depth)),
{
    let path = choose|path: Seq<int>|
        crate::frame::operands::arrives(function, path, pc)
            && #[trigger] crate::frame::operands::along(program, function, path).len() == depth;
    crate::frame::operands::lemma_path_extends(program, function, path, pc, to);
    lemma_depth_left(
        program,
        function.code@[pc],
        crate::frame::operands::along(program, function, path),
    );
    assert(crate::frame::operands::along(program, function, path.push(to)).len() == depth_left(
        program,
        function.code@[pc],
        depth,
    ));
}

/// Every edge out of `pc` leads to the depth recorded where it leads.
spec fn consistent(
    program: Program,
    function: Function,
    depths: Seq<Option<int>>,
    pc: int,
) -> bool {
    depths[pc] matches Some(depth) ==> forall|to: int|
        #![trigger crate::frame::kinds::goes_to(function.code@[pc], pc, to)]
        0 <= to < function.code@.len() && crate::frame::kinds::goes_to(function.code@[pc], pc, to)
            ==> depths[to] == Some(depth_left(program, function.code@[pc], depth))
}

/// Recorded depths that every edge respects are those of every path.
proof fn lemma_depth_of_a_path(
    program: Program,
    function: Function,
    depths: Seq<Option<int>>,
    path: Seq<int>,
)
    requires
        depths.len() == function.code@.len(),
        depths.len() > 0,
        depths[0] == Some(0int),
        forall|pc: int| 0 <= pc < depths.len() ==> consistent(program, function, depths, pc),
        crate::frame::operands::is_path(function, path),
    ensures
        depths[path.last()] == Some(
            crate::frame::operands::along(program, function, path).len() as int,
        ),
    decreases path.len(),
{
    if path.len() > 1 {
        let shorter = path.drop_last();
        assert forall|j: int| 0 <= j < shorter.len() - 1 implies crate::frame::kinds::goes_to(
            function.code@[#[trigger] shorter[j]],
            shorter[j],
            shorter[j + 1],
        ) by {
            assert(path[j] == shorter[j]);
            assert(path[j + 1] == shorter[j + 1]);
        }
        lemma_depth_of_a_path(program, function, depths, shorter);
        let pc = shorter.last();
        assert(path[path.len() - 2] == pc);
        assert(crate::frame::kinds::goes_to(function.code@[pc], pc, path.last()));
        assert(consistent(program, function, depths, pc));
        lemma_depth_left(
            program,
            function.code@[pc],
            crate::frame::operands::along(program, function, shorter),
        );
    }
}

spec fn unknown(depths: Seq<Option<u64>>) -> nat
    decreases depths.len(),
{
    if depths.len() == 0 {
        0
    } else {
        unknown(depths.drop_last()) + (if depths.last() is Some {
            0nat
        } else {
            1
        })
    }
}

proof fn lemma_one_fewer_unknown(depths: Seq<Option<u64>>, at: int, depth: u64)
    requires
        0 <= at < depths.len(),
        depths[at] is None,
    ensures
        unknown(depths.update(at, Some(depth))) == unknown(depths) - 1,
    decreases depths.len(),
{
    let next = depths.update(at, Some(depth));
    if at == depths.len() - 1 {
        assert(next.drop_last() =~= depths.drop_last());
    } else {
        assert(next.drop_last() =~= depths.drop_last().update(at, Some(depth)));
        assert(next.last() == depths.last());
        lemma_one_fewer_unknown(depths.drop_last(), at, depth);
    }
}

/// Whether every instruction of a function is reached at one operand depth.
pub fn is_levelled(program: &Program, function: &Function) -> (yes: bool)
    requires
        well_named(*program, *function),
    ensures
        yes == crate::frame::operands::levelled(*program, *function),
{
    let count: usize = function.code.len();
    if count == 0 {
        return true;
    }
    let mut depths: Vec<Option<u64>> = Vec::new();
    while depths.len() < count
        invariant
            depths@.len() <= count,
            forall|i: int| 0 <= i < depths@.len() ==> (#[trigger] depths@[i]) is None,
        decreases count - depths@.len(),
    {
        depths.push(None);
    }
    proof {
        lemma_one_fewer_unknown(depths@, 0, 0);
        lemma_unknown_bounded(depths@);
    }
    depths.set(0, Some(0));
    let mut queue: Vec<usize> = Vec::new();
    queue.push(0);
    proof {
        let start = seq![0int];
        assert(crate::frame::operands::arrives(*function, start, 0));
        assert(crate::frame::operands::along(*program, *function, start).len() == 0);
        assert(reached(*program, *function, 0, 0));
        assert(queue@[0] == 0);
        assert forall|pc: int| 0 <= pc < count implies consistent(
            *program,
            *function,
            depths_of(depths@),
            pc,
        ) || #[trigger] queue@.contains(pc as usize) by {
            if pc == 0 {
                assert(queue@[0] == pc as usize);
            }
        }
    }
    while queue.len() > 0
        invariant
            well_named(*program, *function),
            count == function.code@.len(),
            depths@.len() == count,
            count > 0,
            depths@[0] == Some(0u64),
            forall|i: int| 0 <= i < queue@.len() ==> #[trigger] queue@[i] < count,
            forall|pc: int|
                0 <= pc < count ==> match #[trigger] depths@[pc] {
                    Some(depth) => reached(*program, *function, pc, depth as int),
                    None => true,
                },
            forall|pc: int|
                0 <= pc < count ==> match #[trigger] depths@[pc] {
                    Some(depth) => depth <= 2 * (count - unknown(depths@)),
                    None => true,
                },
            forall|pc: int|
                0 <= pc < count ==> consistent(*program, *function, depths_of(depths@), pc)
                    || #[trigger] queue@.contains(pc as usize),
        decreases unknown(depths@), queue@.len(),
    {
        let ghost waiting = queue@;
        let ghost at_first = unknown(depths@);
        let last: usize = queue.len() - 1;
        let pc: usize = queue[last];
        queue.truncate(last);
        proof {
            assert forall|q: int| 0 <= q < count && q != pc && waiting.contains(q as usize) implies
                #[trigger] queue@.contains(q as usize) by {
                let i = choose|i: int| 0 <= i < waiting.len() && waiting[i] == q as usize;
                assert(queue@[i] == q as usize);
            }
        }
        match depths[pc] {
            None => {
                proof {
                    assert(depths_of(depths@)[pc as int] is None);
                }
            },
            Some(depth) => {
                let inst: Inst = function.code[pc];
                let shape = stack_shape(program, inst);
                proof {
                    assert(depths_of(depths@)[pc as int] == Some(depth as int));
                    lemma_unknown_bounded(depths@);
                    lemma_effect_is_small(*program, inst);
                }
                let kept: u64 = if shape.0 <= depth {
                    depth - shape.0
                } else {
                    0
                };
                let next_depth: u64 = kept + shape.1;
                let next: Vec<usize> = successors(inst, pc);
                let mut i: usize = 0;
                while i < next.len()
                    invariant
                        well_named(*program, *function),
                        count == function.code@.len(),
                        depths@.len() == count,
                        pc < count,
                        count > 0,
                        depths@[0] == Some(0u64),
                        inst == function.code@[pc as int],
                        depths@[pc as int] == Some(depth),
                        depth <= 2 * (count - at_first),
                        next_depth == depth_left(*program, inst, depth as int),
                        next_depth <= depth + 2,
                        i <= next@.len(),
                        forall|j: int|
                            0 <= j < next@.len() ==> crate::frame::kinds::goes_to(
                                inst,
                                pc as int,
                                #[trigger] next@[j] as int,
                            ),
                        forall|i: int| 0 <= i < queue@.len() ==> #[trigger] queue@[i] < count,
                        forall|pc: int|
                            0 <= pc < count ==> match #[trigger] depths@[pc] {
                                Some(depth) => reached(*program, *function, pc, depth as int),
                                None => true,
                            },
                        forall|pc: int|
                            0 <= pc < count ==> match #[trigger] depths@[pc] {
                                Some(depth) => depth <= 2 * (count - unknown(depths@)),
                                None => true,
                            },
                        unknown(depths@) <= at_first,
                        forall|q: int|
                            0 <= q < count && q != pc ==> consistent(
                                *program,
                                *function,
                                depths_of(depths@),
                                q,
                            ) || #[trigger] queue@.contains(q as usize),
                        forall|j: int|
                            0 <= j < i && #[trigger] next@[j] < count ==> depths@[next@[j] as int]
                                == Some(next_depth),
                        unknown(depths@) < at_first || queue@.len() < waiting.len(),
                    decreases next@.len() - i,
                {
                    let to: usize = next[i];
                    if to < count {
                        proof {
                            lemma_reached_after(
                                *program,
                                *function,
                                pc as int,
                                to as int,
                                depth as int,
                            );
                        }
                        match depths[to] {
                            Some(other) => {
                                if other != next_depth {
                                    proof {
                                        lemma_two_depths(
                                            *program,
                                            *function,
                                            to as int,
                                            other as int,
                                            next_depth as int,
                                        );
                                    }
                                    return false;
                                }
                            },
                            None => {
                                let ghost earlier = depths@;
                                let ghost asked = queue@;
                                proof {
                                    lemma_one_fewer_unknown(depths@, to as int, next_depth);
                                }
                                depths.set(to, Some(next_depth));
                                queue.push(to);
                                proof {
                                    assert(queue@[asked.len() as int] == to);
                                    assert forall|q: int|
                                        0 <= q < count && q != pc implies consistent(
                                        *program,
                                        *function,
                                        depths_of(depths@),
                                        q,
                                    ) || #[trigger] queue@.contains(q as usize) by {
                                        if asked.contains(q as usize) {
                                            let i = choose|i: int|
                                                0 <= i < asked.len() && asked[i] == q as usize;
                                            assert(queue@[i] == q as usize);
                                        } else if q == to {
                                            assert(queue@[asked.len() as int] == q as usize);
                                        } else {
                                            assert(consistent(
                                                *program,
                                                *function,
                                                depths_of(earlier),
                                                q,
                                            ));
                                            lemma_consistent_stays(
                                                *program,
                                                *function,
                                                earlier,
                                                to as int,
                                                next_depth,
                                                q,
                                            );
                                        }
                                    }
                                }
                            },
                        }
                    }
                    i = i + 1;
                }
                proof {
                    assert(consistent(*program, *function, depths_of(depths@), pc as int));
                }
            },
        }
    }
    proof {
        let known = depths_of(depths@);
        assert forall|a: Seq<int>, b: Seq<int>|
            crate::frame::operands::is_path(*function, a) && crate::frame::operands::is_path(
                *function,
                b,
            ) && a.last() == b.last() implies #[trigger] crate::frame::operands::along(
            *program,
            *function,
            a,
        ).len() == #[trigger] crate::frame::operands::along(*program, *function, b).len() by {
            assert forall|pc: int| 0 <= pc < known.len() implies consistent(
                *program,
                *function,
                known,
                pc,
            ) by {
                assert(!queue@.contains(pc as usize));
            }
            lemma_depth_of_a_path(*program, *function, known, a);
            lemma_depth_of_a_path(*program, *function, known, b);
        }
    }
    true
}

/// Recording a depth where there was none unsettles no other instruction.
proof fn lemma_consistent_stays(
    program: Program,
    function: Function,
    depths: Seq<Option<u64>>,
    to: int,
    depth: u64,
    q: int,
)
    requires
        depths.len() == function.code@.len(),
        0 <= to < depths.len(),
        0 <= q < depths.len(),
        q != to,
        depths[to] is None,
        consistent(program, function, depths_of(depths), q),
    ensures
        consistent(program, function, depths_of(depths.update(to, Some(depth))), q),
{
    let before = depths_of(depths);
    let next = depths_of(depths.update(to, Some(depth)));
    assert(next[q] == before[q]);
    if let Some(d) = next[q] {
        assert forall|r: int|
            #![trigger crate::frame::kinds::goes_to(function.code@[q], q, r)]
            0 <= r < function.code@.len() && crate::frame::kinds::goes_to(
                function.code@[q],
                q,
                r,
            ) implies next[r] == Some(depth_left(program, function.code@[q], d)) by {
            assert(before[r] == Some(depth_left(program, function.code@[q], d)));
            assert(r != to);
        }
    }
}

proof fn lemma_unknown_bounded(depths: Seq<Option<u64>>)
    ensures
        unknown(depths) <= depths.len(),
    decreases depths.len(),
{
    if depths.len() > 0 {
        lemma_unknown_bounded(depths.drop_last());
    }
}

proof fn lemma_effect_is_small(program: Program, inst: Inst)
    ensures
        0 <= crate::ir::stack_effect(program, inst).1 <= 2,
        0 <= crate::ir::stack_effect(program, inst).0,
{
}

/// Two depths at one instruction leave the function unlevelled.
proof fn lemma_two_depths(program: Program, function: Function, pc: int, a: int, b: int)
    requires
        reached(program, function, pc, a),
        reached(program, function, pc, b),
        a != b,
    ensures
        !crate::frame::operands::levelled(program, function),
{
    let p = choose|path: Seq<int>|
        crate::frame::operands::arrives(function, path, pc)
            && #[trigger] crate::frame::operands::along(program, function, path).len() == a;
    let q = choose|path: Seq<int>|
        crate::frame::operands::arrives(function, path, pc)
            && #[trigger] crate::frame::operands::along(program, function, path).len() == b;
    assert(crate::frame::operands::along(program, function, p).len()
        != crate::frame::operands::along(program, function, q).len());
}

/// Whether the tables of a function are as long as its code and every name in
/// it exists.
fn is_well_named(program: &Program, function: &Function) -> (yes: bool)
    ensures
        yes == well_named(*program, *function),
{
    if function.code.len() > u32::MAX as usize || function.block_fuel.len() != function.code.len()
        || function.params.len() > function.slots.len() || function.slots.len() > u32::MAX as usize {
        return false;
    }
    let mut pc: usize = 0;
    while pc < function.code.len()
        invariant
            pc <= function.code@.len(),
            forall|q: int|
                0 <= q < pc ==> crate::ir::names_what_exists(
                    *program,
                    #[trigger] function.code@[q],
                ),
        decreases function.code@.len() - pc,
    {
        if !names_exist(program, function.code[pc]) {
            return false;
        }
        pc = pc + 1;
    }
    true
}

/// Whether no field and no payload position is declared as a place.
fn keeps_places_out(program: &Program) -> (yes: bool)
    ensures
        yes == crate::frame::layout::keeps_no_place(*program),
{
    let mut i: usize = 0;
    while i < program.structs.len()
        invariant
            i <= program.structs@.len(),
            forall|k: int, j: int|
                0 <= k < i && 0 <= j < program.structs@[k].fields@.len()
                    ==> !((#[trigger] program.structs@[k].fields@[j]).kind is Place),
        decreases program.structs@.len() - i,
    {
        let mut j: usize = 0;
        while j < program.structs[i].fields.len()
            invariant
                i < program.structs@.len(),
                j <= program.structs@[i as int].fields@.len(),
                forall|k: int|
                    0 <= k < j ==> !((#[trigger] program.structs@[i as int].fields@[k]).kind is Place),
            decreases program.structs@[i as int].fields@.len() - j,
        {
            if let SlotKind::Place = program.structs[i].fields[j].kind {
                return false;
            }
            j = j + 1;
        }
        i = i + 1;
    }
    let mut t: usize = 0;
    while t < program.enums.len()
        invariant
            t <= program.enums@.len(),
            forall|u: int, c: int, j: int|
                0 <= u < t && 0 <= c < program.enums@[u].cases@.len() && 0 <= j
                    < program.enums@[u].cases@[c].payload@.len() ==> !((
                #[trigger] program.enums@[u].cases@[c].payload@[j]) is Place),
        decreases program.enums@.len() - t,
    {
        let mut c: usize = 0;
        while c < program.enums[t].cases.len()
            invariant
                t < program.enums@.len(),
                c <= program.enums@[t as int].cases@.len(),
                forall|d: int, j: int|
                    0 <= d < c && 0 <= j < program.enums@[t as int].cases@[d].payload@.len()
                        ==> !((#[trigger] program.enums@[t as int].cases@[d].payload@[j]) is Place),
            decreases program.enums@[t as int].cases@.len() - c,
        {
            let mut j: usize = 0;
            while j < program.enums[t].cases[c].payload.len()
                invariant
                    t < program.enums@.len(),
                    c < program.enums@[t as int].cases@.len(),
                    j <= program.enums@[t as int].cases@[c as int].payload@.len(),
                    forall|k: int|
                        0 <= k < j ==> !((
                        #[trigger] program.enums@[t as int].cases@[c as int].payload@[k]) is Place),
                decreases program.enums@[t as int].cases@[c as int].payload@.len() - j,
            {
                if let SlotKind::Place = program.enums[t].cases[c].payload[j] {
                    return false;
                }
                j = j + 1;
            }
            c = c + 1;
        }
        t = t + 1;
    }
    true
}

/// Whether a program is one the lowering can have made.
pub fn validate(program: &Program) -> (yes: bool)
    ensures
        yes == valid(*program),
{
    if program.functions.len() > u32::MAX as usize || !keeps_places_out(program) {
        return false;
    }
    let mut f: usize = 0;
    while f < program.functions.len()
        invariant
            f <= program.functions@.len(),
            forall|g: int|
                0 <= g < f ==> well_named(*program, #[trigger] program.functions@[g]),
            forall|g: int|
                0 <= g < f ==> crate::frame::operands::levelled(
                    *program,
                    #[trigger] program.functions@[g],
                ),
        decreases program.functions@.len() - f,
    {
        if !is_well_named(program, &program.functions[f]) {
            return false;
        }
        if !is_levelled(program, &program.functions[f]) {
            return false;
        }
        f = f + 1;
    }
    true
}

/// A program is valid just when there are no more functions than can be
/// numbered, no declared field or payload position is a place, and each
/// function charges every instruction, has a slot for every parameter, names
/// nothing that is not there, and comes to each instruction at one depth.
pub proof fn a_program_is_valid_for_what_it_declares(program: Program)
    ensures
        valid(program) <==> {
            &&& program.functions@.len() <= 0xffff_ffff
            &&& forall|i: int, j: int|
                0 <= i < program.structs@.len() && 0 <= j < program.structs@[i].fields@.len()
                    ==> (#[trigger] program.structs@[i].fields@[j]).kind
                    != crate::ir::SlotKind::Place
            &&& forall|t: int, c: int, j: int|
                0 <= t < program.enums@.len() && 0 <= c < program.enums@[t].cases@.len() && 0 <= j
                    < program.enums@[t].cases@[c].payload@.len()
                    ==> #[trigger] program.enums@[t].cases@[c].payload@[j]
                    != crate::ir::SlotKind::Place
            &&& forall|f: int|
                0 <= f < program.functions@.len() ==> {
                    let function = #[trigger] program.functions@[f];
                    &&& function.code@.len() <= 0xffff_ffff
                    &&& function.block_fuel@.len() == function.code@.len()
                    &&& function.params@.len() <= function.slots@.len()
                    &&& function.slots@.len() <= 0xffff_ffff
                    &&& forall|pc: int|
                        0 <= pc < function.code@.len() ==> crate::ir::names_what_exists(
                            program,
                            #[trigger] function.code@[pc],
                        )
                    &&& forall|a: Seq<int>, b: Seq<int>|
                        crate::frame::operands::is_path(function, a)
                            && crate::frame::operands::is_path(function, b) && a.last() == b.last()
                            ==> #[trigger] crate::frame::operands::along(program, function, a).len()
                            == #[trigger] crate::frame::operands::along(program, function, b).len()
                }
        },
{
    if valid(program) {
        assert forall|f: int| 0 <= f < program.functions@.len() implies {
            let function = #[trigger] program.functions@[f];
            well_named(program, function) && crate::frame::operands::levelled(program, function)
        } by {}
    }
}

/// An instruction names what is not there just when the function, the struct,
/// the enum or a constant it names is past the last.
pub proof fn an_instruction_names_what_is_there(program: Program, inst: Inst)
    ensures
        inst matches Inst::Const(id) ==> (crate::ir::names_what_exists(program, inst) <==> id.0
            < program.constants@.len()),
        inst matches Inst::MakeStruct(of) ==> (crate::ir::names_what_exists(program, inst) <==> of.0
            < program.structs@.len()),
        inst matches Inst::SetField(id) ==> (crate::ir::names_what_exists(program, inst) <==> id.0
            < program.constants@.len()),
        inst matches Inst::GetFieldAt { of, at: _ } ==> (crate::ir::names_what_exists(program, inst)
            <==> of.0 < program.structs@.len()),
        inst matches Inst::MakeEnum { ty, named, argc: _ } ==> (crate::ir::names_what_exists(
            program,
            inst,
        ) <==> ty.0 < program.constants@.len() && named.0 < program.constants@.len()),
        inst matches Inst::TestCase(id) ==> (crate::ir::names_what_exists(program, inst) <==> id.0
            < program.constants@.len()),
        inst matches Inst::GetPayload { case: Some(pair), at: _ } ==> (
        crate::ir::names_what_exists(program, inst) <==> pair.0.0 < program.enums@.len()),
        inst matches Inst::MakeBuiltin { name, argc: _ } ==> (crate::ir::names_what_exists(
            program,
            inst,
        ) <==> name.0 < program.constants@.len()),
        inst matches Inst::CallHost { module, op, argc: _ } ==> (crate::ir::names_what_exists(
            program,
            inst,
        ) <==> module.0 < program.constants@.len() && op.0 < program.constants@.len()),
        inst matches Inst::Call { function, scalar_argc: _, value_argc: _, place_argc: _ } ==> (
        crate::ir::names_what_exists(program, inst) <==> function.0 < program.functions@.len()),
        inst is ScalarConst || inst is LoadScalar || inst is StoreScalar || inst is ScalarPop
            || inst is IntBinary || inst is Jump || inst is LoadLocal || inst is StoreLocal
            || inst is Dup || inst is Pop || inst is Concat || inst is Binary || inst is Return
            || inst is ReturnScalar || inst is Try ==> crate::ir::names_what_exists(program, inst),
{
}

} // verus!
