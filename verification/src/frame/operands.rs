//! The value operand stack of a function, abstracted to one kind per operand,
//! over every path control can take.
use crate::frame::kinds::{pushed_kind, successors, Held, Kind};
use crate::ir::{stack_shape, Function, Inst, Program};
use vstd::prelude::*;

verus! {

/// The abstract stack an instruction leaves, given the one it finds.
#[verifier::opaque]
pub open spec fn after(program: Program, inst: Inst, stack: Seq<Held>) -> Seq<Held> {
    let (taken, left) = crate::ir::stack_effect(program, inst);
    let kept = if taken <= stack.len() {
        stack.take(stack.len() - taken)
    } else {
        Seq::empty()
    };
    // `dup` is the one instruction that puts back what it took.
    let put = if taken == 1 && left == 2 {
        if stack.len() > 0 {
            stack.last()
        } else {
            None
        }
    } else {
        crate::frame::kinds::pushes(program, inst)
    };
    kept + Seq::new(left as nat, |i: int| put)
}

/// A way control can go from the head of a function.
pub open spec fn is_path(function: Function, path: Seq<int>) -> bool {
    &&& path.len() > 0
    &&& path[0] == 0
    &&& forall|j: int| 0 <= j < path.len() ==> 0 <= #[trigger] path[j] < function.code@.len()
    &&& forall|j: int|
        0 <= j < path.len() - 1 ==> crate::frame::kinds::goes_to(
            function.code@[#[trigger] path[j]],
            path[j],
            path[j + 1],
        )
}

/// The abstract stack on entry to the last instruction of a path.
pub open spec fn along(program: Program, function: Function, path: Seq<int>) -> Seq<Held>
    decreases path.len(),
{
    if path.len() <= 1 {
        Seq::empty()
    } else {
        after(
            program,
            function.code@[path[path.len() - 2]],
            along(program, function, path.drop_last()),
        )
    }
}

/// A path that ends at `pc`.
pub open spec fn arrives(function: Function, path: Seq<int>, pc: int) -> bool {
    is_path(function, path) && path.last() == pc
}

/// Every instruction is reached at one operand depth.
pub open spec fn levelled(program: Program, function: Function) -> bool {
    forall|a: Seq<int>, b: Seq<int>|
        is_path(function, a) && is_path(function, b) && a.last() == b.last() ==> #[trigger] along(
            program,
            function,
            a,
        ).len() == #[trigger] along(program, function, b).len()
}

/// Every path that arrives at `pc` finds `kind` at place `i`.
pub open spec fn agreed(program: Program, function: Function, pc: int, i: int, kind: Kind) -> bool {
    forall|path: Seq<int>|
        arrives(function, path, pc) ==> {
            let stack = #[trigger] along(program, function, path);
            0 <= i < stack.len() && stack[i] == Some(kind)
        }
}

/// What an abstract stack recorded for `pc` has to be: the depth every path
/// arrives at, and at each place the kind every path agrees on, or nothing
/// where they agree on none.
pub open spec fn records(program: Program, function: Function, pc: int, stack: Seq<Held>) -> bool {
    &&& exists|path: Seq<int>| arrives(function, path, pc)
    &&& forall|path: Seq<int>|
        arrives(function, path, pc) ==> #[trigger] along(program, function, path).len()
            == stack.len()
    &&& forall|i: int|
        0 <= i < stack.len() ==> match #[trigger] stack[i] {
            Some(kind) => agreed(program, function, pc, i, kind),
            None => forall|kind: Kind| !agreed(program, function, pc, i, kind),
        }
}

/// The operands on entry to each instruction: nothing where control cannot
/// arrive, and elsewhere what every path agrees on.
pub open spec fn tells(
    program: Program,
    function: Function,
    at: Seq<Option<Seq<Held>>>,
) -> bool {
    &&& at.len() == function.code@.len()
    &&& forall|pc: int|
        0 <= pc < at.len() ==> match #[trigger] at[pc] {
            Some(stack) => records(program, function, pc, stack),
            None => forall|path: Seq<int>| !arrives(function, path, pc),
        }
}

/// There is one such reading.
proof fn lemma_one_reading(
    program: Program,
    function: Function,
    a: Seq<Option<Seq<Held>>>,
    b: Seq<Option<Seq<Held>>>,
)
    requires
        tells(program, function, a),
        tells(program, function, b),
    ensures
        a == b,
{
    assert forall|pc: int| 0 <= pc < a.len() implies a[pc] == b[pc] by {
        match a[pc] {
            None => {
                if let Some(t) = b[pc] {
                    let path = choose|path: Seq<int>| arrives(function, path, pc);
                    assert(arrives(function, path, pc));
                }
            },
            Some(s) => {
                let path = choose|path: Seq<int>| arrives(function, path, pc);
                assert(arrives(function, path, pc));
                match b[pc] {
                    None => {},
                    Some(t) => {
                        let stack = along(program, function, path);
                        assert(stack.len() == s.len() && stack.len() == t.len());
                        assert forall|i: int| 0 <= i < s.len() implies s[i] == t[i] by {
                            match s[i] {
                                Some(k) => {
                                    assert(stack[i] == Some(k));
                                    match t[i] {
                                        Some(l) => {
                                            assert(agreed(program, function, pc, i, l));
                                        },
                                        None => {
                                            assert(!agreed(program, function, pc, i, k));
                                        },
                                    }
                                },
                                None => {
                                    if let Some(l) = t[i] {
                                        assert(!agreed(program, function, pc, i, l));
                                    }
                                },
                            }
                        }
                        assert(s =~= t);
                    },
                }
            },
        }
    }
    assert(a =~= b);
}

/// The operands of a function, mathematically.
pub open spec fn operands_of(program: Program, function: Function) -> Seq<Option<Seq<Held>>> {
    choose|at: Seq<Option<Seq<Held>>>| tells(program, function, at)
}

/// The value operand stack on entry to every instruction of one function.
#[derive(Debug)]
pub struct Operands {
    at: Vec<Option<Vec<Held>>>,
}

/// A list of recorded stacks, mathematically.
pub open spec fn stacks(at: Seq<Option<Vec<Held>>>) -> Seq<Option<Seq<Held>>> {
    Seq::new(
        at.len(),
        |i: int|
            match at[i] {
                Some(stack) => Some(stack@),
                None => None,
            },
    )
}

/// The `count` operands on top of a stack, in push order, where all of them
/// are known.
pub open spec fn top_kinds(stack: Seq<Held>, count: int) -> Option<Seq<Kind>> {
    if count <= stack.len() && (forall|i: int|
        stack.len() - count <= i < stack.len() ==> #[trigger] stack[i] is Some) {
        Some(Seq::new(count as nat, |i: int| stack[stack.len() - count + i]->0))
    } else {
        None
    }
}

/// The `count` operands on top at `pc`, in push order, where all of them are
/// known.
pub open spec fn kinds_at(at: Seq<Option<Seq<Held>>>, pc: int, count: int) -> Option<Seq<Kind>> {
    if 0 <= pc < at.len() {
        match at[pc] {
            Some(stack) => top_kinds(stack, count),
            None => None,
        }
    } else {
        None
    }
}

/// The `count` operands on top at `pc`, where all of them are known and none
/// is a handle that cannot be shown to be a string.
pub open spec fn boundary_kinds(at: Seq<Option<Seq<Held>>>, pc: int, count: int) -> Option<
    Seq<Kind>,
> {
    match kinds_at(at, pc, count) {
        Some(kinds) => if forall|i: int|
            0 <= i < kinds.len() ==> #[trigger] kinds[i] != Kind::Reference && kinds[i]
                != Kind::Enum {
            Some(kinds)
        } else {
            None
        },
        None => None,
    }
}

impl View for Operands {
    type V = Seq<Option<Seq<Held>>>;

    closed spec fn view(&self) -> Seq<Option<Seq<Held>>> {
        stacks(self.at@)
    }
}

impl Operands {
    /// The `count` value operands standing on top at `pc`, in push order, or
    /// nothing where any of them is a word that cannot be named.
    pub fn top(&self, pc: usize, count: usize) -> (kinds: Option<Vec<Kind>>)
        ensures
            match kinds {
                Some(list) => kinds_at(self@, pc as int, count as int) == Some(list@),
                None => kinds_at(self@, pc as int, count as int) is None,
            },
    {
        if pc >= self.at.len() {
            return None;
        }
        match &self.at[pc] {
            None => None,
            Some(stack) => {
                proof {
                    assert(self@[pc as int] == Some(stack@));
                }
                if stack.len() < count {
                    return None;
                }
                let base: usize = stack.len() - count;
                let mut list: Vec<Kind> = Vec::new();
                let mut i: usize = base;
                while i < stack.len()
                    invariant
                        base == stack@.len() - count,
                        base <= i <= stack@.len(),
                        list@.len() == i - base,
                        forall|j: int|
                            base <= j < i ==> #[trigger] stack@[j] == Some(list@[j - base]),
                        pc < self@.len(),
                        self@[pc as int] == Some(stack@),
                    decreases stack@.len() - i,
                {
                    match stack[i] {
                        Some(kind) => {
                            list.push(kind);
                        },
                        None => {
                            return None;
                        },
                    }
                    i = i + 1;
                }
                proof {
                    assert(top_kinds(stack@, count as int)->0 =~= list@);
                }
                Some(list)
            },
        }
    }

    /// What a builtin call's or a host call's arguments are made of, and
    /// nothing where one of them is a handle that cannot be shown to be a
    /// string.
    pub fn boundary(&self, pc: usize, argc: usize) -> (kinds: Option<Vec<Kind>>)
        ensures
            match kinds {
                Some(list) => boundary_kinds(self@, pc as int, argc as int) == Some(list@),
                None => boundary_kinds(self@, pc as int, argc as int) is None,
            },
    {
        match self.top(pc, argc) {
            None => None,
            Some(list) => {
                let mut i: usize = 0;
                while i < list.len()
                    invariant
                        i <= list@.len(),
                        kinds_at(self@, pc as int, argc as int) == Some(list@),
                        forall|j: int|
                            0 <= j < i ==> #[trigger] list@[j] != Kind::Reference && list@[j]
                                != Kind::Enum,
                    decreases list@.len() - i,
                {
                    if list[i] == Kind::Reference || list[i] == Kind::Enum {
                        return None;
                    }
                    i = i + 1;
                }
                Some(list)
            },
        }
    }
}

/// Two paths that arrive at `pc` differ at place `i`, or one of them knows
/// nothing there.
spec fn spoiled(program: Program, function: Function, pc: int, i: int) -> bool {
    exists|a: Seq<int>, b: Seq<int>|
        #![trigger arrives(function, a, pc), arrives(function, b, pc)]
        arrives(function, a, pc) && arrives(function, b, pc) && 0 <= i < along(
            program,
            function,
            a,
        ).len() && i < along(program, function, b).len() && (along(program, function, a)[i] is None
            || along(program, function, a)[i] != along(program, function, b)[i])
}

/// Some path that arrives at `pc` finds `held` at place `i`.
spec fn seen(program: Program, function: Function, pc: int, i: int, kind: Kind) -> bool {
    exists|a: Seq<int>| #[trigger]
        arrives(function, a, pc) && 0 <= i < along(program, function, a).len() && along(
            program,
            function,
            a,
        )[i] == Some(kind)
}

/// What has been recorded for `pc` is the work of paths that arrive there.
spec fn witnessed(program: Program, function: Function, pc: int, stack: Seq<Held>) -> bool {
    &&& exists|path: Seq<int>|
        arrives(function, path, pc) && #[trigger] along(program, function, path).len()
            == stack.len()
    &&& forall|i: int|
        0 <= i < stack.len() ==> match #[trigger] stack[i] {
            Some(kind) => seen(program, function, pc, i, kind),
            None => spoiled(program, function, pc, i),
        }
}

/// What is recorded covers a stack that arrives: it claims nothing the
/// arriving stack does not.
pub open spec fn covers(held: Seq<Held>, arriving: Seq<Held>) -> bool {
    if held.len() == arriving.len() {
        forall|i: int| 0 <= i < held.len() ==> #[trigger] held[i] is None || held[i] == arriving[i]
    } else {
        forall|i: int| 0 <= i < held.len() ==> #[trigger] held[i] is None
    }
}

/// A path goes on by one instruction.
pub proof fn lemma_path_extends(
    program: Program,
    function: Function,
    path: Seq<int>,
    pc: int,
    to: int,
)
    requires
        arrives(function, path, pc),
        0 <= to < function.code@.len(),
        crate::frame::kinds::goes_to(function.code@[pc], pc, to),
    ensures
        arrives(function, path.push(to), to),
        along(program, function, path.push(to)) == after(
            program,
            function.code@[pc],
            along(program, function, path),
        ),
{
    let longer = path.push(to);
    assert(longer.drop_last() =~= path);
    assert forall|j: int| 0 <= j < longer.len() - 1 implies crate::frame::kinds::goes_to(
        function.code@[#[trigger] longer[j]],
        longer[j],
        longer[j + 1],
    ) by {
        if j < path.len() - 1 {
            assert(longer[j] == path[j]);
        }
    }
}

/// The depth an instruction leaves, given the one it finds.
spec fn depth_after(program: Program, inst: Inst, depth: int) -> int {
    let (taken, left) = crate::ir::stack_effect(program, inst);
    (if taken <= depth {
        depth - taken
    } else {
        0
    }) + left
}

/// The place a word standing at `i` after an instruction stood at before it,
/// or nothing where the instruction made it.
spec fn stood_at(program: Program, inst: Inst, depth: int, i: int) -> Option<int> {
    let (taken, left) = crate::ir::stack_effect(program, inst);
    if i < depth_after(program, inst, depth) - left {
        Some(i)
    } else if taken == 1 && left == 2 && depth > 0 {
        Some(depth - 1)
    } else {
        None
    }
}

/// What an instruction that copies nothing puts down.
spec fn made(program: Program, inst: Inst) -> Held {
    let (taken, left) = crate::ir::stack_effect(program, inst);
    if taken == 1 && left == 2 {
        None
    } else {
        crate::frame::kinds::pushes(program, inst)
    }
}

/// Where every word of the stack after an instruction comes from.
proof fn lemma_after_places(program: Program, inst: Inst, stack: Seq<Held>)
    ensures
        after(program, inst, stack).len() == depth_after(program, inst, stack.len() as int),
        forall|i: int|
            0 <= i < after(program, inst, stack).len() ==> #[trigger] after(program, inst, stack)[i]
                == (match stood_at(program, inst, stack.len() as int, i) {
                Some(from) => stack[from],
                None => made(program, inst),
            }),
        forall|i: int|
            0 <= i < after(program, inst, stack).len() ==> match #[trigger] stood_at(
                program,
                inst,
                stack.len() as int,
                i,
            ) {
                Some(from) => 0 <= from < stack.len(),
                None => true,
            },
{
    reveal(after);
}

/// What is witnessed at one place before an instruction is witnessed at the
/// place it moves to.
proof fn lemma_place_moves(
    program: Program,
    function: Function,
    pc: int,
    to: int,
    depth: int,
    from: int,
    i: int,
    held: Held,
)
    requires
        levelled(program, function),
        exists|path: Seq<int>|
            arrives(function, path, pc) && #[trigger] along(program, function, path).len() == depth,
        0 <= to < function.code@.len(),
        0 <= pc < function.code@.len(),
        crate::frame::kinds::goes_to(function.code@[pc], pc, to),
        0 <= i < depth_after(program, function.code@[pc], depth),
        stood_at(program, function.code@[pc], depth, i) == Some(from),
        match held {
            Some(kind) => seen(program, function, pc, from, kind),
            None => spoiled(program, function, pc, from),
        },
    ensures
        match held {
            Some(kind) => seen(program, function, to, i, kind),
            None => spoiled(program, function, to, i),
        },
{
    let inst = function.code@[pc];
    let path = choose|path: Seq<int>|
        arrives(function, path, pc) && #[trigger] along(program, function, path).len() == depth;
    match held {
        Some(kind) => {
            let a = choose|a: Seq<int>| #[trigger]
                arrives(function, a, pc) && 0 <= from < along(program, function, a).len() && along(
                    program,
                    function,
                    a,
                )[from] == Some(kind);
            lemma_path_extends(program, function, a, pc, to);
            assert(along(program, function, a).len() == along(program, function, path).len());
            lemma_after_places(program, inst, along(program, function, a));
            assert(along(program, function, a.push(to))[i] == Some(kind));
            assert(arrives(function, a.push(to), to));
        },
        None => {
            let (a, b) = choose|a: Seq<int>, b: Seq<int>|
                #![trigger arrives(function, a, pc), arrives(function, b, pc)]
                arrives(function, a, pc) && arrives(function, b, pc) && 0 <= from < along(
                    program,
                    function,
                    a,
                ).len() && from < along(program, function, b).len() && (along(
                    program,
                    function,
                    a,
                )[from] is None || along(program, function, a)[from] != along(
                    program,
                    function,
                    b,
                )[from]);
            lemma_path_extends(program, function, a, pc, to);
            lemma_path_extends(program, function, b, pc, to);
            assert(along(program, function, a).len() == along(program, function, path).len());
            assert(along(program, function, b).len() == along(program, function, path).len());
            lemma_after_places(program, inst, along(program, function, a));
            lemma_after_places(program, inst, along(program, function, b));
            assert(along(program, function, a.push(to))[i] == along(program, function, a)[from]);
            assert(along(program, function, b.push(to))[i] == along(program, function, b)[from]);
            assert(arrives(function, a.push(to), to) && arrives(function, b.push(to), to));
        },
    }
}

/// What is witnessed at an instruction is witnessed after it too.
proof fn lemma_witnessed_after(
    program: Program,
    function: Function,
    pc: int,
    to: int,
    stack: Seq<Held>,
)
    requires
        levelled(program, function),
        witnessed(program, function, pc, stack),
        0 <= to < function.code@.len(),
        0 <= pc < function.code@.len(),
        crate::frame::kinds::goes_to(function.code@[pc], pc, to),
    ensures
        witnessed(program, function, to, after(program, function.code@[pc], stack)),
{
    let inst = function.code@[pc];
    let next = after(program, inst, stack);
    let path = choose|path: Seq<int>|
        arrives(function, path, pc) && #[trigger] along(program, function, path).len()
            == stack.len();
    lemma_path_extends(program, function, path, pc, to);
    lemma_after_places(program, inst, stack);
    lemma_after_places(program, inst, along(program, function, path));
    let onward = along(program, function, path.push(to));
    assert(onward.len() == next.len());
    assert forall|i: int| 0 <= i < next.len() implies match #[trigger] next[i] {
        Some(kind) => seen(program, function, to, i, kind),
        None => spoiled(program, function, to, i),
    } by {
        match stood_at(program, inst, stack.len() as int, i) {
            Some(from) => {
                assert(next[i] == stack[from]);
                lemma_place_moves(
                    program,
                    function,
                    pc,
                    to,
                    stack.len() as int,
                    from,
                    i,
                    stack[from],
                );
            },
            None => {
                assert(onward[i] == next[i]);
                assert(arrives(function, path.push(to), to));
            },
        }
    }
}

/// Claims only shrink as they are handed on.
proof fn lemma_covers_after(program: Program, inst: Inst, held: Seq<Held>, stack: Seq<Held>)
    requires
        held.len() == stack.len(),
        covers(held, stack),
    ensures
        after(program, inst, held).len() == after(program, inst, stack).len(),
        covers(after(program, inst, held), after(program, inst, stack)),
{
    let a = after(program, inst, held);
    let b = after(program, inst, stack);
    lemma_after_places(program, inst, held);
    lemma_after_places(program, inst, stack);
    assert forall|i: int| 0 <= i < a.len() implies #[trigger] a[i] is None || a[i] == b[i] by {
        match stood_at(program, inst, held.len() as int, i) {
            Some(from) => {
                assert(a[i] == held[from] && b[i] == stack[from]);
            },
            None => {
                assert(b[i] == made(program, inst));
            },
        }
    }
}

/// The recorded stacks claim nothing of an instruction that a recorded stack
/// before it does not lead to.
pub open spec fn closed_under(
    program: Program,
    function: Function,
    at: Seq<Option<Seq<Held>>>,
    pc: int,
) -> bool {
    at[pc] matches Some(stack) ==> forall|to: int|
        #![trigger crate::frame::kinds::goes_to(function.code@[pc], pc, to)]
        0 <= to < function.code@.len() && crate::frame::kinds::goes_to(function.code@[pc], pc, to)
            ==> (at[to] matches Some(held) && covers(
            held,
            after(program, function.code@[pc], stack),
        ))
}

/// Along every path the recorded stack covers the path's own.
proof fn lemma_every_path_is_covered(
    program: Program,
    function: Function,
    at: Seq<Option<Seq<Held>>>,
    path: Seq<int>,
)
    requires
        levelled(program, function),
        at.len() == function.code@.len(),
        at.len() > 0,
        at[0] == Some(Seq::<Held>::empty()),
        forall|pc: int| 0 <= pc < at.len() ==> closed_under(program, function, at, pc),
        forall|pc: int|
            0 <= pc < at.len() && #[trigger] at[pc] is Some ==> witnessed(
                program,
                function,
                pc,
                at[pc]->0,
            ),
        is_path(function, path),
    ensures
        at[path.last()] is Some,
        at[path.last()]->0.len() == along(program, function, path).len(),
        covers(at[path.last()]->0, along(program, function, path)),
    decreases path.len(),
{
    if path.len() > 1 {
        let shorter = path.drop_last();
        assert forall|j: int| 0 <= j < shorter.len() - 1 implies crate::frame::kinds::goes_to(
            function.code@[#[trigger] shorter[j]],
            shorter[j],
            shorter[j + 1],
        ) by {
            assert(path[j] == shorter[j]);
            assert(path[j + 1] == shorter[j + 1]);
        }
        assert(is_path(function, shorter));
        lemma_every_path_is_covered(program, function, at, shorter);
        let pc = shorter.last();
        let to = path.last();
        assert(path[path.len() - 2] == pc);
        assert(crate::frame::kinds::goes_to(function.code@[pc], pc, to));
        assert(closed_under(program, function, at, pc));
        lemma_covers_after(
            program,
            function.code@[pc],
            at[pc]->0,
            along(program, function, shorter),
        );
        let other = choose|other: Seq<int>|
            arrives(function, other, to) && #[trigger] along(program, function, other).len()
                == at[to]->0.len();
        assert(along(program, function, other).len() == along(program, function, path).len());
        let held = at[to]->0;
        let middle = after(program, function.code@[pc], at[pc]->0);
        let actual = along(program, function, path);
        assert(actual == after(program, function.code@[pc], along(program, function, shorter)));
        assert forall|i: int| 0 <= i < held.len() implies #[trigger] held[i] is None || held[i]
            == actual[i] by {
            if held[i] is Some {
                assert(held[i] == middle[i]);
                assert(middle[i] is None || middle[i] == actual[i]);
            }
        }
    }
}

/// Closed and witnessed stacks are what every path agrees on.
proof fn lemma_fixed_point_tells(
    program: Program,
    function: Function,
    at: Seq<Option<Seq<Held>>>,
)
    requires
        levelled(program, function),
        at.len() == function.code@.len(),
        at.len() > 0 ==> at[0] == Some(Seq::<Held>::empty()),
        forall|pc: int| 0 <= pc < at.len() ==> closed_under(program, function, at, pc),
        forall|pc: int|
            0 <= pc < at.len() && #[trigger] at[pc] is Some ==> witnessed(
                program,
                function,
                pc,
                at[pc]->0,
            ),
    ensures
        tells(program, function, at),
{
    assert forall|pc: int| 0 <= pc < at.len() implies match #[trigger] at[pc] {
        Some(stack) => records(program, function, pc, stack),
        None => forall|path: Seq<int>| !arrives(function, path, pc),
    } by {
        match at[pc] {
            None => {
                assert forall|path: Seq<int>| !arrives(function, path, pc) by {
                    if arrives(function, path, pc) {
                        lemma_every_path_is_covered(program, function, at, path);
                    }
                }
            },
            Some(stack) => {
                assert(witnessed(program, function, pc, stack));
                let path0 = choose|path: Seq<int>|
                    arrives(function, path, pc) && #[trigger] along(program, function, path).len()
                        == stack.len();
                assert(arrives(function, path0, pc));
                assert forall|path: Seq<int>| arrives(function, path, pc) implies #[trigger] along(
                    program,
                    function,
                    path,
                ).len() == stack.len() by {
                    lemma_every_path_is_covered(program, function, at, path);
                }
                assert forall|i: int| 0 <= i < stack.len() implies match #[trigger] stack[i] {
                    Some(kind) => agreed(program, function, pc, i, kind),
                    None => forall|kind: Kind| !agreed(program, function, pc, i, kind),
                } by {
                    match stack[i] {
                        Some(kind) => {
                            assert forall|path: Seq<int>| arrives(function, path, pc) implies ({
                                let s = #[trigger] along(program, function, path);
                                0 <= i < s.len() && s[i] == Some(kind)
                            }) by {
                                lemma_every_path_is_covered(program, function, at, path);
                            }
                        },
                        None => {
                            assert(spoiled(program, function, pc, i));
                            let (a, b) = choose|a: Seq<int>, b: Seq<int>|
                                #![trigger arrives(function, a, pc), arrives(function, b, pc)]
                                arrives(function, a, pc) && arrives(function, b, pc) && 0 <= i
                                    < along(program, function, a).len() && i < along(
                                    program,
                                    function,
                                    b,
                                ).len() && (along(program, function, a)[i] is None || along(
                                    program,
                                    function,
                                    a,
                                )[i] != along(program, function, b)[i]);
                            assert forall|kind: Kind| !agreed(program, function, pc, i, kind) by {
                                if agreed(program, function, pc, i, kind) {
                                    assert(along(program, function, a)[i] == Some(kind));
                                    assert(along(program, function, b)[i] == Some(kind));
                                }
                            }
                        },
                    }
                }
            },
        }
    }
}

/// What recorded stacks have to satisfy whatever the function: control begins
/// with nothing standing, and every stack recorded leads on to one recorded
/// that claims no more.
pub open spec fn settled(
    program: Program,
    function: Function,
    at: Seq<Option<Seq<Held>>>,
) -> bool {
    &&& at.len() == function.code@.len()
    &&& at.len() > 0 ==> at[0] == Some(Seq::<Held>::empty())
    &&& forall|pc: int| 0 <= pc < at.len() ==> closed_under(program, function, at, pc)
}

/// An arriving stack merged into the one recorded: a word the two disagree
/// about is known no longer, and nothing is known where their depths differ.
pub open spec fn merged(held: Seq<Held>, arriving: Seq<Held>) -> Seq<Held> {
    Seq::new(
        held.len(),
        |i: int|
            if held.len() == arriving.len() && held[i] == arriving[i] {
                held[i]
            } else {
                None
            },
    )
}

/// How many words of a stack are known.
spec fn known(stack: Seq<Held>) -> nat
    decreases stack.len(),
{
    if stack.len() == 0 {
        0
    } else {
        known(stack.drop_last()) + (if stack.last() is Some {
            1nat
        } else {
            0
        })
    }
}

/// Words only stop being known, and one that does is counted.
proof fn lemma_known_falls(a: Seq<Held>, b: Seq<Held>)
    requires
        a.len() == b.len(),
        forall|i: int| 0 <= i < a.len() ==> #[trigger] b[i] is None || b[i] == a[i],
    ensures
        known(b) <= known(a),
        a != b ==> known(b) < known(a),
    decreases a.len(),
{
    if a.len() > 0 {
        assert forall|i: int| 0 <= i < a.drop_last().len() implies #[trigger] b.drop_last()[i]
            is None || b.drop_last()[i] == a.drop_last()[i] by {
            assert(b[i] is None || b[i] == a[i]);
        }
        lemma_known_falls(a.drop_last(), b.drop_last());
        assert(b[a.len() - 1] is None || b[a.len() - 1] == a[a.len() - 1]);
        if a.last() == b.last() && a.drop_last() == b.drop_last() {
            assert(a =~= a.drop_last().push(a.last()));
            assert(b =~= b.drop_last().push(b.last()));
        }
    } else {
        assert(a =~= b);
    }
}

/// How many words are known in all the stacks recorded.
spec fn known_in_all(at: Seq<Option<Seq<Held>>>) -> nat
    decreases at.len(),
{
    if at.len() == 0 {
        0
    } else {
        known_in_all(at.drop_last()) + (match at.last() {
            Some(stack) => known(stack),
            None => 0,
        })
    }
}

/// How many instructions no stack is recorded for.
spec fn unvisited(at: Seq<Option<Seq<Held>>>) -> nat
    decreases at.len(),
{
    if at.len() == 0 {
        0
    } else {
        unvisited(at.drop_last()) + (if at.last() is Some {
            0nat
        } else {
            1
        })
    }
}

/// Recording a stack where there was none, or one that knows less, brings the
/// end nearer.
proof fn lemma_recording_counts(at: Seq<Option<Seq<Held>>>, to: int, stack: Seq<Held>)
    requires
        0 <= to < at.len(),
    ensures
        at[to] is None ==> unvisited(at.update(to, Some(stack))) < unvisited(at),
        at[to] is Some ==> unvisited(at.update(to, Some(stack))) == unvisited(at),
        at[to] matches Some(held) ==> known_in_all(at.update(to, Some(stack))) == known_in_all(at)
            - known(held) + known(stack),
        at[to] is None ==> known_in_all(at.update(to, Some(stack))) == known_in_all(at) + known(
            stack,
        ),
    decreases at.len(),
{
    let next = at.update(to, Some(stack));
    if to == at.len() - 1 {
        assert(next.drop_last() =~= at.drop_last());
    } else {
        assert(next.drop_last() =~= at.drop_last().update(to, Some(stack)));
        assert(next.last() == at.last());
        lemma_recording_counts(at.drop_last(), to, stack);
    }
}

/// A merged stack is the work of the paths that arrive.
proof fn lemma_merged_is_witnessed(
    program: Program,
    function: Function,
    pc: int,
    held: Seq<Held>,
    arriving: Seq<Held>,
)
    requires
        levelled(program, function),
        witnessed(program, function, pc, held),
        witnessed(program, function, pc, arriving),
    ensures
        held.len() == arriving.len(),
        witnessed(program, function, pc, merged(held, arriving)),
{
    let p = choose|p: Seq<int>|
        arrives(function, p, pc) && #[trigger] along(program, function, p).len() == held.len();
    let q = choose|q: Seq<int>|
        arrives(function, q, pc) && #[trigger] along(program, function, q).len() == arriving.len();
    assert(along(program, function, p).len() == along(program, function, q).len());
    let both = merged(held, arriving);
    assert forall|i: int| 0 <= i < both.len() implies match #[trigger] both[i] {
        Some(kind) => seen(program, function, pc, i, kind),
        None => spoiled(program, function, pc, i),
    } by {
        if let (Some(k), Some(l)) = (held[i], arriving[i]) {
            assert(seen(program, function, pc, i, k));
            assert(seen(program, function, pc, i, l));
            if k != l {
                let a = choose|a: Seq<int>| #[trigger]
                    arrives(function, a, pc) && 0 <= i < along(program, function, a).len() && along(
                        program,
                        function,
                        a,
                    )[i] == Some(k);
                let b = choose|b: Seq<int>| #[trigger]
                    arrives(function, b, pc) && 0 <= i < along(program, function, b).len() && along(
                        program,
                        function,
                        b,
                    )[i] == Some(l);
                assert(arrives(function, a, pc) && arrives(function, b, pc));
                assert(spoiled(program, function, pc, i));
            }
        }
    }
}

/// Merges an arriving stack into the one already recorded, and answers whether
/// anything moved.
pub fn merge(held: &Vec<Held>, arriving: &Vec<Held>) -> (result: (Vec<Held>, bool))
    ensures
        result.0@ == merged(held@, arriving@),
        result.1 == (result.0@ != held@),
{
    let same_depth: bool = held.len() == arriving.len();
    let mut out: Vec<Held> = Vec::new();
    let mut changed: bool = false;
    let mut i: usize = 0;
    while i < held.len()
        invariant
            same_depth == (held@.len() == arriving@.len()),
            i <= held@.len(),
            out@ == merged(held@, arriving@).take(i as int),
            changed == exists|j: int| 0 <= j < i && #[trigger] out@[j] != held@[j],
        decreases held@.len() - i,
    {
        let ghost before = out@;
        let agree: bool = same_depth && match (held[i], arriving[i]) {
            (Some(a), Some(b)) => a == b,
            (None, None) => true,
            _ => false,
        };
        if agree {
            out.push(held[i]);
        } else {
            if held[i].is_some() {
                changed = true;
            }
            out.push(None);
        }
        proof {
            assert(out@ =~= merged(held@, arriving@).take(i + 1));
            assert(forall|j: int| 0 <= j < i ==> #[trigger] out@[j] == before[j]);
            if changed {
                if out@[i as int] == held@[i as int] {
                    let j = choose|j: int| 0 <= j < i && #[trigger] before[j] != held@[j];
                    assert(out@[j] != held@[j]);
                }
            }
        }
        i = i + 1;
    }
    proof {
        assert(merged(held@, arriving@).take(i as int) =~= merged(held@, arriving@));
        if !changed {
            assert(out@ =~= held@);
        }
    }
    (out, changed)
}

/// The same stack again.
fn copy_stack(stack: &Vec<Held>) -> (copy: Vec<Held>)
    ensures
        copy@ == stack@,
{
    let mut copy: Vec<Held> = Vec::new();
    let mut i: usize = 0;
    while i < stack.len()
        invariant
            i <= stack@.len(),
            copy@ == stack@.take(i as int),
        decreases stack@.len() - i,
    {
        copy.push(stack[i]);
        proof {
            assert(copy@ =~= stack@.take(i + 1));
        }
        i = i + 1;
    }
    proof {
        assert(stack@.take(i as int) =~= stack@);
    }
    copy
}

/// The abstract stack an instruction leaves.
fn step_over(program: &Program, inst: Inst, stack: &Vec<Held>) -> (next: Vec<Held>)
    requires
        crate::ir::names_what_exists(*program, inst),
    ensures
        next@ == after(*program, inst, stack@),
{
    let shape = stack_shape(program, inst);
    let taken: u64 = shape.0;
    let left: u64 = shape.1;
    let depth: usize = stack.len();
    let put: Held = if taken == 1 && left == 2 {
        if depth > 0 {
            stack[depth - 1]
        } else {
            None
        }
    } else {
        pushed_kind(program, inst)
    };
    let mut next: Vec<Held> = copy_stack(stack);
    if taken <= depth as u64 {
        next.truncate(depth - taken as usize);
    } else {
        next.truncate(0);
    }
    let ghost kept = next@;
    let mut i: u64 = 0;
    while i < left
        invariant
            i <= left,
            next@ == kept + Seq::new(i as nat, |j: int| put),
        decreases left - i,
    {
        next.push(put);
        proof {
            assert(next@ =~= kept + Seq::new((i + 1) as nat, |j: int| put));
        }
        i = i + 1;
    }
    proof {
        reveal(after);
        assert(next@ =~= after(*program, inst, stack@));
    }
    next
}

/// Simulates one function's value operand stack, one abstract word per
/// operand, over every path control can take.
pub fn simulate(program: &Program, function: &Function) -> (operands: Operands)
    requires
        forall|pc: int|
            0 <= pc < function.code@.len() ==> crate::ir::names_what_exists(
                *program,
                #[trigger] function.code@[pc],
            ),
    ensures
        settled(*program, *function, operands@),
        levelled(*program, *function) ==> tells(*program, *function, operands@) && operands@
            == operands_of(*program, *function),
{
    let mut at: Vec<Option<Vec<Held>>> = Vec::new();
    let count: usize = function.code.len();
    while at.len() < count
        invariant
            at@.len() <= count,
            count == function.code@.len(),
            forall|i: int| 0 <= i < at@.len() ==> (#[trigger] at@[i]) is None,
        decreases count - at@.len(),
    {
        at.push(None);
    }
    let mut queue: Vec<usize> = Vec::new();
    if count > 0 {
        at.set(0, Some(Vec::new()));
        queue.push(0);
        proof {
            let start = seq![0int];
            assert(arrives(*function, start, 0));
            assert(along(*program, *function, start).len() == 0);
            assert(witnessed(*program, *function, 0, stacks(at@)[0]->0));
        }
    }
    proof {
        assert forall|pc: int|
            0 <= pc < at@.len() && (#[trigger] stacks(at@)[pc]) is Some implies queue@.contains(
            pc as usize,
        ) by {
            assert(queue@[0] == 0);
        }
    }
    while queue.len() > 0
        invariant
            count == function.code@.len(),
            at@.len() == count,
            forall|pc: int|
                0 <= pc < function.code@.len() ==> crate::ir::names_what_exists(
                    *program,
                    #[trigger] function.code@[pc],
                ),
            count > 0 ==> stacks(at@)[0] == Some(Seq::<Held>::empty()),
            forall|i: int| 0 <= i < queue@.len() ==> #[trigger] queue@[i] < count,
            levelled(*program, *function) ==> forall|pc: int|
                0 <= pc < count && (#[trigger] stacks(at@)[pc]) is Some ==> witnessed(
                    *program,
                    *function,
                    pc,
                    stacks(at@)[pc]->0,
                ),
            forall|pc: int|
                0 <= pc < count ==> closed_under(*program, *function, stacks(at@), pc)
                    || queue@.contains(pc as usize),
        decreases unvisited(stacks(at@)), known_in_all(stacks(at@)), queue@.len(),
    {
        let ghost waiting = queue@;
        let ghost measure = (unvisited(stacks(at@)), known_in_all(stacks(at@)));
        let last: usize = queue.len() - 1;
        let pc: usize = queue[last];
        queue.truncate(last);
        proof {
            assert(pc == waiting[waiting.len() - 1]);
            assert forall|q: int| 0 <= q < count && q != pc && waiting.contains(q as usize) implies
                #[trigger] queue@.contains(q as usize) by {
                let i = choose|i: int| 0 <= i < waiting.len() && waiting[i] == q as usize;
                assert(i < waiting.len() - 1);
                assert(queue@[i] == q as usize);
            }
        }
        match &at[pc] {
            None => {
                proof {
                    assert(stacks(at@)[pc as int] is None);
                    assert(closed_under(*program, *function, stacks(at@), pc as int));
                }
            },
            Some(held) => {
                let ghost begun = stacks(at@);
                let inst: Inst = function.code[pc];
                let stack: Vec<Held> = step_over(program, inst, held);
                let ghost from = held@;
                proof {
                    assert(begun[pc as int] == Some(from));
                }
                let next: Vec<usize> = successors(inst, pc);
                let mut i: usize = 0;
                while i < next.len()
                    invariant
                        count == function.code@.len(),
                        at@.len() == count,
                        pc < count,
                        inst == function.code@[pc as int],
                        stack@ == after(*program, inst, from),
                        i <= next@.len(),
                        forall|j: int|
                            0 <= j < next@.len() ==> crate::frame::kinds::goes_to(
                                inst,
                                pc as int,
                                #[trigger] next@[j] as int,
                            ),
                        count > 0 ==> stacks(at@)[0] == Some(Seq::<Held>::empty()),
                        forall|i: int| 0 <= i < queue@.len() ==> #[trigger] queue@[i] < count,
                        levelled(*program, *function) ==> witnessed(
                            *program,
                            *function,
                            pc as int,
                            from,
                        ),
                        levelled(*program, *function) ==> forall|q: int|
                            0 <= q < count && (#[trigger] stacks(at@)[q]) is Some ==> witnessed(
                                *program,
                                *function,
                                q,
                                stacks(at@)[q]->0,
                            ),
                        forall|q: int|
                            0 <= q < count && q != pc ==> closed_under(
                                *program,
                                *function,
                                stacks(at@),
                                q,
                            ) || #[trigger] queue@.contains(q as usize),
                        queue@.contains(pc) || (stacks(at@)[pc as int] == Some(from) && forall|
                            j: int,
                        |
                            0 <= j < i && #[trigger] next@[j] < count ==> stacks(
                                at@,
                            )[next@[j] as int] is Some && covers(
                                stacks(at@)[next@[j] as int]->0,
                                stack@,
                            )),
                        unvisited(stacks(at@)) < measure.0 || (unvisited(stacks(at@)) == measure.0
                            && known_in_all(stacks(at@)) < measure.1) || (unvisited(stacks(at@))
                            == measure.0 && known_in_all(stacks(at@)) == measure.1 && queue@.len()
                            < waiting.len()),
                    decreases next@.len() - i,
                {
                    let to: usize = next[i];
                    if to < count {
                        let ghost earlier = stacks(at@);
                        let ghost asked = queue@;
                        let (record, changed): (Vec<Held>, bool) = match &at[to] {
                            None => (copy_stack(&stack), true),
                            Some(held) => merge(held, &stack),
                        };
                        proof {
                            if levelled(*program, *function) {
                                lemma_witnessed_after(
                                    *program,
                                    *function,
                                    pc as int,
                                    to as int,
                                    from,
                                );
                                if let Some(held) = earlier[to as int] {
                                    lemma_merged_is_witnessed(
                                        *program,
                                        *function,
                                        to as int,
                                        held,
                                        stack@,
                                    );
                                }
                            }
                            lemma_recording_counts(earlier, to as int, record@);
                            if let Some(held) = earlier[to as int] {
                                lemma_known_falls(held, merged(held, stack@));
                            }
                        }
                        if changed {
                            at.set(to, Some(record));
                            queue.push(to);
                            proof {
                                assert(stacks(at@) =~= earlier.update(to as int, Some(record@)));
                                lemma_closed_stays(
                                    *program,
                                    *function,
                                    earlier,
                                    to as int,
                                    record@,
                                    asked,
                                    queue@,
                                );
                            }
                        }
                        proof {
                            assert(stacks(at@)[to as int] is Some);
                            assert(covers(stacks(at@)[to as int]->0, stack@));
                            if !queue@.contains(pc) {
                                if asked.contains(pc) {
                                    assert(queue@.contains(pc as int as usize));
                                }
                                assert(stacks(at@)[pc as int] == Some(from));
                                assert forall|j: int|
                                    0 <= j < i + 1 && #[trigger] next@[j] < count implies stacks(
                                    at@,
                                )[next@[j] as int] is Some && covers(
                                    stacks(at@)[next@[j] as int]->0,
                                    stack@,
                                ) by {
                                    if next@[j] != to {
                                        assert(stacks(at@)[next@[j] as int]
                                            == earlier[next@[j] as int]);
                                    }
                                }
                            }
                        }
                    }
                    i = i + 1;
                }
                proof {
                    if !queue@.contains(pc) {
                        assert(closed_under(*program, *function, stacks(at@), pc as int));
                    }
                }
            },
        }
    }
    let operands = Operands { at };
    proof {
        assert(operands@ == stacks(at@));
        assert(settled(*program, *function, operands@));
        if levelled(*program, *function) {
            lemma_fixed_point_tells(*program, *function, operands@);
            lemma_one_reading(
                *program,
                *function,
                operands@,
                operands_of(*program, *function),
            );
        }
    }
    operands
}

/// Recording a stack that claims no more than the last leaves every other
/// instruction as settled as it was.
proof fn lemma_closed_stays(
    program: Program,
    function: Function,
    at: Seq<Option<Seq<Held>>>,
    to: int,
    record: Seq<Held>,
    asked: Seq<usize>,
    queue: Seq<usize>,
)
    requires
        at.len() == function.code@.len(),
        0 <= to < at.len(),
        at.len() <= usize::MAX,
        queue == asked.push(to as usize),
        at[to] matches Some(held) ==> exists|arriving: Seq<Held>|
            record == #[trigger] merged(held, arriving),
    ensures
        queue.contains(to as usize),
        forall|q: int|
            0 <= q < at.len() && asked.contains(q as usize) ==> #[trigger] queue.contains(
                q as usize,
            ),
        forall|q: int|
            0 <= q < at.len() && q != to && closed_under(program, function, at, q)
                ==> #[trigger] closed_under(program, function, at.update(to, Some(record)), q),
{
    let next = at.update(to, Some(record));
    assert(queue[asked.len() as int] == to as usize);
    assert forall|q: int| 0 <= q < at.len() && asked.contains(q as usize) implies
        #[trigger] queue.contains(q as usize) by {
        let i = choose|i: int| 0 <= i < asked.len() && asked[i] == q as usize;
        assert(queue[i] == q as usize);
    }
    assert forall|q: int|
        0 <= q < at.len() && q != to && closed_under(program, function, at, q) implies
        #[trigger] closed_under(program, function, next, q) by {
        if let Some(stack) = next[q] {
            assert forall|r: int|
                #![trigger crate::frame::kinds::goes_to(function.code@[q], q, r)]
                0 <= r < function.code@.len() && crate::frame::kinds::goes_to(
                    function.code@[q],
                    q,
                    r,
                ) implies (next[r] matches Some(held) && covers(
                held,
                after(program, function.code@[q], stack),
            )) by {
                let arriving = after(program, function.code@[q], stack);
                assert(at[r] matches Some(held) && covers(held, arriving));
                if r == to {
                    let held = at[r]->0;
                    let other = choose|other: Seq<Held>| record == #[trigger] merged(held, other);
                    assert forall|i: int| 0 <= i < record.len() implies #[trigger] record[i] is None
                        || (record.len() == arriving.len() && record[i] == arriving[i]) by {
                        assert(record[i] is None || record[i] == held[i]);
                        assert(held[i] is None || (held.len() == arriving.len() && held[i]
                            == arriving[i]));
                    }
                }
            }
        }
    }
}

/// Of two stacks that meet, what both agree on stays known and nothing else
/// does; merging again changes nothing, and where the depths differ nothing is
/// known.
pub proof fn what_meets_is_known_where_both_agree(
    held: Seq<Held>,
    arriving: Seq<Held>,
    i: int,
    kind: Kind,
)
    requires
        0 <= i < held.len(),
    ensures
        merged(held, arriving).len() == held.len(),
        held.len() == arriving.len() ==> (merged(held, arriving)[i] == Some(kind) <==> held[i]
            == Some(kind) && arriving[i] == Some(kind)),
        held.len() != arriving.len() ==> merged(held, arriving)[i] is None,
        merged(held, held) == held,
        merged(merged(held, arriving), arriving) == merged(held, arriving),
        held.len() == arriving.len() ==> merged(held, arriving) == merged(arriving, held),
{
    assert(merged(held, held) =~= held);
    assert(merged(merged(held, arriving), arriving) =~= merged(held, arriving));
    if held.len() == arriving.len() {
        assert(merged(held, arriving) =~= merged(arriving, held));
    }
}

} // verus!
