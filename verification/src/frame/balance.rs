//! What stands on the stack of a run is what the simulation of its operands
//! says.
//!
//! A function has two sorts of operands on the one stack: values, which the
//! simulation knows, and scalars, which it passes over. Where each stands is
//! the balance of a function.
use crate::frame::kinds::{Held, Kind};
use crate::frame::machine::{Call, Machine};
use crate::ir::{Function, FunctionId, Inst, Program};
use crate::slot::Plan;
use vstd::prelude::*;

verus! {

/// What a word is.
pub ghost enum Ty {
    /// A word that is no handle.
    Word,
    /// A `Bool`.
    Bool,
    /// A float the program names.
    Float,
    /// A `Bool` that says whether the object the word below names is this case.
    Tests(Seq<char>),
    /// A handle, or none yet.
    Unset,
    /// A handle of an object of one of the sorts listed under this number.
    Object(int),
}

/// What a value over the boundary is.
pub ghost enum Data {
    Any,
    Int,
    Bool,
    /// What a `?` opens it to, where it opens it.
    Opens(Box<Data>),
}

/// How the operands of a function stand at one of its instructions.
pub ghost struct Stand {
    /// What each word above the slots is.
    pub words: Seq<Ty>,
    /// Which of the words each value operand is, and none where it is kept over
    /// the boundary.
    pub values: Seq<Option<int>>,
    /// What each value is that the function keeps over the boundary.
    pub kept: Seq<Data>,
    /// What each slot holds.
    pub locals: Seq<Ty>,
}

/// What stands where in a program, and what its objects hold.
pub ghost struct Types {
    /// How the operands of each function stand at each instruction.
    pub at: Map<FunctionId, Seq<Stand>>,
    /// The sorts of objects a handle may name, under a number: what the words
    /// of each are.
    pub objects: Map<int, Map<Plan, Seq<Ty>>>,
    /// What each function that answers a value answers.
    pub answers: Map<FunctionId, Data>,
}

impl Types {
    pub open spec fn stand(self, id: FunctionId, pc: int) -> Stand {
        self.at[id][pc]
    }

    /// The sorts of objects listed under a number, with what the words of each
    /// are.
    pub open spec fn sorts(self, id: int) -> Map<Plan, Seq<Ty>> {
        if self.objects.dom().contains(id) {
            self.objects[id]
        } else {
            Map::empty()
        }
    }
}

/// What an instruction leaves.
pub ghost enum Out {
    Nothing,
    /// A scalar word.
    Scalar,
    /// A word that is a value.
    Value,
    /// The scalar on top, as a value.
    Same,
    /// A value over the boundary.
    Kept,
}

/// What an instruction takes, of values, of words and of values kept, and what
/// it leaves. Some of the values on top are looked at only.
pub ghost struct Move {
    pub values: int,
    pub looks: int,
    pub words: int,
    pub kept: int,
    pub out: Out,
}

pub open spec fn moves(values: int, words: int, out: Out) -> Move {
    Move { values, looks: values, words, kept: 0, out }
}

/// The operand on top is a text or a case for certain.
pub open spec fn crosses(program: Program, function: Function, pc: int) -> bool {
    let at = crate::frame::machine::standing(program, function);
    crate::frame::admission::stands(at, pc, Kind::Str) || crate::frame::admission::stands(
        at,
        pc,
        Kind::Enum,
    )
}

/// The value the instruction takes is one kept over the boundary.
pub open spec fn takes_kept(program: Program, function: Function, pc: int) -> bool {
    !crosses(program, function, pc) && (function.code@[pc] is Pop
        ==> crate::frame::admission::leaves_boundary(program, function, pc))
}

/// A value taken, and what is left.
pub open spec fn takes_value(kept: bool, out: Out) -> Move {
    if kept {
        Move { values: 1, looks: 0, words: 0, kept: 1, out }
    } else {
        moves(1, 1, out)
    }
}

/// What an instruction that goes on to the next one takes and leaves, once it
/// is done.
pub open spec fn move_of(program: Program, function: Function, pc: int) -> Option<Move> {
    let inst = function.code@[pc];
    match inst {
        Inst::ScalarConst(_) => Some(moves(0, 0, Out::Scalar)),
        Inst::LoadScalar(_) => Some(moves(0, 0, Out::Scalar)),
        Inst::StoreScalar(_) => Some(moves(0, 1, Out::Nothing)),
        Inst::ScalarPop => Some(moves(0, 1, Out::Nothing)),
        Inst::IntBinary(_) => Some(moves(0, 2, Out::Scalar)),
        Inst::Const(_) => Some(moves(0, 0, Out::Value)),
        Inst::Dup => Some(Move { values: 0, looks: 1, words: 0, kept: 0, out: Out::Value }),
        Inst::ScalarToValue(_) => Some(moves(0, 0, Out::Same)),
        Inst::ValueToScalar => Some(moves(1, 0, Out::Nothing)),
        Inst::LoadLocal(_) => Some(moves(0, 0, Out::Value)),
        Inst::StoreLocal(_) => Some(moves(1, 1, Out::Nothing)),
        Inst::MakeStruct(of) => {
            let fields = program.structs@[of.0 as int].fields@.len() as int;
            Some(moves(fields, fields, Out::Value))
        },
        Inst::SetField(_) => Some(moves(2, 2, Out::Value)),
        Inst::GetFieldAt { of: _, at: _ } => Some(moves(1, 1, Out::Value)),
        Inst::GetFieldAtScalar(_) => Some(moves(1, 1, Out::Scalar)),
        Inst::MakeEnum { ty: _, named: _, argc } => Some(
            moves(argc as int, argc as int, Out::Value),
        ),
        Inst::TestCase(_) => Some(
            Move { values: 0, looks: 1, words: 0, kept: 0, out: Out::Value },
        ),
        Inst::GetPayload { case: _, at: _ } => Some(
            Move { values: 0, looks: 1, words: 0, kept: 0, out: Out::Value },
        ),
        Inst::MakeBuiltin { name: _, argc } => Some(
            moves(
                argc as int,
                argc as int,
                if crate::frame::kinds::pushes(program, inst) is Some {
                    Out::Value
                } else {
                    Out::Kept
                },
            ),
        ),
        Inst::CallHost { module: _, op: _, argc } => Some(
            moves(
                argc as int,
                argc as int,
                if crate::frame::kinds::pushes(program, inst) is Some {
                    Out::Value
                } else {
                    Out::Kept
                },
            ),
        ),
        Inst::Concat(count) => Some(moves(count as int, count as int, Out::Value)),
        Inst::Binary(_) => Some(moves(2, 2, Out::Value)),
        Inst::Pop => Some(takes_value(takes_kept(program, function, pc), Out::Nothing)),
        Inst::Try { payload } => Some(
            takes_value(
                takes_kept(program, function, pc),
                if payload is Scalar {
                    Out::Value
                } else {
                    Out::Kept
                },
            ),
        ),
        _ => None,
    }
}

/// The values that stay are words that stay.
pub open spec fn values_below(values: Seq<Option<int>>, count: int, words: int) -> bool {
    forall|i: int|
        0 <= i < values.len() - count ==> (#[trigger] values[i] matches Some(p) ==> 0 <= p < words)
}

/// The values on top are the words on top.
pub open spec fn on_top(values: Seq<Option<int>>, count: int, words: int) -> bool {
    &&& 0 <= count <= values.len()
    &&& count <= words
    &&& forall|i: int|
        values.len() - count <= i < values.len() ==> #[trigger] values[i] == Some(
            words - values.len() + i,
        )
}

/// What a move takes stands there.
pub open spec fn can_move(s: Stand, by: Move) -> bool {
    let n = s.words.len() as int;
    &&& 0 <= by.values <= s.values.len()
    &&& 0 <= by.words <= n
    &&& 0 <= by.kept <= s.kept.len()
    &&& on_top(s.values, by.looks, n)
    &&& values_below(s.values, by.values, n - by.words)
    &&& by.kept == 1 ==> s.values.last() is None
    &&& by.out is Same ==> n > 0 && by.words == 0
}

/// The values once a move is made.
pub open spec fn values_after(s: Stand, by: Move) -> Seq<Option<int>> {
    let rest = s.values.take(s.values.len() - by.values);
    let n = s.words.len() as int;
    match by.out {
        Out::Nothing => rest,
        Out::Scalar => rest,
        Out::Value => rest.push(Some(n - by.words)),
        Out::Same => rest.push(Some(n - 1)),
        Out::Kept => rest.push(None),
    }
}

/// How many words a move leaves.
pub open spec fn words_after(s: Stand, by: Move) -> int {
    s.words.len() - by.words + (if by.out is Scalar || by.out is Value {
        1int
    } else {
        0
    })
}

/// How many values a move leaves over the boundary.
pub open spec fn kept_after(s: Stand, by: Move) -> int {
    s.kept.len() - by.kept + (if by.out is Kept {
        1int
    } else {
        0
    })
}

/// Control goes on to an instruction where a move leaves what stands there.
pub open spec fn goes_on(program: Program, types: Types, id: FunctionId, s: Stand, by: Move, to: int) -> bool {
    &&& 0 <= to < program.func(id).code@.len()
    &&& types.stand(id, to).values == values_after(s, by)
    &&& types.stand(id, to).words.len() == words_after(s, by)
    &&& types.stand(id, to).kept.len() == kept_after(s, by)
}

/// An instruction finds the operands it takes, and leaves what stands where
/// control goes on.
#[verifier::opaque]
pub open spec fn balanced_at(program: Program, types: Types, id: FunctionId, pc: int) -> bool {
    let function = program.func(id);
    let s = types.stand(id, pc);
    match function.code@[pc] {
        Inst::Jump(to) => goes_on(program, types, id, s, moves(0, 0, Out::Nothing), to as int),
        Inst::JumpIfFalseScalar(to) => branches(program, types, id, pc, 0, to as int),
        Inst::JumpIfTrueScalar(to) => branches(program, types, id, pc, 0, to as int),
        Inst::JumpIfFalse(to) => branches(program, types, id, pc, 1, to as int),
        Inst::JumpIfTrue(to) => branches(program, types, id, pc, 1, to as int),
        Inst::Call { function: target, scalar_argc, value_argc, place_argc: _ } => {
            let by = call_move(program, target, scalar_argc as int, value_argc as int);
            &&& can_move(s, by)
            &&& by.words <= program.func(target).slots@.len()
            &&& goes_on_from_call(program, types, id, s, target, by, pc + 1)
        },
        Inst::Return => {
            let by = takes_value(takes_kept(program, function, pc), Out::Nothing);
            &&& !(function.returns is Scalar)
            &&& can_move(s, by)
            &&& s.kept.len() == by.kept
        },
        Inst::ReturnScalar => function.returns is Scalar && s.words.len() > 0 && s.kept.len() == 0,
        _ => match move_of(program, function, pc) {
            Some(by) => {
                &&& can_move(s, by)
                &&& function.code@[pc] is Try ==> s.kept.len() == by.kept && !(
                function.returns is Scalar)
                &&& goes_on(program, types, id, s, by, pc + 1)
            },
            None => false,
        },
    }
}

/// A branch takes a word, which is a value or a scalar, and goes on either way.
pub open spec fn branches(
    program: Program,
    types: Types,
    id: FunctionId,
    pc: int,
    values: int,
    to: int,
) -> bool {
    let s = types.stand(id, pc);
    let by = moves(values, 1, Out::Nothing);
    &&& can_move(s, by)
    &&& goes_on(program, types, id, s, by, to)
    &&& goes_on(program, types, id, s, by, pc + 1)
}

/// What a call takes. The values among its arguments stand anywhere among them.
pub open spec fn call_move(program: Program, target: FunctionId, scalars: int, values: int) -> Move {
    Move { values, looks: 0, words: scalars + values, kept: 0, out: Out::Nothing }
}

/// Control goes on behind a call with its answer.
pub open spec fn goes_on_from_call(
    program: Program,
    types: Types,
    id: FunctionId,
    s: Stand,
    target: FunctionId,
    by: Move,
    to: int,
) -> bool {
    goes_on(program, types, id, s, answered_move(program, target, by), to)
}

/// A call and its answer: a scalar word, or a value over the boundary.
pub open spec fn answered_move(program: Program, target: FunctionId, by: Move) -> Move {
    Move {
        out: if program.func(target).returns is Scalar {
            Out::Scalar
        } else {
            Out::Kept
        },
        ..by
    }
}

/// Every function a run can enter has its operands in balance.
#[verifier::opaque]
pub open spec fn balanced(program: Program, types: Types, entry: FunctionId) -> bool {
    forall|id: FunctionId|
        program.has_function(id) && #[trigger] crate::frame::admission::reaches(program, entry, id)
            ==> {
            let function = program.func(id);
            &&& function.code@.len() > 0
            &&& types.stand(id, 0).words.len() == 0
            &&& types.stand(id, 0).values.len() == 0
            &&& types.stand(id, 0).kept.len() == 0
            &&& forall|pc: int|
                0 <= pc < function.code@.len() ==> #[trigger] balanced_at(program, types, id, pc)
        }
}

// ------------------------------------------------------------- a run

/// What is known of a standing call: the way control took in it, and where the
/// values it keeps over the boundary begin.
pub ghost struct Mark {
    pub path: Seq<int>,
    pub low: int,
}

/// Every kind that is known of a value operand is that of a word, and the word
/// is a handle just where the kind says so.
pub open spec fn agrees(
    held: Seq<Held>,
    values: Seq<Option<int>>,
    refs: Seq<bool>,
    from: int,
) -> bool {
    &&& held.len() == values.len()
    &&& forall|i: int|
        0 <= i < held.len() && (#[trigger] held[i]) is Some ==> values[i] is Some
            && refs[from + values[i]->0] == held[i]->0.refers()
}

/// Where the operands of a call begin.
pub open spec fn operands_from(program: Program, call: Call) -> int {
    call.base + program.func(call.function).slots@.len()
}

/// A call stands at an instruction with some of its operands taken.
pub open spec fn part_way(
    program: Program,
    types: Types,
    call: Call,
    mark: Mark,
    pc: int,
    by: Move,
    words: int,
    boundary: int,
    refs: Seq<bool>,
) -> bool {
    let s = types.stand(call.function, pc);
    let function = program.func(call.function);
    let held = crate::frame::operands::along(program, function, mark.path);
    &&& crate::frame::operands::arrives(function, mark.path, pc)
    &&& can_move(s, by)
    &&& words == operands_from(program, call) + s.words.len() - by.words
    &&& mark.low >= 0
    &&& boundary == mark.low + s.kept.len() - by.kept
    &&& held.len() == s.values.len()
    &&& agrees(
        held.take(held.len() - by.values),
        s.values.take(s.values.len() - by.values),
        refs,
        operands_from(program, call),
    )
}

/// A call waits for another to answer.
pub open spec fn calls(
    program: Program,
    types: Types,
    caller: Call,
    mark: Mark,
    call: Call,
    next: Mark,
    refs: Seq<bool>,
) -> bool {
    let pc = call.return_pc - 1;
    &&& 0 <= pc < program.func(caller.function).code@.len()
    &&& program.func(caller.function).code@[pc] matches Inst::Call {
        function: target,
        scalar_argc,
        value_argc,
        place_argc: _,
    } && target == call.function && part_way(
        program,
        types,
        caller,
        mark,
        pc,
        call_move(program, target, scalar_argc as int, value_argc as int),
        call.base as int,
        next.low,
        refs,
    )
}

/// All calls but the last wait for the one after them.
pub open spec fn all_call(
    program: Program,
    types: Types,
    frames: Seq<Call>,
    marks: Seq<Mark>,
    refs: Seq<bool>,
) -> bool {
    &&& marks.len() == frames.len()
    &&& frames.len() > 0
    &&& frames[0].base == 0
    &&& forall|i: int, j: int|
        #![trigger frames[i], frames[j]]
        0 <= i <= j < frames.len() ==> frames[i].base <= frames[j].base
    &&& forall|i: int, j: int|
        #![trigger frames[i], frames[j]]
        0 <= i && j == i + 1 && j < frames.len() ==> calls(
            program,
            types,
            frames[i],
            marks[i],
            frames[j],
            marks[j],
            refs,
        )
}

/// A run stands in balance at an instruction that has taken some operands.
#[verifier::opaque]
pub open spec fn stands_by(
    program: Program,
    types: Types,
    entry: FunctionId,
    m: Machine,
    marks: Seq<Mark>,
    by: Move,
) -> bool {
    &&& crate::frame::laws::confined(program, entry, m)
    &&& m.refs.len() == m.words.len()
    &&& all_call(program, types, m.frames, marks, m.refs)
    &&& part_way(
        program,
        types,
        m.frames.last(),
        marks.last(),
        m.pc,
        by,
        m.words.len() as int,
        m.boundary.len() as int,
        m.refs,
    )
}

pub open spec fn no_move() -> Move {
    moves(0, 0, Out::Nothing)
}

/// A run stands in balance, by the marks of its calls.
#[verifier::opaque]
pub open spec fn marked(
    program: Program,
    types: Types,
    entry: FunctionId,
    m: Machine,
    marks: Seq<Mark>,
) -> bool {
    m.pending is Nothing && stands_by(program, types, entry, m, marks, no_move())
}

/// A run stands in balance.
pub open spec fn in_balance(program: Program, types: Types, entry: FunctionId, m: Machine) -> bool {
    exists|marks: Seq<Mark>| #[trigger] marked(program, types, entry, m, marks)
}

/// Where the simulation knows the kind of an operand, the operand is a word,
/// and it is a handle just where the kind says so.
pub open spec fn kinds_are_true(program: Program, types: Types, m: Machine) -> bool {
    let call = m.frames.last();
    let function = program.func(call.function);
    let at = crate::frame::machine::standing(program, function);
    let values = types.stand(call.function, m.pc).values;
    at[m.pc] matches Some(stack) && stack.len() == values.len() && forall|i: int|
        0 <= i < stack.len() && (#[trigger] stack[i]) is Some ==> values[i] is Some
            && m.refs[operands_from(program, call) + values[i]->0] == stack[i]->0.refers()
}

// ------------------------------------------------------------ lemmas

/// What the simulation makes of a move.
pub proof fn lemma_after(program: Program, function: Function, pc: int, held: Seq<Held>, by: Move)
    requires
        move_of(program, function, pc) == Some(by),
        0 <= by.values <= held.len(),
        function.code@[pc] is Dup ==> held.len() > 0,
    ensures
        ({
            let inst = function.code@[pc];
            let rest = held.take(held.len() - by.values);
            crate::frame::operands::after(program, inst, held) == (if by.out is Nothing
                || by.out is Scalar {
                rest
            } else if inst is Dup {
                rest.push(held.last())
            } else {
                rest.push(crate::frame::kinds::pushes(program, inst))
            })
        }),
{
    reveal(crate::frame::operands::after);
    let inst = function.code@[pc];
    let rest = held.take(held.len() - by.values);
    let done = crate::frame::operands::after(program, inst, held);
    if inst is Dup {
        assert(done =~= rest.push(held.last()));
    } else if by.out is Nothing || by.out is Scalar {
        assert(done =~= rest);
    } else {
        assert(done =~= rest.push(crate::frame::kinds::pushes(program, inst)));
    }
}

/// A path goes on.
pub proof fn lemma_path_goes_on(program: Program, function: Function, path: Seq<int>, pc: int, to: int)
    requires
        crate::frame::operands::arrives(function, path, pc),
        crate::frame::kinds::goes_to(function.code@[pc], pc, to),
        0 <= to < function.code@.len(),
    ensures
        crate::frame::operands::arrives(function, path.push(to), to),
        crate::frame::operands::along(program, function, path.push(to))
            == crate::frame::operands::after(
            program,
            function.code@[pc],
            crate::frame::operands::along(program, function, path),
        ),
{
    let longer = path.push(to);
    assert(longer.drop_last() =~= path);
    assert(longer[longer.len() - 2] == pc);
    assert forall|j: int| 0 <= j < longer.len() - 1 implies crate::frame::kinds::goes_to(
        function.code@[#[trigger] longer[j]],
        longer[j],
        longer[j + 1],
    ) by {
        if j < path.len() - 1 {
            assert(longer[j] == path[j] && longer[j + 1] == path[j + 1]);
        }
    }
    assert forall|j: int| 0 <= j < longer.len() implies 0 <= #[trigger] longer[j]
        < function.code@.len() by {
        if j < path.len() {
            assert(longer[j] == path[j]);
        }
    }
}

/// The simulation of a function that is levelled says what every path agrees
/// on.
pub proof fn lemma_standing_tells(program: Program, function: Function)
    requires
        crate::frame::operands::levelled(program, function),
    ensures
        crate::frame::operands::tells(
            program,
            function,
            crate::frame::operands::operands_of(program, function),
        ),
{
    let at = Seq::new(
        function.code@.len(),
        |pc: int|
            if exists|path: Seq<int>| crate::frame::operands::arrives(function, path, pc) {
                let path = choose|path: Seq<int>|
                    crate::frame::operands::arrives(function, path, pc);
                Some(
                    Seq::new(
                        crate::frame::operands::along(program, function, path).len(),
                        |i: int|
                            if exists|kind: Kind|
                                crate::frame::operands::agreed(program, function, pc, i, kind) {
                                Some(
                                    choose|kind: Kind|
                                        crate::frame::operands::agreed(
                                            program,
                                            function,
                                            pc,
                                            i,
                                            kind,
                                        ),
                                )
                            } else {
                                None::<Kind>
                            },
                    ),
                )
            } else {
                None::<Seq<Held>>
            },
    );
    assert forall|pc: int| 0 <= pc < at.len() implies match #[trigger] at[pc] {
        Some(stack) => crate::frame::operands::records(program, function, pc, stack),
        None => forall|path: Seq<int>| !crate::frame::operands::arrives(function, path, pc),
    } by {
        if let Some(stack) = at[pc] {
            let path = choose|path: Seq<int>| crate::frame::operands::arrives(function, path, pc);
            assert(crate::frame::operands::arrives(function, path, pc));
            assert forall|other: Seq<int>|
                crate::frame::operands::arrives(
                    function,
                    other,
                    pc,
                ) implies #[trigger] crate::frame::operands::along(program, function, other).len()
                == stack.len() by {
                assert(crate::frame::operands::along(program, function, other).len()
                    == crate::frame::operands::along(program, function, path).len());
            }
            assert forall|i: int| 0 <= i < stack.len() implies match #[trigger] stack[i] {
                Some(kind) => crate::frame::operands::agreed(program, function, pc, i, kind),
                None => forall|kind: Kind|
                    !crate::frame::operands::agreed(program, function, pc, i, kind),
            } by {
                if exists|kind: Kind| crate::frame::operands::agreed(program, function, pc, i, kind) {
                    let kind = choose|kind: Kind|
                        crate::frame::operands::agreed(program, function, pc, i, kind);
                    assert(stack[i] == Some(kind));
                }
            }
        }
    }
    assert(crate::frame::operands::tells(program, function, at));
}

/// What stands on a path is what is recorded, where something is.
pub proof fn lemma_recorded(program: Program, function: Function, path: Seq<int>, pc: int)
    requires
        crate::frame::operands::levelled(program, function),
        crate::frame::operands::arrives(function, path, pc),
    ensures
        ({
            let at = crate::frame::machine::standing(program, function);
            let held = crate::frame::operands::along(program, function, path);
            at.len() == function.code@.len() && (at[pc] matches Some(stack) && stack.len()
                == held.len() && forall|i: int|
                0 <= i < stack.len() && (#[trigger] stack[i]) is Some ==> held[i] == stack[i])
        }),
{
    lemma_standing_tells(program, function);
    let at = crate::frame::machine::standing(program, function);
    let held = crate::frame::operands::along(program, function, path);
    assert(0 <= pc < function.code@.len()) by {
        assert(path[path.len() - 1] == pc);
    }
    assert(at[pc] is Some);
    let stack = at[pc]->0;
    assert forall|i: int| 0 <= i < stack.len() && (#[trigger] stack[i]) is Some implies held[i]
        == stack[i] by {
        assert(crate::frame::operands::agreed(program, function, pc, i, stack[i]->0));
    }
}

/// A run in balance has the kinds the simulation says.
pub proof fn lemma_kinds(program: Program, types: Types, entry: FunctionId, m: Machine, marks: Seq<Mark>)
    requires
        crate::frame::validity::valid(program),
        marked(program, types, entry, m, marks),
    ensures
        kinds_are_true(program, types, m),
{
    reveal(stands_by);
    reveal(marked);
    let call = m.frames.last();
    assert(crate::frame::laws::is_admitted(
        program,
        entry,
        m.frames[m.frames.len() - 1].function,
    ));
    let function = program.func(call.function);
    let mark = marks.last();
    let held = crate::frame::operands::along(program, function, mark.path);
    lemma_recorded(program, function, mark.path, m.pc);
    let values = types.stand(call.function, m.pc).values;
    assert(held.take(held.len() as int) =~= held);
    assert(values.take(values.len() as int) =~= values);
}

/// A run waits for an answer in balance, the arguments of its call taken.
#[verifier::opaque]
pub open spec fn waits_in_balance(
    program: Program,
    types: Types,
    entry: FunctionId,
    m: Machine,
    marks: Seq<Mark>,
) -> bool {
    let function = crate::frame::machine::running(program, m);
    let inst = function.code@[m.pc];
    &&& m.pending is Host || m.pending is Builtin
    &&& m.pending is Host ==> inst is CallHost
    &&& m.pending is Builtin ==> inst is MakeBuiltin && crate::frame::kinds::pushes(
        program,
        inst,
    ) is None
    &&& stands_by(program, types, entry, m, marks, move_of(program, function, m.pc)->0)
}

/// The operands a move takes are gone.
pub open spec fn taken_off(m: Machine, by: Move) -> Machine {
    Machine {
        words: m.words.take(m.words.len() - by.words),
        refs: m.refs.take(m.refs.len() - by.words),
        boundary: m.boundary.take(m.boundary.len() - by.kept),
        ..m
    }
}

/// The calls below the running one do not look at its words.
pub proof fn lemma_calls_below(
    program: Program,
    types: Types,
    frames: Seq<Call>,
    marks: Seq<Mark>,
    refs: Seq<bool>,
    other: Seq<bool>,
)
    requires
        all_call(program, types, frames, marks, refs),
        forall|i: int| 0 <= i < frames.last().base ==> #[trigger] other[i] == refs[i],
    ensures
        all_call(program, types, frames, marks, other),
{
    let last = frames.len() - 1;
    assert forall|i: int, j: int|
        #![trigger frames[i], frames[j]]
        0 <= i && j == i + 1 && j < frames.len() implies calls(
        program,
        types,
        frames[i],
        marks[i],
        frames[j],
        marks[j],
        other,
    ) by {
        assert(calls(program, types, frames[i], marks[i], frames[j], marks[j], refs));
        assert(frames[j].base <= frames[last].base);
        assert(frames[0].base <= frames[i].base);
        let pc = frames[j].return_pc - 1;
        let st = types.stand(frames[i].function, pc);
        let function = program.func(frames[i].function);
        if let Inst::Call { function: target, scalar_argc, value_argc, place_argc: _ } =
            function.code@[pc] {
            let by = call_move(program, target, scalar_argc as int, value_argc as int);
            let held = crate::frame::operands::along(program, function, marks[i].path);
            lemma_agrees_elsewhere(
                held.take(held.len() - by.values),
                st.values.take(st.values.len() - by.values),
                refs,
                other,
                operands_from(program, frames[i]),
                st.words.len() - by.words,
            );
        }
    }
}

/// Kinds agree with other bits that are the same where they look.
pub proof fn lemma_agrees_elsewhere(
    held: Seq<Held>,
    values: Seq<Option<int>>,
    refs: Seq<bool>,
    other: Seq<bool>,
    from: int,
    words: int,
)
    requires
        agrees(held, values, refs, from),
        from >= 0,
        values_below(values, 0, words),
        forall|i: int| 0 <= i < from + words ==> #[trigger] other[i] == refs[i],
    ensures
        agrees(held, values, other, from),
{
    assert forall|i: int| 0 <= i < held.len() && (#[trigger] held[i]) is Some implies values[i] is Some
        && other[from + values[i]->0] == held[i]->0.refers() by {
        assert(values[i] is Some);
    }
}

/// A run in balance stays so once an instruction has taken its operands.
pub proof fn lemma_takes(
    program: Program,
    types: Types,
    entry: FunctionId,
    m: Machine,
    marks: Seq<Mark>,
    by: Move,
)
    requires
        stands_by(program, types, entry, m, marks, no_move()),
        can_move(types.stand(m.frames.last().function, m.pc), by),
    ensures
        stands_by(program, types, entry, taken_off(m, by), marks, by),
{
    reveal(stands_by);
    let n = taken_off(m, by);
    let call = m.frames.last();
    let mark = marks.last();
    let st = types.stand(call.function, m.pc);
    let function = program.func(call.function);
    let held = crate::frame::operands::along(program, function, mark.path);
    let from = operands_from(program, call);
    lemma_calls_below(program, types, m.frames, marks, m.refs, n.refs);
    assert(held.take(held.len() as int) =~= held);
    assert(st.values.take(st.values.len() as int) =~= st.values);
    let kept = held.len() - by.values;
    assert(agrees(held, st.values, m.refs, from));
    assert(agrees(held.take(kept), st.values.take(kept), n.refs, from)) by {
        assert forall|i: int| 0 <= i < kept && (#[trigger] held.take(kept)[i]) is Some implies st.values.take(
            kept,
        )[i] is Some && n.refs[from + st.values.take(kept)[i]->0] == held.take(
            kept,
        )[i]->0.refers() by {
            assert(held[i] is Some);
            assert(st.values[i] matches Some(p) && 0 <= p < st.words.len() - by.words);
        }
    }
}

/// What an instruction leaves for the simulation: nothing, or one operand.
pub open spec fn leaves(
    program: Program,
    inst: Inst,
    held: Seq<Held>,
    by: Move,
    put: Held,
) -> bool {
    let rest = held.take(held.len() - by.values);
    crate::frame::operands::after(program, inst, held) == (if by.out is Nothing || by.out is Scalar {
        rest
    } else {
        rest.push(put)
    })
}

/// A run that has taken its operands leaves what it should and goes on in
/// balance.
pub proof fn lemma_settles(
    program: Program,
    types: Types,
    entry: FunctionId,
    m: Machine,
    marks: Seq<Mark>,
    by: Move,
    n: Machine,
    put: Held,
)
    requires
        stands_by(program, types, entry, m, marks, by),
        n.pending is Nothing,
        n.frames == m.frames,
        n.refs.len() == n.words.len(),
        n.words.len() == m.words.len() + (if by.out is Scalar || by.out is Value {
            1int
        } else {
            0
        }),
        n.boundary.len() == m.boundary.len() + (if by.out is Kept {
            1int
        } else {
            0
        }),
        forall|i: int| 0 <= i < m.refs.len() ==> #[trigger] n.refs[i] == m.refs[i],
        crate::frame::kinds::goes_to(
            crate::frame::machine::running(program, m).code@[m.pc],
            m.pc,
            n.pc,
        ),
        goes_on(
            program,
            types,
            m.frames.last().function,
            types.stand(m.frames.last().function, m.pc),
            by,
            n.pc,
        ),
        leaves(
            program,
            crate::frame::machine::running(program, m).code@[m.pc],
            crate::frame::operands::along(
                program,
                crate::frame::machine::running(program, m),
                marks.last().path,
            ),
            by,
            put,
        ),
        by.out is Value && put is Some ==> n.refs.last() == put->0.refers(),
        by.out is Same && put is Some ==> n.refs.last() == put->0.refers(),
        by.out is Kept ==> put is None,
    ensures
        marked(
            program,
            types,
            entry,
            n,
            marks.drop_last().push(
                Mark { path: marks.last().path.push(n.pc), low: marks.last().low },
            ),
        ),
{
    reveal(stands_by);
    reveal(marked);
    let call = m.frames.last();
    let mark = marks.last();
    let function = program.func(call.function);
    let next = Mark { path: mark.path.push(n.pc), low: mark.low };
    let other = marks.drop_last().push(next);
    let from = operands_from(program, call);
    let st = types.stand(call.function, m.pc);
    let to = types.stand(call.function, n.pc);
    lemma_path_goes_on(program, function, mark.path, m.pc, n.pc);
    lemma_calls_below(program, types, m.frames, marks, m.refs, n.refs);
    assert(all_call(program, types, n.frames, other, n.refs)) by {
        assert forall|i: int, j: int|
            #![trigger n.frames[i], n.frames[j]]
            0 <= i && j == i + 1 && j < n.frames.len() implies calls(
            program,
            types,
            n.frames[i],
            other[i],
            n.frames[j],
            other[j],
            n.refs,
        ) by {
            assert(calls(
                program,
                types,
                n.frames[i],
                marks[i],
                n.frames[j],
                marks[j],
                n.refs,
            ));
            assert(other[i] == marks[i]);
            assert(other[j].low == marks[j].low);
        }
    }
    let held = crate::frame::operands::along(program, function, mark.path);
    let then = crate::frame::operands::along(program, function, next.path);
    let kept = held.len() - by.values;
    assert(then.take(then.len() as int) =~= then);
    assert(to.values.take(to.values.len() as int) =~= to.values);
    assert(agrees(then, to.values, n.refs, from)) by {
        assert forall|i: int| 0 <= i < then.len() && (#[trigger] then[i]) is Some implies to.values[i] is Some
            && n.refs[from + to.values[i]->0] == then[i]->0.refers() by {
            if i < kept {
                assert(then[i] == held.take(kept)[i]);
                assert(to.values[i] == st.values.take(kept)[i]);
                assert(st.values[i] matches Some(p) && 0 <= p < st.words.len() - by.words);
            } else {
                assert(then[i] == put);
            }
        }
    }
    assert(can_move(to, no_move())) by {
        assert forall|i: int| 0 <= i < to.values.len() implies (#[trigger] to.values[i] matches Some(
            p,
        ) ==> 0 <= p < to.words.len()) by {
            if i < kept {
                assert(to.values[i] == st.values[i]);
            }
        }
    }
    assert(n.frames.last() == call && other.last() == next);
}

} // verus!
