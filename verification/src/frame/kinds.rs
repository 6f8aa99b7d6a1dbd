//! What each operand of a function is, wherever control can be standing.
use crate::ir::{Const, Inst, Program, Scalar, SlotKind};
use crate::schema::{find_module, find_operation, HostType};
use crate::text::same;
use vstd::prelude::*;

verus! {

/// What one word of a heap object is.
#[derive(Clone, Copy, Debug, PartialEq, Eq, Structural)]
pub enum Part {
    Unit,
    Int,
    Bool,
    Float,
    /// A handle to another object.
    Nested,
}

/// What one word means, where something outside the one stack has to be told.
///
/// `Str` and `Enum` are references that the instruction that pushed the word
/// proves to name a string, or a case of `Result` or `Option`.
#[derive(Clone, Copy, Debug, PartialEq, Eq, Structural)]
pub enum Kind {
    Unit,
    Bool,
    Int,
    Float,
    Reference,
    Str,
    Enum,
}

impl Kind {
    /// What a heap object's reference map calls a word of this kind.
    pub open spec fn as_part(self) -> Part {
        match self {
            Kind::Unit => Part::Unit,
            Kind::Int => Part::Int,
            Kind::Bool => Part::Bool,
            Kind::Float => Part::Float,
            Kind::Reference => Part::Nested,
            Kind::Str => Part::Nested,
            Kind::Enum => Part::Nested,
        }
    }

    /// A word of this kind is a handle, whichever object it names.
    pub open spec fn refers(self) -> bool {
        self is Reference || self is Str || self is Enum
    }

    /// What a heap object's reference map calls a word of this kind.
    pub fn part(self) -> (part: Part)
        ensures
            part == self.as_part(),
    {
        match self {
            Kind::Unit => Part::Unit,
            Kind::Int => Part::Int,
            Kind::Bool => Part::Bool,
            Kind::Float => Part::Float,
            Kind::Reference => Part::Nested,
            Kind::Str => Part::Nested,
            Kind::Enum => Part::Nested,
        }
    }

    /// Whether a word of this kind is a handle.
    pub fn is_reference(self) -> (yes: bool)
        ensures
            yes == self.refers(),
    {
        match self {
            Kind::Reference => true,
            Kind::Str => true,
            Kind::Enum => true,
            _ => false,
        }
    }
}

/// What one operand is: a kind every path agrees on, or nothing.
pub type Held = Option<Kind>;

/// The value a slot kind pushes as, where it is one word.
pub open spec fn slot_pushes(kind: SlotKind) -> Held {
    match kind {
        SlotKind::Value => Some(Kind::Reference),
        SlotKind::Scalar(Scalar::Int) => Some(Kind::Int),
        SlotKind::Scalar(Scalar::Bool) => Some(Kind::Bool),
        SlotKind::Place => None,
    }
}

fn slot_kind(kind: SlotKind) -> (held: Held)
    ensures
        held == slot_pushes(kind),
{
    match kind {
        SlotKind::Value => Some(Kind::Reference),
        SlotKind::Scalar(Scalar::Int) => Some(Kind::Int),
        SlotKind::Scalar(Scalar::Bool) => Some(Kind::Bool),
        SlotKind::Place => None,
    }
}

/// The part a value of a host type becomes, where it is one word.
pub open spec fn host_word(ty: HostType) -> Option<Part>
    decreases ty,
{
    match ty {
        HostType::Unit => Some(Part::Unit),
        HostType::Bool => Some(Part::Bool),
        HostType::Int => Some(Part::Int),
        HostType::String => Some(Part::Nested),
        HostType::Error => Some(Part::Nested),
        HostType::Option(inner) => if host_word(*inner) is Some {
            Some(Part::Nested)
        } else {
            None
        },
        HostType::Result(ok, err) => if host_word(*ok) is Some && host_word(*err) is Some {
            Some(Part::Nested)
        } else {
            None
        },
        _ => None,
    }
}

/// The declared result of `module.op`, off the host modules the program was
/// checked against.
pub open spec fn host_answer(program: Program, module: Seq<char>, op: Seq<char>) -> Option<
    HostType,
> {
    if exists|m: int, o: int| answers_at(program, module, op, m, o) {
        let (m, o) = choose|m: int, o: int| answers_at(program, module, op, m, o);
        Some(program.hosts@[m].operations@[o].result)
    } else {
        None
    }
}

/// `module` is host module `m` and `op` its operation `o`, both the first so
/// called.
pub open spec fn answers_at(
    program: Program,
    module: Seq<char>,
    op: Seq<char>,
    m: int,
    o: int,
) -> bool {
    crate::schema::module_at(program.hosts@, module, m) && crate::schema::operation_at(
        program.hosts@[m].operations@,
        op,
        o,
    )
}

/// The declared result type of `module.op`, and nothing where no module or
/// operation is so called.
pub fn host_operation_result<'a>(program: &'a Program, module: &str, op: &str) -> (result: Option<
    &'a HostType,
>)
    ensures
        match result {
            Some(ty) => host_answer(*program, module@, op@) == Some(*ty),
            None => host_answer(*program, module@, op@) is None,
        },
{
    match find_module(&program.hosts, module) {
        None => None,
        Some(m) => {
            let declared = &program.hosts[m];
            proof {
                assert forall|m2: int| #[trigger] crate::schema::module_at(
                    program.hosts@,
                    module@,
                    m2,
                ) implies m2 == m by {
                    if m2 < m {
                        assert(program.hosts@[m2].name@ != module@);
                    } else if m < m2 {
                        assert(program.hosts@[m as int].name@ != module@);
                    }
                }
            }
            match find_operation(&declared.operations, op) {
                None => {
                    proof {
                        if exists|m2: int, o2: int| answers_at(*program, module@, op@, m2, o2) {
                            let (m2, o2) = choose|m2: int, o2: int|
                                answers_at(*program, module@, op@, m2, o2);
                            assert(declared.operations@[o2].name@ != op@);
                        }
                    }
                    None
                },
                Some(o) => {
                    proof {
                        assert(answers_at(*program, module@, op@, m as int, o as int));
                        let (m2, o2) = choose|m2: int, o2: int|
                            answers_at(*program, module@, op@, m2, o2);
                        if o2 < o {
                            assert(declared.operations@[o2].name@ != op@);
                        } else if o < o2 {
                            assert(declared.operations@[o as int].name@ != op@);
                        }
                    }
                    Some(&declared.operations[o].result)
                },
            }
        },
    }
}

/// The part a value of a host type becomes, where it is one word.
pub fn host_part(ty: &HostType) -> (part: Option<Part>)
    ensures
        part == host_word(*ty),
    decreases ty,
{
    match ty {
        HostType::Unit => Some(Part::Unit),
        HostType::Bool => Some(Part::Bool),
        HostType::Int => Some(Part::Int),
        HostType::String => Some(Part::Nested),
        HostType::Error => Some(Part::Nested),
        HostType::Option(inner) => {
            if host_part(inner).is_some() {
                Some(Part::Nested)
            } else {
                None
            }
        },
        HostType::Result(ok, err) => {
            if host_part(ok).is_some() && host_part(err).is_some() {
                Some(Part::Nested)
            } else {
                None
            }
        },
        _ => None,
    }
}

/// What a value of a host type is as an operand, where it is one word.
pub open spec fn host_kind(ty: HostType) -> Held {
    if host_word(ty) is None {
        None
    } else {
        match ty {
            HostType::Unit => Some(Kind::Unit),
            HostType::Bool => Some(Kind::Bool),
            HostType::Int => Some(Kind::Int),
            HostType::String => Some(Kind::Str),
            HostType::Error => Some(Kind::Reference),
            _ => Some(Kind::Enum),
        }
    }
}

/// What a call of `module.op` answers, where that is a word.
pub open spec fn answer_kind(program: Program, module: Seq<char>, op: Seq<char>) -> Held {
    match host_answer(program, module, op) {
        Some(ty) => host_kind(ty),
        None => None,
    }
}

/// What a call of `module.op` answers, and nothing where that is a value that
/// has no eight-byte form.
pub fn host_answer_kind(program: &Program, module: &str, op: &str) -> (held: Held)
    ensures
        held == answer_kind(*program, module@, op@),
{
    match host_operation_result(program, module, op) {
        Some(ty) => if host_part(ty).is_none() {
            None
        } else {
            match ty {
                HostType::Unit => Some(Kind::Unit),
                HostType::Bool => Some(Kind::Bool),
                HostType::Int => Some(Kind::Int),
                HostType::String => Some(Kind::Str),
                HostType::Error => Some(Kind::Reference),
                _ => Some(Kind::Enum),
            }
        },
        None => None,
    }
}

/// `Ok`, `Err` or `Some` of one value, or `None`.
pub open spec fn builds_builtin_case(name: Seq<char>, argc: int) -> bool {
    ||| (name == "Ok"@ || name == "Err"@ || name == "Some"@) && argc == 1
    ||| name == "None"@ && argc == 0
}

/// Whether a builtin call builds `Ok`, `Err` or `Some` of one value, or `None`.
pub fn is_builtin_case(name: &str, argc: u32) -> (yes: bool)
    ensures
        yes == builds_builtin_case(name@, argc as int),
{
    if argc == 1 {
        same(name, "Ok") || same(name, "Err") || same(name, "Some")
    } else if argc == 0 {
        same(name, "None")
    } else {
        false
    }
}

/// What an instruction leaves on the value stack, where every word it leaves
/// is the same and is not a copy of one it took. Nothing is an abstention and
/// never a claim.
pub open spec fn pushes(program: Program, inst: Inst) -> Held {
    match inst {
        Inst::Const(id) => match program.constants@[id.0 as int] {
            Const::Unit => Some(Kind::Unit),
            Const::Int(_) => Some(Kind::Int),
            Const::Bool(_) => Some(Kind::Bool),
            Const::Float { bits: _, shown: _ } => Some(Kind::Float),
            Const::Str(_) => Some(Kind::Str),
            _ => None,
        },
        Inst::ScalarToValue(scalar) => slot_pushes(SlotKind::Scalar(scalar)),
        Inst::Concat(_) => Some(Kind::Str),
        Inst::Binary(op) => if op.compares() {
            Some(Kind::Bool)
        } else {
            None
        },
        Inst::LoadLocal(_) => Some(Kind::Reference),
        Inst::MakeStruct(_) => Some(Kind::Reference),
        Inst::SetField(_) => Some(Kind::Reference),
        Inst::MakeEnum { ty: _, named: _, argc: _ } => Some(Kind::Reference),
        Inst::MakeBuiltin { name, argc } => if builds_builtin_case(
            program.name_text(name),
            argc as int,
        ) {
            Some(Kind::Enum)
        } else {
            None
        },
        Inst::CallHost { module, op, argc: _ } => answer_kind(
            program,
            program.name_text(module),
            program.name_text(op),
        ),
        Inst::GetFieldAt { of, at } => {
            let fields = program.structs@[of.0 as int].fields@;
            if at < fields.len() {
                slot_pushes(fields[at as int].kind)
            } else {
                None
            }
        },
        Inst::GetPayload { case, at } => match case {
            Some(pair) => {
                let cases = program.enums@[pair.0.0 as int].cases@;
                if pair.1 < cases.len() && at < cases[pair.1 as int].payload@.len() {
                    slot_pushes(cases[pair.1 as int].payload@[at as int])
                } else {
                    None
                }
            },
            None => None,
        },
        Inst::TestCase(_) => Some(Kind::Bool),
        Inst::Try { payload } => match payload {
            SlotKind::Scalar(_) => slot_pushes(payload),
            _ => None,
        },
        _ => None,
    }
}

/// What an instruction leaves on the value stack.
pub fn pushed_kind(program: &Program, inst: Inst) -> (held: Held)
    requires
        crate::ir::names_what_exists(*program, inst),
    ensures
        held == pushes(*program, inst),
{
    match inst {
        Inst::Const(id) => match &program.constants[id.0 as usize] {
            Const::Unit => Some(Kind::Unit),
            Const::Int(_) => Some(Kind::Int),
            Const::Bool(_) => Some(Kind::Bool),
            Const::Float { .. } => Some(Kind::Float),
            // A string constant is a handle allocated once, and the only word
            // this instruction can ever push for it.
            Const::Str(_) => Some(Kind::Str),
            Const::Name(_) => None,
            Const::Duration(_) => None,
        },
        Inst::ScalarToValue(Scalar::Int) => Some(Kind::Int),
        Inst::ScalarToValue(Scalar::Bool) => Some(Kind::Bool),
        Inst::Concat(_) => Some(Kind::Str),
        Inst::Binary(op) => if op.is_comparison() {
            Some(Kind::Bool)
        } else {
            None
        },
        Inst::LoadLocal(_) => Some(Kind::Reference),
        Inst::MakeStruct(_) => Some(Kind::Reference),
        Inst::SetField(_) => Some(Kind::Reference),
        // A declared enum's case is not a `Kind::Enum`: only `Result` and
        // `Option` cross the boundary.
        Inst::MakeEnum { .. } => Some(Kind::Reference),
        Inst::MakeBuiltin { name, argc } => {
            if is_builtin_case(program.const_name(name), argc) {
                Some(Kind::Enum)
            } else {
                None
            }
        },
        Inst::CallHost { module, op, argc: _ } => {
            host_answer_kind(program, program.const_name(module), program.const_name(op))
        },
        // The instruction names the type, so the field's kind is a static fact.
        Inst::GetFieldAt { of, at } => {
            let fields = &program.structs[of.0 as usize].fields;
            if (at as usize) < fields.len() {
                slot_kind(fields[at as usize].kind)
            } else {
                None
            }
        },
        Inst::GetPayload { case, at } => match case {
            Some((of, which)) => {
                let cases = &program.enums[of.0 as usize].cases;
                if (which as usize) < cases.len() && (at as usize) < cases[which as usize].payload.len() {
                    slot_kind(cases[which as usize].payload[at as usize])
                } else {
                    None
                }
            },
            None => None,
        },
        Inst::TestCase(_) => Some(Kind::Bool),
        Inst::Try { payload } => match payload {
            SlotKind::Scalar(_) => slot_kind(payload),
            _ => None,
        },
        _ => None,
    }
}

/// Control can go from the instruction at `pc` to `to`.
pub open spec fn goes_to(inst: Inst, pc: int, to: int) -> bool {
    match inst {
        Inst::Jump(target) => to == target,
        Inst::JumpIfFalse(target) => to == target || to == pc + 1,
        Inst::JumpIfTrue(target) => to == target || to == pc + 1,
        Inst::JumpIfFalseScalar(target) => to == target || to == pc + 1,
        Inst::JumpIfTrueScalar(target) => to == target || to == pc + 1,
        Inst::Return => false,
        Inst::ReturnScalar => false,
        Inst::NoMatch => false,
        _ => to == pc + 1,
    }
}

/// Where control can be next.
pub fn successors(inst: Inst, pc: usize) -> (next: Vec<usize>)
    requires
        pc < usize::MAX,
    ensures
        next@.len() <= 2,
        forall|to: int|
            #![trigger goes_to(inst, pc as int, to)]
            goes_to(inst, pc as int, to) ==> exists|i: int|
                0 <= i < next@.len() && #[trigger] next@[i] == to,
        forall|i: int|
            0 <= i < next@.len() ==> goes_to(inst, pc as int, #[trigger] next@[i] as int),
{
    let mut next: Vec<usize> = Vec::new();
    match inst {
        Inst::Jump(to) => {
            next.push(to as usize);
            assert(next@[0] == to);
        },
        Inst::JumpIfFalse(to) => {
            next.push(to as usize);
            next.push(pc + 1);
            assert(next@[0] == to && next@[1] == pc + 1);
        },
        Inst::JumpIfTrue(to) => {
            next.push(to as usize);
            next.push(pc + 1);
            assert(next@[0] == to && next@[1] == pc + 1);
        },
        Inst::JumpIfFalseScalar(to) => {
            next.push(to as usize);
            next.push(pc + 1);
            assert(next@[0] == to && next@[1] == pc + 1);
        },
        Inst::JumpIfTrueScalar(to) => {
            next.push(to as usize);
            next.push(pc + 1);
            assert(next@[0] == to && next@[1] == pc + 1);
        },
        Inst::Return => {},
        Inst::ReturnScalar => {},
        Inst::NoMatch => {},
        _ => {
            next.push(pc + 1);
            assert(next@[0] == pc + 1);
        },
    }
    next
}

} // verus!
