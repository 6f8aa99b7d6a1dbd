//! The lowered program a run executes: instructions, functions, types and
//! constants, as plain values.
use crate::error::Span;
use crate::schema::ModuleSchema;
use crate::text::same;
use vstd::prelude::*;

verus! {

/// Which function of a program.
#[derive(Clone, Copy, Debug, PartialEq, Eq, Structural)]
pub struct FunctionId(pub u32);

/// Which declared struct type of a program.
#[derive(Clone, Copy, Debug, PartialEq, Eq, Structural)]
pub struct StructId(pub u32);

/// Which declared enum type of a program.
#[derive(Clone, Copy, Debug, PartialEq, Eq, Structural)]
pub struct EnumId(pub u32);

/// Which constant of a program.
#[derive(Clone, Copy, Debug, PartialEq, Eq, Structural)]
pub struct ConstId(pub u32);

/// A kind of value that is settled to be eight bytes and no handle.
#[derive(Clone, Copy, Debug, PartialEq, Eq, Structural)]
pub enum Scalar {
    Int,
    Bool,
}

/// What one slot, field, payload position or answer holds.
#[derive(Clone, Copy, Debug, PartialEq, Eq, Structural)]
pub enum SlotKind {
    Scalar(Scalar),
    Value,
    Place,
}

/// An operator over two settled integers.
#[derive(Clone, Copy, Debug, PartialEq, Eq, Structural)]
pub enum IntOp {
    Add,
    Sub,
    Mul,
    Div,
    Rem,
    Eq,
    Ne,
    Lt,
    Le,
    Gt,
    Ge,
}

/// An operator over two general values.
#[derive(Clone, Copy, Debug, PartialEq, Eq, Structural)]
pub enum BinaryOp {
    Add,
    Sub,
    Mul,
    Div,
    Rem,
    Eq,
    Ne,
    Lt,
    Le,
    Gt,
    Ge,
    Is,
}

impl BinaryOp {
    /// Whether the operator orders or compares its operands.
    pub open spec fn compares(self) -> bool {
        self is Eq || self is Ne || self is Lt || self is Le || self is Gt || self is Ge
    }

    /// Whether the operator orders or compares its operands.
    pub fn is_comparison(self) -> (yes: bool)
        ensures
            yes == self.compares(),
    {
        match self {
            BinaryOp::Eq => true,
            BinaryOp::Ne => true,
            BinaryOp::Lt => true,
            BinaryOp::Le => true,
            BinaryOp::Gt => true,
            BinaryOp::Ge => true,
            _ => false,
        }
    }
}

/// An operator over one general value.
#[derive(Clone, Copy, Debug, PartialEq, Eq, Structural)]
pub enum UnaryOp {
    Neg,
    Not,
}

/// One instruction.
#[derive(Clone, Copy, Debug, PartialEq, Eq)]
pub enum Inst {
    Const(ConstId),
    Pop,
    Dup,
    ScalarConst(i64),
    LoadScalar(u32),
    StoreScalar(u32),
    ScalarPop,
    IntBinary(IntOp),
    Jump(u32),
    JumpIfFalseScalar(u32),
    JumpIfTrueScalar(u32),
    JumpIfFalse(u32),
    JumpIfTrue(u32),
    ScalarToValue(Scalar),
    ValueToScalar,
    LoadLocal(u32),
    StoreLocal(u32),
    MakeStruct(StructId),
    SetField(ConstId),
    GetField(ConstId),
    GetFieldAt { of: StructId, at: u32 },
    GetFieldAtScalar(u32),
    MakeEnum { ty: ConstId, named: ConstId, argc: u32 },
    MakeHostEnum { ty: ConstId, named: ConstId, argc: u32 },
    TestCase(ConstId),
    GetPayload { case: Option<(EnumId, u32)>, at: u32 },
    NoMatch,
    MakeBuiltin { name: ConstId, argc: u32 },
    CallHost { module: ConstId, op: ConstId, argc: u32 },
    CallResource { op: ConstId, argc: u32 },
    Try { payload: SlotKind },
    Call { function: FunctionId, scalar_argc: u32, value_argc: u32, place_argc: u32 },
    Return,
    ReturnScalar,
    Concat(u32),
    Unary(UnaryOp),
    Binary(BinaryOp),
    MakeClosure { function: FunctionId, captures: u32 },
    CallValue { argc: u32 },
    MakeDyn { name: ConstId },
    CallDyn { name: ConstId, argc: u32 },
    CallBuiltin { name: ConstId, argc: u32 },
    CallBuiltinAssoc { name: ConstId, argc: u32 },
    MakeArray(u32),
    MakeRange { inclusive: bool },
    IterItems,
    SpreadArgument,
    PlaceLocal(u32),
    PlaceScalar(u32, Scalar),
    LoadPlace(u32),
    PlaceField(ConstId),
    PlacePop,
    PlaceRead,
    PlaceWrite,
    Freeze,
    EnterScope(u32),
    LeaveScope,
    CancelScope,
    Spawn,
    Await,
    Cancel,
    Lock,
    Snapshot,
}

/// A constant of a program. A float is its bit pattern and the text it shows
/// as.
#[derive(Debug)]
pub enum Const {
    Unit,
    Bool(bool),
    Int(i64),
    Float { bits: u64, shown: String },
    Str(String),
    Name(String),
    Duration(i64),
}

/// One field of a declared struct.
#[derive(Debug)]
pub struct Field {
    pub name: String,
    pub kind: SlotKind,
}

/// A declared struct type.
#[derive(Debug)]
pub struct StructType {
    pub name: String,
    pub fields: Vec<Field>,
}

/// One case of a declared enum.
#[derive(Debug)]
pub struct EnumCase {
    pub name: String,
    pub payload: Vec<SlotKind>,
}

/// A declared enum type.
#[derive(Debug)]
pub struct EnumType {
    pub name: String,
    pub cases: Vec<EnumCase>,
}

/// One lowered function.
///
/// Its slots are one numbering: the parameters first, in declaration order,
/// and then the body's own. `block_fuel` holds, at the head of each block, how
/// many instructions the block runs.
#[derive(Debug)]
pub struct Function {
    pub module: String,
    pub name: String,
    pub span: Span,
    pub params: Vec<SlotKind>,
    pub slots: Vec<SlotKind>,
    pub returns: SlotKind,
    pub place_frame_size: u32,
    pub captures: u32,
    pub answers_a_task: bool,
    pub code: Vec<Inst>,
    pub spans: Vec<Span>,
    pub block_fuel: Vec<u32>,
}

impl Function {
    /// Where the instruction at `pc` is in the source.
    pub open spec fn spot(self, pc: int) -> Span {
        if 0 <= pc < self.spans@.len() {
            self.spans@[pc]
        } else {
            self.span
        }
    }

    /// Where the instruction at `pc` is in the source.
    pub fn span_at(&self, pc: usize) -> (span: Span)
        ensures
            span == self.spot(pc as int),
    {
        if pc < self.spans.len() {
            self.spans[pc]
        } else {
            self.span
        }
    }
}

/// A lowered program, and the host modules whose declared answers are known
/// where it runs. What any other module answers has no shape known beforehand.
#[derive(Debug)]
pub struct Program {
    pub functions: Vec<Function>,
    pub structs: Vec<StructType>,
    pub enums: Vec<EnumType>,
    pub constants: Vec<Const>,
    pub hosts: Vec<ModuleSchema>,
}

impl Program {
    /// The function `id` names.
    pub open spec fn func(self, id: FunctionId) -> Function {
        self.functions@[id.0 as int]
    }

    pub open spec fn has_function(self, id: FunctionId) -> bool {
        id.0 < self.functions@.len()
    }

    pub open spec fn has_struct(self, id: StructId) -> bool {
        id.0 < self.structs@.len()
    }

    pub open spec fn has_enum(self, id: EnumId) -> bool {
        id.0 < self.enums@.len()
    }

    pub open spec fn has_const(self, id: ConstId) -> bool {
        id.0 < self.constants@.len()
    }

    /// The text of the name or string constant `id`, and the empty text for a
    /// constant that is neither.
    pub open spec fn name_text(self, id: ConstId) -> Seq<char> {
        match self.constants@[id.0 as int] {
            Const::Name(text) => text@,
            Const::Str(text) => text@,
            _ => Seq::empty(),
        }
    }

    /// The function `id` names.
    pub fn function(&self, id: FunctionId) -> (function: &Function)
        requires
            self.has_function(id),
        ensures
            *function == self.func(id),
    {
        &self.functions[id.0 as usize]
    }

    /// The text of the name or string constant `id`.
    pub fn const_name(&self, id: ConstId) -> (name: &str)
        requires
            self.has_const(id),
        ensures
            name@ == self.name_text(id),
    {
        match &self.constants[id.0 as usize] {
            Const::Name(text) => text.as_str(),
            Const::Str(text) => text.as_str(),
            _ => {
                proof {
                    reveal_strlit("");
                    assert(""@ =~= Seq::<char>::empty());
                }
                ""
            },
        }
    }

    /// `id` is the first function declared as `module.name`.
    pub open spec fn declares(self, module: Seq<char>, name: Seq<char>, id: int) -> bool {
        &&& 0 <= id < self.functions@.len()
        &&& self.functions@[id].module@ == module
        &&& self.functions@[id].name@ == name
    }

    /// The function declared first as `module.name`, if one is.
    pub fn function_named(&self, module: &str, name: &str) -> (found: Option<FunctionId>)
        requires
            self.functions@.len() <= u32::MAX,
        ensures
            match found {
                Some(id) => {
                    &&& self.declares(module@, name@, id.0 as int)
                    &&& forall|j: int| 0 <= j < id.0 ==> !self.declares(module@, name@, j)
                },
                None => forall|j: int| !self.declares(module@, name@, j),
            },
    {
        let mut at: usize = 0;
        while at < self.functions.len()
            invariant
                at <= self.functions@.len() <= u32::MAX,
                forall|j: int| 0 <= j < at ==> !self.declares(module@, name@, j),
            decreases self.functions@.len() - at,
        {
            let function = &self.functions[at];
            if same(function.module.as_str(), module) && same(function.name.as_str(), name) {
                return Some(FunctionId(at as u32));
            }
            at = at + 1;
        }
        None
    }

    /// Where the first declared enum called `name` stands.
    pub open spec fn enum_at(self, name: Seq<char>, at: int) -> bool {
        &&& 0 <= at < self.enums@.len()
        &&& self.enums@[at].name@ == name
        &&& forall|j: int| 0 <= j < at ==> #[trigger] self.enums@[j].name@ != name
    }

    /// The first declared enum called `name`, if one is.
    pub fn enum_named(&self, name: &str) -> (found: Option<usize>)
        ensures
            match found {
                Some(at) => self.enum_at(name@, at as int),
                None => forall|j: int|
                    0 <= j < self.enums@.len() ==> #[trigger] self.enums@[j].name@ != name@,
            },
    {
        let mut at: usize = 0;
        while at < self.enums.len()
            invariant
                at <= self.enums@.len(),
                forall|j: int| 0 <= j < at ==> #[trigger] self.enums@[j].name@ != name@,
            decreases self.enums@.len() - at,
        {
            if same(self.enums[at].name.as_str(), name) {
                return Some(at);
            }
            at = at + 1;
        }
        None
    }
}

/// Where the first case called `name` stands in an enum.
pub open spec fn case_at(declared: EnumType, name: Seq<char>, at: int) -> bool {
    &&& 0 <= at < declared.cases@.len()
    &&& declared.cases@[at].name@ == name
    &&& forall|j: int| 0 <= j < at ==> #[trigger] declared.cases@[j].name@ != name
}

/// The first case called `name` of an enum, if it has one.
pub fn case_named(declared: &EnumType, name: &str) -> (found: Option<usize>)
    ensures
        match found {
            Some(at) => case_at(*declared, name@, at as int),
            None => forall|j: int|
                0 <= j < declared.cases@.len() ==> #[trigger] declared.cases@[j].name@ != name@,
        },
{
    let mut at: usize = 0;
    while at < declared.cases.len()
        invariant
            at <= declared.cases@.len(),
            forall|j: int| 0 <= j < at ==> #[trigger] declared.cases@[j].name@ != name@,
        decreases declared.cases@.len() - at,
    {
        if same(declared.cases[at].name.as_str(), name) {
            return Some(at);
        }
        at = at + 1;
    }
    None
}

/// How many value operands an instruction takes and how many it leaves.
pub open spec fn stack_effect(program: Program, inst: Inst) -> (int, int) {
    match inst {
        Inst::Const(_) => (0, 1),
        Inst::Pop => (1, 0),
        Inst::Dup => (1, 2),
        Inst::ScalarConst(_) => (0, 0),
        Inst::LoadScalar(_) => (0, 0),
        Inst::StoreScalar(_) => (0, 0),
        Inst::ScalarPop => (0, 0),
        Inst::IntBinary(_) => (0, 0),
        Inst::Jump(_) => (0, 0),
        Inst::JumpIfFalseScalar(_) => (0, 0),
        Inst::JumpIfTrueScalar(_) => (0, 0),
        Inst::JumpIfFalse(_) => (1, 0),
        Inst::JumpIfTrue(_) => (1, 0),
        Inst::ScalarToValue(_) => (0, 1),
        Inst::ValueToScalar => (1, 0),
        Inst::LoadLocal(_) => (0, 1),
        Inst::StoreLocal(_) => (1, 0),
        Inst::MakeStruct(of) => (program.structs@[of.0 as int].fields@.len() as int, 1),
        Inst::SetField(_) => (2, 1),
        Inst::GetField(_) => (1, 1),
        Inst::GetFieldAt { of: _, at: _ } => (1, 1),
        Inst::GetFieldAtScalar(_) => (1, 0),
        Inst::MakeEnum { ty: _, named: _, argc } => (argc as int, 1),
        Inst::MakeHostEnum { ty: _, named: _, argc } => (argc as int, 1),
        Inst::TestCase(_) => (0, 1),
        Inst::GetPayload { case: _, at: _ } => (0, 1),
        Inst::NoMatch => (0, 0),
        Inst::MakeBuiltin { name: _, argc } => (argc as int, 1),
        Inst::CallHost { module: _, op: _, argc } => (argc as int, 1),
        Inst::CallResource { op: _, argc } => (argc + 1, 1),
        Inst::Try { payload: _ } => (1, 1),
        Inst::Call { function, scalar_argc: _, value_argc, place_argc: _ } => (
            value_argc as int,
            if program.func(function).returns is Scalar {
                0
            } else {
                1
            },
        ),
        Inst::Return => (1, 0),
        Inst::ReturnScalar => (0, 0),
        Inst::Concat(count) => (count as int, 1),
        Inst::Unary(_) => (1, 1),
        Inst::Binary(_) => (2, 1),
        Inst::MakeClosure { function: _, captures } => (captures as int, 1),
        Inst::CallValue { argc } => (argc + 1, 1),
        Inst::MakeDyn { name: _ } => (1, 1),
        Inst::CallDyn { name: _, argc } => (argc + 1, 1),
        Inst::CallBuiltin { name: _, argc } => (argc + 1, 1),
        Inst::CallBuiltinAssoc { name: _, argc } => (argc as int, 1),
        Inst::MakeArray(count) => (count as int, 1),
        Inst::MakeRange { inclusive: _ } => (2, 1),
        Inst::IterItems => (1, 1),
        Inst::SpreadArgument => (1, 1),
        Inst::PlaceLocal(_) => (0, 0),
        Inst::PlaceScalar(_, _) => (0, 0),
        Inst::LoadPlace(_) => (0, 0),
        Inst::PlaceField(_) => (0, 0),
        Inst::PlacePop => (0, 0),
        Inst::PlaceRead => (0, 1),
        Inst::PlaceWrite => (1, 0),
        Inst::Freeze => (1, 1),
        Inst::EnterScope(_) => (0, 0),
        Inst::LeaveScope => (0, 0),
        Inst::CancelScope => (0, 0),
        Inst::Spawn => (1, 1),
        Inst::Await => (1, 1),
        Inst::Cancel => (1, 1),
        Inst::Lock => (2, 1),
        Inst::Snapshot => (1, 1),
    }
}

/// How many value operands an instruction takes and how many it leaves.
pub fn stack_shape(program: &Program, inst: Inst) -> (shape: (u64, u64))
    requires
        names_what_exists(*program, inst),
    ensures
        (shape.0 as int, shape.1 as int) == stack_effect(*program, inst),
{
    match inst {
        Inst::Const(_) => (0, 1),
        Inst::Pop => (1, 0),
        Inst::Dup => (1, 2),
        Inst::ScalarConst(_) => (0, 0),
        Inst::LoadScalar(_) => (0, 0),
        Inst::StoreScalar(_) => (0, 0),
        Inst::ScalarPop => (0, 0),
        Inst::IntBinary(_) => (0, 0),
        Inst::Jump(_) => (0, 0),
        Inst::JumpIfFalseScalar(_) => (0, 0),
        Inst::JumpIfTrueScalar(_) => (0, 0),
        Inst::JumpIfFalse(_) => (1, 0),
        Inst::JumpIfTrue(_) => (1, 0),
        Inst::ScalarToValue(_) => (0, 1),
        Inst::ValueToScalar => (1, 0),
        Inst::LoadLocal(_) => (0, 1),
        Inst::StoreLocal(_) => (1, 0),
        Inst::MakeStruct(of) => (program.structs[of.0 as usize].fields.len() as u64, 1),
        Inst::SetField(_) => (2, 1),
        Inst::GetField(_) => (1, 1),
        Inst::GetFieldAt { of: _, at: _ } => (1, 1),
        Inst::GetFieldAtScalar(_) => (1, 0),
        Inst::MakeEnum { ty: _, named: _, argc } => (argc as u64, 1),
        Inst::MakeHostEnum { ty: _, named: _, argc } => (argc as u64, 1),
        Inst::TestCase(_) => (0, 1),
        Inst::GetPayload { case: _, at: _ } => (0, 1),
        Inst::NoMatch => (0, 0),
        Inst::MakeBuiltin { name: _, argc } => (argc as u64, 1),
        Inst::CallHost { module: _, op: _, argc } => (argc as u64, 1),
        Inst::CallResource { op: _, argc } => (argc as u64 + 1, 1),
        Inst::Try { payload: _ } => (1, 1),
        Inst::Call { function, scalar_argc: _, value_argc, place_argc: _ } => {
            let left: u64 = match program.function(function).returns {
                SlotKind::Scalar(_) => 0,
                _ => 1,
            };
            (value_argc as u64, left)
        },
        Inst::Return => (1, 0),
        Inst::ReturnScalar => (0, 0),
        Inst::Concat(count) => (count as u64, 1),
        Inst::Unary(_) => (1, 1),
        Inst::Binary(_) => (2, 1),
        Inst::MakeClosure { function: _, captures } => (captures as u64, 1),
        Inst::CallValue { argc } => (argc as u64 + 1, 1),
        Inst::MakeDyn { name: _ } => (1, 1),
        Inst::CallDyn { name: _, argc } => (argc as u64 + 1, 1),
        Inst::CallBuiltin { name: _, argc } => (argc as u64 + 1, 1),
        Inst::CallBuiltinAssoc { name: _, argc } => (argc as u64, 1),
        Inst::MakeArray(count) => (count as u64, 1),
        Inst::MakeRange { inclusive: _ } => (2, 1),
        Inst::IterItems => (1, 1),
        Inst::SpreadArgument => (1, 1),
        Inst::PlaceLocal(_) => (0, 0),
        Inst::PlaceScalar(_, _) => (0, 0),
        Inst::LoadPlace(_) => (0, 0),
        Inst::PlaceField(_) => (0, 0),
        Inst::PlacePop => (0, 0),
        Inst::PlaceRead => (0, 1),
        Inst::PlaceWrite => (1, 0),
        Inst::Freeze => (1, 1),
        Inst::EnterScope(_) => (0, 0),
        Inst::LeaveScope => (0, 0),
        Inst::CancelScope => (0, 0),
        Inst::Spawn => (1, 1),
        Inst::Await => (1, 1),
        Inst::Cancel => (1, 1),
        Inst::Lock => (2, 1),
        Inst::Snapshot => (1, 1),
    }
}

/// Every function, struct, enum and constant an instruction names is one the
/// program has.
pub open spec fn names_what_exists(program: Program, inst: Inst) -> bool {
    match inst {
        Inst::Const(id) => program.has_const(id),
        Inst::MakeStruct(of) => program.has_struct(of),
        Inst::SetField(id) => program.has_const(id),
        Inst::GetField(id) => program.has_const(id),
        Inst::GetFieldAt { of, at: _ } => program.has_struct(of),
        Inst::MakeEnum { ty, named, argc: _ } => program.has_const(ty) && program.has_const(named),
        Inst::MakeHostEnum { ty, named, argc: _ } => program.has_const(ty) && program.has_const(
            named,
        ),
        Inst::TestCase(id) => program.has_const(id),
        Inst::GetPayload { case, at: _ } => case matches Some(pair) ==> program.has_enum(pair.0),
        Inst::MakeBuiltin { name, argc: _ } => program.has_const(name),
        Inst::CallHost { module, op, argc: _ } => program.has_const(module) && program.has_const(
            op,
        ),
        Inst::CallResource { op, argc: _ } => program.has_const(op),
        Inst::Call { function, scalar_argc: _, value_argc: _, place_argc: _ } =>
            program.has_function(function),
        _ => true,
    }
}

/// Whether every function, struct, enum and constant an instruction names is
/// one the program has.
pub fn names_exist(program: &Program, inst: Inst) -> (yes: bool)
    ensures
        yes == names_what_exists(*program, inst),
{
    let functions: usize = program.functions.len();
    let structs: usize = program.structs.len();
    let enums: usize = program.enums.len();
    let constants: usize = program.constants.len();
    match inst {
        Inst::Const(id) => (id.0 as usize) < constants,
        Inst::MakeStruct(of) => (of.0 as usize) < structs,
        Inst::SetField(id) => (id.0 as usize) < constants,
        Inst::GetField(id) => (id.0 as usize) < constants,
        Inst::GetFieldAt { of, at: _ } => (of.0 as usize) < structs,
        Inst::MakeEnum { ty, named, argc: _ } => (ty.0 as usize) < constants && (named.0 as usize)
            < constants,
        Inst::MakeHostEnum { ty, named, argc: _ } => (ty.0 as usize) < constants && (
        named.0 as usize) < constants,
        Inst::TestCase(id) => (id.0 as usize) < constants,
        Inst::GetPayload { case, at: _ } => match case {
            Some(pair) => (pair.0.0 as usize) < enums,
            None => true,
        },
        Inst::MakeBuiltin { name, argc: _ } => (name.0 as usize) < constants,
        Inst::CallHost { module, op, argc: _ } => (module.0 as usize) < constants && (
        op.0 as usize) < constants,
        Inst::CallResource { op, argc: _ } => (op.0 as usize) < constants,
        Inst::Call { function, scalar_argc: _, value_argc: _, place_argc: _ } => (
        function.0 as usize) < functions,
        _ => true,
    }
}

/// What reads a slot, a constant or what is in hand leaves one value and takes
/// none; what only writes or tests one takes it and leaves none.
pub proof fn what_leaves_a_value_and_what_takes_one(program: Program, inst: Inst)
    ensures
        inst is Const || inst is LoadLocal || inst is ScalarToValue || inst is TestCase
            || inst is GetPayload || inst is PlaceRead ==> stack_effect(program, inst) == (0int, 1int),
        inst is Pop || inst is StoreLocal || inst is ValueToScalar || inst is JumpIfFalse
            || inst is JumpIfTrue || inst is GetFieldAtScalar || inst is PlaceWrite
            || inst is Return ==> stack_effect(program, inst) == (1int, 0int),
        inst is Dup ==> stack_effect(program, inst) == (1int, 2int),
{
}

/// What puts one value in the place of another takes one and leaves one; what
/// puts one in the place of two takes two.
pub proof fn what_puts_a_value_in_place_of_others(program: Program, inst: Inst)
    ensures
        inst is GetField || inst is GetFieldAt || inst is Try || inst is Unary || inst is MakeDyn
            || inst is IterItems || inst is SpreadArgument || inst is Freeze || inst is Spawn
            || inst is Await || inst is Cancel || inst is Snapshot ==> stack_effect(program, inst)
            == (1int, 1int),
        inst is SetField || inst is Binary || inst is MakeRange || inst is Lock ==> stack_effect(
            program,
            inst,
        ) == (2int, 1int),
{
}

/// What works on words and places alone leaves the values as they are.
pub proof fn what_leaves_the_values_alone(program: Program, inst: Inst)
    requires
        inst is ScalarConst || inst is LoadScalar || inst is StoreScalar || inst is ScalarPop
            || inst is IntBinary || inst is Jump || inst is JumpIfFalseScalar
            || inst is JumpIfTrueScalar || inst is NoMatch || inst is ReturnScalar
            || inst is PlaceLocal || inst is PlaceScalar || inst is LoadPlace || inst is PlaceField
            || inst is PlacePop || inst is EnterScope || inst is LeaveScope || inst is CancelScope,
    ensures
        stack_effect(program, inst) == (0int, 0int),
{
}

/// What is called or built takes its arguments, and what is called on a value
/// takes that value as well; one value is left, but by a call of a function
/// that returns a word.
pub proof fn what_is_called_or_built_takes_its_arguments(program: Program, inst: Inst)
    ensures
        inst matches Inst::Concat(count) ==> stack_effect(program, inst) == (count as int, 1int),
        inst matches Inst::MakeArray(count) ==> stack_effect(program, inst) == (count as int, 1int),
        inst matches Inst::MakeClosure { function, captures } ==> stack_effect(program, inst) == (
            captures as int,
            1int,
        ),
        inst matches Inst::MakeStruct(of) ==> stack_effect(program, inst) == (
            program.structs@[of.0 as int].fields@.len() as int,
            1int,
        ),
        inst matches Inst::MakeEnum { ty, named, argc } ==> stack_effect(program, inst) == (
            argc as int,
            1int,
        ),
        inst matches Inst::MakeHostEnum { ty, named, argc } ==> stack_effect(program, inst) == (
            argc as int,
            1int,
        ),
        inst matches Inst::MakeBuiltin { name, argc } ==> stack_effect(program, inst) == (
            argc as int,
            1int,
        ),
        inst matches Inst::CallHost { module, op, argc } ==> stack_effect(program, inst) == (
            argc as int,
            1int,
        ),
        inst matches Inst::CallBuiltinAssoc { name, argc } ==> stack_effect(program, inst) == (
            argc as int,
            1int,
        ),
        inst matches Inst::CallResource { op, argc } ==> stack_effect(program, inst) == (
            argc + 1,
            1int,
        ),
        inst matches Inst::CallValue { argc } ==> stack_effect(program, inst) == (argc + 1, 1int),
        inst matches Inst::CallDyn { name, argc } ==> stack_effect(program, inst) == (
            argc + 1,
            1int,
        ),
        inst matches Inst::CallBuiltin { name, argc } ==> stack_effect(program, inst) == (
            argc + 1,
            1int,
        ),
        inst matches Inst::Call { function, scalar_argc, value_argc, place_argc } ==> {
            &&& stack_effect(program, inst).0 == value_argc
            &&& program.functions@[function.0 as int].returns is Scalar ==> stack_effect(
                program,
                inst,
            ).1 == 0
            &&& !(program.functions@[function.0 as int].returns is Scalar) ==> stack_effect(
                program,
                inst,
            ).1 == 1
        },
{
}

} // verus!
