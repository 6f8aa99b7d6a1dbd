//! Which programs the eight-byte frame can run, decided before any of them
//! begins.
use crate::error::Span;
use crate::frame::kinds::{pushed_kind, Kind, Part};
use crate::frame::layout::enum_construction;
use crate::frame::operands::{simulate, Operands};
use crate::ir::{Const, ConstId, Function, FunctionId, Inst, Program, SlotKind, StructId};
use vstd::prelude::*;
use vstd::string::*;

verus! {

/// Why an instruction, or a function, cannot be run.
#[derive(Clone, Copy, Debug)]
pub enum Reason {
    /// A general value slot given what may be no handle.
    Slot,
    /// A name used as a value.
    Name,
    /// A duration used as a value.
    Duration,
    /// A struct built out of words that may not be its fields.
    Struct(StructId),
    /// A field written by a name that settles no position.
    Field(ConstId),
    /// A case built out of words that may not be its payload.
    Payload,
    /// A case test over what may be no handle.
    CaseTest,
    /// A payload read from what may be no handle.
    PayloadRead,
    /// A branch over what may be no `Bool`.
    Branch,
    /// A builtin call with an argument that cannot be read as a value.
    BuiltinCall,
    /// A Host call with an argument that cannot be read as a value.
    HostCall,
    /// A call on a host resource.
    Resource,
    /// A `?` over a word.
    Try,
    /// A `return` of a word.
    Return,
    /// An interpolation with an operand that cannot be rendered.
    Interpolation(Option<Kind>),
    /// A call that passes a `var` argument.
    VarArgument,
    /// A call whose value argument may be no handle.
    ValueArgument,
    /// An instruction outside the subset.
    Unsupported(Inst),
    /// A function that takes a `var` parameter.
    VarParameter,
    /// A function that is a closure.
    Closure,
    /// A function that is `async`.
    Async,
}

/// What an instruction outside the subset is called.
pub open spec fn described(inst: Inst) -> Seq<char> {
    match inst {
        Inst::Unary(_) => "an operator over a general value"@,
        Inst::Binary(_) => "an operator over a general value"@,
        Inst::MakeClosure { function: _, captures: _ } => "a closure"@,
        Inst::CallValue { argc: _ } => "a closure"@,
        Inst::MakeDyn { name: _ } => "`dyn` dispatch"@,
        Inst::CallDyn { name: _, argc: _ } => "`dyn` dispatch"@,
        Inst::CallBuiltin { name: _, argc: _ } => "a builtin method"@,
        Inst::CallBuiltinAssoc { name: _, argc: _ } => "a builtin method"@,
        Inst::MakeArray(_) => "a collection"@,
        Inst::MakeRange { inclusive: _ } => "a collection"@,
        Inst::IterItems => "a collection"@,
        Inst::SpreadArgument => "a collection"@,
        Inst::Concat(_) => "string interpolation"@,
        Inst::GetField(_) => "a struct field read by name"@,
        Inst::MakeHostEnum { ty: _, named: _, argc: _ } => "an enum"@,
        Inst::NoMatch => "an enum"@,
        Inst::PlaceLocal(_) => "a `var` parameter"@,
        Inst::PlaceScalar(_, _) => "a `var` parameter"@,
        Inst::LoadPlace(_) => "a `var` parameter"@,
        Inst::PlaceField(_) => "a `var` parameter"@,
        Inst::PlacePop => "a `var` parameter"@,
        Inst::PlaceRead => "a `var` parameter"@,
        Inst::PlaceWrite => "a `var` parameter"@,
        Inst::Freeze => "a `var` parameter"@,
        Inst::EnterScope(_) => "a task"@,
        Inst::LeaveScope => "a task"@,
        Inst::CancelScope => "a task"@,
        Inst::Spawn => "a task"@,
        Inst::Await => "a task"@,
        Inst::Cancel => "a task"@,
        Inst::Lock => "a task"@,
        Inst::Snapshot => "a snapshot"@,
        _ => "an admitted instruction"@,
    }
}

/// What an instruction outside the subset is called, in words a Cove
/// programmer would recognise.
pub fn describe(inst: Inst) -> (text: &'static str)
    ensures
        text@ == described(inst),
{
    match inst {
        Inst::Unary(_) => "an operator over a general value",
        Inst::Binary(_) => "an operator over a general value",
        Inst::MakeClosure { function: _, captures: _ } => "a closure",
        Inst::CallValue { argc: _ } => "a closure",
        Inst::MakeDyn { name: _ } => "`dyn` dispatch",
        Inst::CallDyn { name: _, argc: _ } => "`dyn` dispatch",
        Inst::CallBuiltin { name: _, argc: _ } => "a builtin method",
        Inst::CallBuiltinAssoc { name: _, argc: _ } => "a builtin method",
        Inst::MakeArray(_) => "a collection",
        Inst::MakeRange { inclusive: _ } => "a collection",
        Inst::IterItems => "a collection",
        Inst::SpreadArgument => "a collection",
        Inst::Concat(_) => "string interpolation",
        Inst::GetField(_) => "a struct field read by name",
        Inst::MakeHostEnum { ty: _, named: _, argc: _ } => "an enum",
        Inst::NoMatch => "an enum",
        Inst::PlaceLocal(_) => "a `var` parameter",
        Inst::PlaceScalar(_, _) => "a `var` parameter",
        Inst::LoadPlace(_) => "a `var` parameter",
        Inst::PlaceField(_) => "a `var` parameter",
        Inst::PlacePop => "a `var` parameter",
        Inst::PlaceRead => "a `var` parameter",
        Inst::PlaceWrite => "a `var` parameter",
        Inst::Freeze => "a `var` parameter",
        Inst::EnterScope(_) => "a task",
        Inst::LeaveScope => "a task",
        Inst::CancelScope => "a task",
        Inst::Spawn => "a task",
        Inst::Await => "a task",
        Inst::Cancel => "a task",
        Inst::Lock => "a task",
        Inst::Snapshot => "a snapshot",
        _ => "an admitted instruction",
    }
}

/// What a word an interpolation cannot render is called.
pub open spec fn called(kind: Option<Kind>) -> Seq<char> {
    match kind {
        None => "an operand the 8-byte frame cannot show the kind of"@,
        Some(Kind::Unit) => "a `Unit`"@,
        Some(Kind::Reference) => "a heap object this backend cannot show is a `String`"@,
        _ => "an enum"@,
    }
}

/// A word of this kind renders in an interpolation.
pub open spec fn renders(kind: Kind) -> bool {
    kind is Str || kind is Int || kind is Bool || kind is Float
}

/// What a word an interpolation cannot render is called.
pub fn undisplayable(kind: Option<Kind>) -> (text: &'static str)
    requires
        kind matches Some(k) ==> !renders(k),
    ensures
        text@ == called(kind),
{
    match kind {
        None => "an operand the 8-byte frame cannot show the kind of",
        Some(Kind::Unit) => "a `Unit`",
        Some(Kind::Reference) => "a heap object this backend cannot show is a `String`",
        _ => "an enum",
    }
}

/// A function by its qualified name, between backquotes.
pub open spec fn named(function: Function) -> Seq<char> {
    "`"@ + function.module@ + "."@ + function.name@ + "`"@
}

/// A reason in words.
pub open spec fn worded(program: Program, function: Function, reason: Reason) -> Seq<char> {
    let name = named(function);
    match reason {
        Reason::Slot => "a general value slot in "@ + name
            + " that the 8-byte frame cannot show holds a heap object"@,
        Reason::Name => "a name in "@ + name,
        Reason::Duration => "a `Duration` in "@ + name,
        Reason::Struct(of) => "building `"@ + program.structs@[of.0 as int].name@ + "` in "@ + name
            + " out of words the 8-byte frame cannot show are what the type's fields are"@,
        Reason::Field(id) => "a write to `."@ + program.name_text(id) + "` in "@ + name
            + ", which names no field of one settled struct"@,
        Reason::Payload => "building an enum in "@ + name
            + " out of words the 8-byte frame cannot show are what the case's payload is"@,
        Reason::CaseTest => "a case test in "@ + name
            + " over something that is a word rather than a handle"@,
        Reason::PayloadRead => "reading an enum's payload in "@ + name
            + " over something that is a word rather than a handle"@,
        Reason::Branch => "a branch in "@ + name + " over something that is not a `Bool` word"@,
        Reason::BuiltinCall => "a builtin call in "@ + name
            + ", whose arguments the 8-byte frame cannot read as values"@,
        Reason::HostCall => "a Host call in "@ + name
            + ", whose arguments the 8-byte frame cannot read as values"@,
        Reason::Resource => "a call on a host resource in "@ + name
            + ", whose receiver ADR 0031 keeps out of every frame word"@,
        Reason::Try => "a `?` in "@ + name
            + ", over something that is a word rather than a value"@,
        Reason::Return => "a `return` in "@ + name
            + ", over something that is a word rather than a value"@,
        Reason::Interpolation(kind) => "string interpolation in "@ + name + " over "@ + called(
            kind,
        ),
        Reason::VarArgument => "a call in "@ + name + " that passes a `var` argument"@,
        Reason::ValueArgument => "a call in "@ + name
            + " whose value argument the 8-byte frame cannot show is a heap object"@,
        Reason::Unsupported(inst) => described(inst) + " in "@ + name,
        Reason::VarParameter => name + ", which takes a `var` parameter"@,
        Reason::Closure => name + ", which is a closure"@,
        Reason::Async => name + ", which is `async`"@,
    }
}

/// Why an entry is not admitted, mathematically.
pub ghost struct Refusal {
    pub what: Seq<char>,
    pub span: Option<Span>,
}

/// Why an entry is not admitted.
///
/// It names the construct in the words a Cove programmer would use, and where
/// it is, unless it is about a name rather than a construct.
#[derive(Debug)]
pub struct Refused {
    pub what: String,
    pub span: Option<Span>,
}

impl View for Refused {
    type V = Refusal;

    open spec fn view(&self) -> Refusal {
        Refusal { what: self.what@, span: self.span }
    }
}

impl Refused {
    fn new(what: String, span: Span) -> (refused: Refused)
        ensures
            refused@ == (Refusal { what: what@, span: Some(span) }),
    {
        Refused { what, span: Some(span) }
    }

    /// A refusal with nowhere to point: the entry itself was not found.
    fn nowhere(what: String) -> (refused: Refused)
        ensures
            refused@ == (Refusal { what: what@, span: None }),
    {
        Refused { what, span: None }
    }

    /// The refusal as a reader sees it.
    pub fn show(&self) -> (text: String)
        ensures
            text@ == "the 8-byte frame cannot run "@ + self.what@,
    {
        let mut text: String = "the 8-byte frame cannot run ".to_owned();
        text.append(self.what.as_str());
        text
    }
}

/// Refusals, mathematically.
pub open spec fn listed(refused: Seq<Refused>) -> Seq<Refusal> {
    Seq::new(refused.len(), |i: int| refused[i]@)
}

/// A function by its qualified name, between backquotes.
fn name_of(function: &Function) -> (text: String)
    ensures
        text@ == named(*function),
{
    let mut text: String = "`".to_owned();
    text.append(function.module.as_str());
    text.append(".");
    text.append(function.name.as_str());
    text.append("`");
    text
}

/// Three texts in a row, the middle one a function's name.
fn around(before: &str, function: &Function, after: &str) -> (text: String)
    ensures
        text@ == before@ + named(*function) + after@,
{
    let mut text: String = before.to_owned();
    text.append(name_of(function).as_str());
    text.append(after);
    text
}

/// A text, and a function's name after it.
fn before_name(before: &str, function: &Function) -> (text: String)
    ensures
        text@ == before@ + named(*function),
{
    let mut text: String = before.to_owned();
    text.append(name_of(function).as_str());
    text
}

/// A function's name, and a text after it.
fn after_name(function: &Function, after: &str) -> (text: String)
    ensures
        text@ == named(*function) + after@,
{
    let mut text: String = name_of(function);
    text.append(after);
    text
}

/// A reason in words.
fn words(program: &Program, function: &Function, reason: Reason) -> (text: String)
    requires
        reason matches Reason::Struct(of) ==> program.has_struct(of),
        reason matches Reason::Field(id) ==> program.has_const(id),
        reason matches Reason::Interpolation(Some(kind)) ==> !renders(kind),
    ensures
        text@ == worded(*program, *function, reason),
{
    match reason {
        Reason::Slot => around(
            "a general value slot in ",
            function,
            " that the 8-byte frame cannot show holds a heap object",
        ),
        Reason::Name => before_name("a name in ", function),
        Reason::Duration => before_name("a `Duration` in ", function),
        Reason::Struct(of) => {
            let mut text: String = "building `".to_owned();
            text.append(program.structs[of.0 as usize].name.as_str());
            text.append("` in ");
            text.append(name_of(function).as_str());
            text.append(
                " out of words the 8-byte frame cannot show are what the type's fields are",
            );
            text
        },
        Reason::Field(id) => {
            let mut text: String = "a write to `.".to_owned();
            text.append(program.const_name(id));
            text.append("` in ");
            text.append(name_of(function).as_str());
            text.append(", which names no field of one settled struct");
            text
        },
        Reason::Payload => around(
            "building an enum in ",
            function,
            " out of words the 8-byte frame cannot show are what the case's payload is",
        ),
        Reason::CaseTest => around(
            "a case test in ",
            function,
            " over something that is a word rather than a handle",
        ),
        Reason::PayloadRead => around(
            "reading an enum's payload in ",
            function,
            " over something that is a word rather than a handle",
        ),
        Reason::Branch => around(
            "a branch in ",
            function,
            " over something that is not a `Bool` word",
        ),
        Reason::BuiltinCall => around(
            "a builtin call in ",
            function,
            ", whose arguments the 8-byte frame cannot read as values",
        ),
        Reason::HostCall => around(
            "a Host call in ",
            function,
            ", whose arguments the 8-byte frame cannot read as values",
        ),
        Reason::Resource => around(
            "a call on a host resource in ",
            function,
            ", whose receiver ADR 0031 keeps out of every frame word",
        ),
        Reason::Try => around(
            "a `?` in ",
            function,
            ", over something that is a word rather than a value",
        ),
        Reason::Return => around(
            "a `return` in ",
            function,
            ", over something that is a word rather than a value",
        ),
        Reason::Interpolation(kind) => {
            let mut text: String = around("string interpolation in ", function, " over ");
            text.append(undisplayable(kind));
            text
        },
        Reason::VarArgument => around(
            "a call in ",
            function,
            " that passes a `var` argument",
        ),
        Reason::ValueArgument => around(
            "a call in ",
            function,
            " whose value argument the 8-byte frame cannot show is a heap object",
        ),
        Reason::Unsupported(inst) => {
            let mut text: String = describe(inst).to_owned();
            text.append(" in ");
            text.append(name_of(function).as_str());
            text
        },
        Reason::VarParameter => after_name(function, ", which takes a `var` parameter"),
        Reason::Closure => after_name(function, ", which is a closure"),
        Reason::Async => after_name(function, ", which is `async`"),
    }
}

/// What stands on the operand stack on entry to each instruction.
pub type Standing = Seq<Option<Seq<crate::frame::kinds::Held>>>;

/// The `count` operands on top at `pc` are all handles.
pub open spec fn all_refer(at: Standing, pc: int, count: int) -> bool {
    crate::frame::operands::kinds_at(at, pc, count) matches Some(kinds) && forall|i: int|
        0 <= i < kinds.len() ==> (#[trigger] kinds[i]).refers()
}

/// The operands on top at `pc` are what a run of parts says.
pub open spec fn parts_stand(at: Standing, pc: int, parts: Seq<Part>) -> bool {
    crate::frame::operands::kinds_at(at, pc, parts.len() as int) matches Some(kinds) && forall|
        i: int,
    |
        0 <= i < kinds.len() ==> (#[trigger] kinds[i]).as_part() == parts[i]
}

/// The operand on top at `pc` is of one kind for certain.
pub open spec fn stands(at: Standing, pc: int, kind: Kind) -> bool {
    crate::frame::operands::kinds_at(at, pc, 1) matches Some(kinds) && kinds[0] == kind
}

/// The instruction before `pc` leaves a value that is not a word.
pub open spec fn leaves_boundary(program: Program, function: Function, pc: int) -> bool {
    0 < pc <= function.code@.len() && {
        let inst = function.code@[pc - 1];
        match inst {
            Inst::MakeBuiltin { name: _, argc: _ } => crate::frame::kinds::pushes(
                program,
                inst,
            ) is None,
            Inst::CallHost { module: _, op: _, argc: _ } => crate::frame::kinds::pushes(
                program,
                inst,
            ) is None,
            Inst::Try { payload: _ } => crate::frame::kinds::pushes(program, inst) is None,
            Inst::Call { function: target, scalar_argc: _, value_argc: _, place_argc: _ } => !(
            program.func(target).returns is Scalar),
            _ => false,
        }
    }
}

/// The first kind of a list that does not render.
pub open spec fn first_unrendered(kinds: Seq<Kind>) -> Option<Kind>
    decreases kinds.len(),
{
    if kinds.len() == 0 {
        None
    } else if !renders(kinds[0]) {
        Some(kinds[0])
    } else {
        first_unrendered(kinds.skip(1))
    }
}

/// What the instruction at `pc` is refused for, in the order it is asked.
pub open spec fn reasons(program: Program, function: Function, at: Standing, pc: int) -> Seq<
    Reason,
> {
    let inst = function.code@[pc];
    match inst {
        Inst::ScalarConst(_) => Seq::empty(),
        Inst::LoadScalar(_) => Seq::empty(),
        Inst::StoreScalar(_) => Seq::empty(),
        Inst::ScalarPop => Seq::empty(),
        Inst::IntBinary(_) => Seq::empty(),
        Inst::Jump(_) => Seq::empty(),
        Inst::JumpIfFalseScalar(_) => Seq::empty(),
        Inst::JumpIfTrueScalar(_) => Seq::empty(),
        Inst::ReturnScalar => Seq::empty(),
        Inst::LoadLocal(_) => Seq::empty(),
        Inst::Dup => Seq::empty(),
        Inst::ValueToScalar => Seq::empty(),
        Inst::GetFieldAtScalar(_) => Seq::empty(),
        Inst::ScalarToValue(_) => Seq::empty(),
        Inst::GetFieldAt { of: _, at: _ } => Seq::empty(),
        Inst::Pop => Seq::empty(),
        Inst::StoreLocal(_) => unless(all_refer(at, pc, 1), Reason::Slot),
        Inst::Const(id) => match program.constants@[id.0 as int] {
            Const::Name(_) => seq![Reason::Name],
            Const::Duration(_) => seq![Reason::Duration],
            _ => Seq::empty(),
        },
        Inst::MakeStruct(of) => unless(
            parts_stand(at, pc, crate::frame::layout::parts_of(program.structs@[of.0 as int])),
            Reason::Struct(of),
        ),
        Inst::SetField(id) => unless(
            exists|place: int| crate::frame::layout::settles(program, program.name_text(id), place),
            Reason::Field(id),
        ),
        Inst::MakeEnum { ty: _, named: _, argc: _ } => unless(
            crate::frame::layout::construction(program, at, pc, inst) matches Some(site)
                && parts_stand(at, pc, site.payload),
            Reason::Payload,
        ),
        Inst::TestCase(_) => unless(all_refer(at, pc, 1), Reason::CaseTest),
        Inst::GetPayload { case: _, at: _ } => unless(all_refer(at, pc, 1), Reason::PayloadRead),
        Inst::JumpIfFalse(_) => unless(stands(at, pc, Kind::Bool), Reason::Branch),
        Inst::JumpIfTrue(_) => unless(stands(at, pc, Kind::Bool), Reason::Branch),
        Inst::MakeBuiltin { name: _, argc } => unless(
            crate::frame::operands::boundary_kinds(at, pc, argc as int) is Some,
            Reason::BuiltinCall,
        ),
        Inst::CallHost { module: _, op: _, argc } => unless(
            crate::frame::operands::boundary_kinds(at, pc, argc as int) is Some,
            Reason::HostCall,
        ),
        Inst::CallResource { op: _, argc: _ } => seq![Reason::Resource],
        Inst::Try { payload: _ } => unless(
            leaves_boundary(program, function, pc) || stands(at, pc, Kind::Str) || stands(
                at,
                pc,
                Kind::Enum,
            ),
            Reason::Try,
        ),
        Inst::Return => unless(
            leaves_boundary(program, function, pc) || stands(at, pc, Kind::Str) || stands(
                at,
                pc,
                Kind::Enum,
            ),
            Reason::Return,
        ),
        Inst::Concat(count) => match crate::frame::operands::kinds_at(at, pc, count as int) {
            None => seq![Reason::Interpolation(None)],
            Some(kinds) => match first_unrendered(kinds) {
                Some(kind) => seq![Reason::Interpolation(Some(kind))],
                None => Seq::empty(),
            },
        },
        Inst::Binary(op) => unless(
            op.compares() && compares_texts(at, pc),
            Reason::Unsupported(inst),
        ),
        Inst::Call { function: _, scalar_argc: _, value_argc, place_argc } => unless(
            place_argc == 0,
            Reason::VarArgument,
        ) + unless(
            value_argc == 0 || all_refer(at, pc, value_argc as int),
            Reason::ValueArgument,
        ),
        _ => seq![Reason::Unsupported(inst)],
    }
}

/// The two operands on top are handles, and one of them is a text for certain.
pub open spec fn compares_texts(at: Standing, pc: int) -> bool {
    crate::frame::operands::kinds_at(at, pc, 2) matches Some(kinds) && (kinds[0] == Kind::Str
        || kinds[1] == Kind::Str) && kinds[0].refers() && kinds[1].refers()
}

/// The reason, unless the condition holds.
pub open spec fn unless(holds: bool, reason: Reason) -> Seq<Reason> {
    if holds {
        Seq::empty()
    } else {
        seq![reason]
    }
}

/// What the shape of a function is refused for, whatever its code.
pub open spec fn shape_reasons(function: Function) -> Seq<Reason> {
    unless(function.place_frame_size == 0, Reason::VarParameter) + unless(
        function.captures == 0,
        Reason::Closure,
    ) + unless(!function.answers_a_task, Reason::Async) + unless(
        forall|i: int|
            0 <= i < function.params@.len() ==> !((#[trigger] function.params@[i]) is Place),
        Reason::VarParameter,
    )
}

/// Reasons as refusals.
pub open spec fn refusing(
    program: Program,
    function: Function,
    span: Span,
    list: Seq<Reason>,
) -> Seq<Refusal> {
    Seq::new(
        list.len(),
        |i: int| Refusal { what: worded(program, function, list[i]), span: Some(span) },
    )
}

/// The refusals of the first `count` instructions.
pub open spec fn refusals_before(
    program: Program,
    function: Function,
    at: Standing,
    count: int,
) -> Seq<Refusal>
    decreases count,
{
    if count <= 0 {
        Seq::empty()
    } else {
        refusals_before(program, function, at, count - 1) + refusing(
            program,
            function,
            function.spot(count - 1),
            reasons(program, function, at, count - 1),
        )
    }
}

/// Every refusal of one function: its instructions' in order, and then those
/// of its shape.
pub open spec fn refusals_in(program: Program, function: Function) -> Seq<Refusal> {
    refusals_before(
        program,
        function,
        crate::frame::operands::operands_of(program, function),
        function.code@.len() as int,
    ) + refusing(program, function, function.span, shape_reasons(function))
}

/// The functions the first `count` instructions call, in order.
pub open spec fn calls_before(function: Function, count: int) -> Seq<FunctionId>
    decreases count,
{
    if count <= 0 {
        Seq::empty()
    } else {
        match function.code@[count - 1] {
            Inst::Call { function: target, scalar_argc: _, value_argc: _, place_argc: _ } =>
                calls_before(function, count - 1).push(target),
            _ => calls_before(function, count - 1),
        }
    }
}

/// The functions a function calls, in order.
pub open spec fn calls_of(function: Function) -> Seq<FunctionId> {
    calls_before(function, function.code@.len() as int)
}

/// Whether the operand on top is a text for certain.
fn crosses_as_a_string(operands: &Operands, pc: usize) -> (yes: bool)
    ensures
        yes == stands(operands@, pc as int, Kind::Str),
{
    match operands.top(pc, 1) {
        Some(kinds) => kinds[0] == Kind::Str,
        None => false,
    }
}

/// Whether the operand on top is a case of `Result` or `Option` for certain.
fn crosses_as_an_enum(operands: &Operands, pc: usize) -> (yes: bool)
    ensures
        yes == stands(operands@, pc as int, Kind::Enum),
{
    match operands.top(pc, 1) {
        Some(kinds) => kinds[0] == Kind::Enum,
        None => false,
    }
}

/// Whether the instruction before `pc` leaves a value in the boundary buffer
/// rather than a word on the one stack.
pub fn leaves_a_boundary_value(program: &Program, function: &Function, pc: usize) -> (yes: bool)
    requires
        crate::frame::validity::well_named(*program, *function),
    ensures
        yes == leaves_boundary(*program, *function, pc as int),
{
    if pc == 0 || pc > function.code.len() {
        return false;
    }
    let inst: Inst = function.code[pc - 1];
    match inst {
        Inst::MakeBuiltin { name: _, argc: _ } => pushed_kind(program, inst).is_none(),
        Inst::CallHost { module: _, op: _, argc: _ } => pushed_kind(program, inst).is_none(),
        Inst::Try { payload: _ } => pushed_kind(program, inst).is_none(),
        Inst::Call { function: target, scalar_argc: _, value_argc: _, place_argc: _ } => {
            match program.function(target).returns {
                SlotKind::Scalar(_) => false,
                _ => true,
            }
        },
        _ => false,
    }
}

/// Whether the `count` operands on top are all handles.
fn all_are_handles(operands: &Operands, pc: usize, count: usize) -> (yes: bool)
    ensures
        yes == all_refer(operands@, pc as int, count as int),
{
    match operands.top(pc, count) {
        None => false,
        Some(kinds) => {
            let mut i: usize = 0;
            while i < kinds.len()
                invariant
                    i <= kinds@.len(),
                    crate::frame::operands::kinds_at(operands@, pc as int, count as int) == Some(
                        kinds@,
                    ),
                    forall|j: int| 0 <= j < i ==> (#[trigger] kinds@[j]).refers(),
                decreases kinds@.len() - i,
            {
                if !kinds[i].is_reference() {
                    proof {
                        let all = crate::frame::operands::kinds_at(
                            operands@,
                            pc as int,
                            count as int,
                        )->0;
                        assert(all == kinds@);
                        assert(!all[i as int].refers());
                        assert(!all_refer(operands@, pc as int, count as int));
                    }
                    return false;
                }
                i = i + 1;
            }
            true
        },
    }
}

/// Whether the operands on top are what a run of parts says.
fn parts_are_standing(operands: &Operands, pc: usize, parts: &Vec<Part>) -> (yes: bool)
    ensures
        yes == parts_stand(operands@, pc as int, parts@),
{
    match operands.top(pc, parts.len()) {
        None => false,
        Some(kinds) => {
            let mut i: usize = 0;
            while i < kinds.len()
                invariant
                    i <= kinds@.len(),
                    kinds@.len() == parts@.len(),
                    crate::frame::operands::kinds_at(operands@, pc as int, parts@.len() as int)
                        == Some(kinds@),
                    forall|j: int| 0 <= j < i ==> (#[trigger] kinds@[j]).as_part() == parts@[j],
                decreases kinds@.len() - i,
            {
                if kinds[i].part() != parts[i] {
                    return false;
                }
                i = i + 1;
            }
            true
        },
    }
}

/// The first of some operands an interpolation cannot render.
fn find_unrendered(kinds: &Vec<Kind>) -> (found: Option<Kind>)
    ensures
        found == first_unrendered(kinds@),
        found matches Some(kind) ==> !renders(kind),
{
    let mut i: usize = 0;
    proof {
        assert(kinds@.skip(0) =~= kinds@);
    }
    while i < kinds.len()
        invariant
            i <= kinds@.len(),
            first_unrendered(kinds@.skip(i as int)) == first_unrendered(kinds@),
        decreases kinds@.len() - i,
    {
        let kind: Kind = kinds[i];
        let shown: bool = match kind {
            Kind::Str => true,
            Kind::Int => true,
            Kind::Bool => true,
            Kind::Float => true,
            _ => false,
        };
        proof {
            assert(kinds@.skip(i as int)[0] == kind);
            assert(kinds@.skip(i as int).skip(1) =~= kinds@.skip(i + 1));
        }
        if !shown {
            return Some(kind);
        }
        i = i + 1;
    }
    None
}

/// A list of the one reason, unless the condition holds.
fn refuse_unless(holds: bool, reason: Reason) -> (list: Vec<Reason>)
    ensures
        list@ == unless(holds, reason),
{
    let mut list: Vec<Reason> = Vec::new();
    if !holds {
        list.push(reason);
    }
    proof {
        assert(list@ =~= unless(holds, reason));
    }
    list
}

/// A reason that can be put in words.
pub open spec fn wordable(program: Program, reason: Reason) -> bool {
    &&& reason matches Reason::Struct(of) ==> program.has_struct(of)
    &&& reason matches Reason::Field(id) ==> program.has_const(id)
    &&& reason matches Reason::Interpolation(Some(kind)) ==> !renders(kind)
}

/// What the instruction at `pc` is refused for.
fn reasons_at(
    program: &Program,
    function: &Function,
    operands: &Operands,
    structs: &Vec<Vec<Part>>,
    fields: &Vec<Option<usize>>,
    pc: usize,
) -> (list: Vec<Reason>)
    requires
        crate::frame::validity::valid(*program),
        exists|f: int| 0 <= f < program.functions@.len() && program.functions@[f] == *function,
        pc < function.code@.len(),
        structs@.len() == program.structs@.len(),
        forall|i: int|
            0 <= i < structs@.len() ==> (#[trigger] structs@[i])@
                == crate::frame::layout::parts_of(program.structs@[i]),
        crate::frame::layout::positions_are(*program, fields@),
    ensures
        list@ == reasons(*program, *function, operands@, pc as int),
        forall|i: int| 0 <= i < list@.len() ==> wordable(*program, #[trigger] list@[i]),
{
    let ghost f = choose|f: int|
        0 <= f < program.functions@.len() && program.functions@[f] == *function;
    let inst: Inst = function.code[pc];
    proof {
        assert(crate::frame::validity::well_named(*program, program.functions@[f]));
        assert(crate::ir::names_what_exists(*program, function.code@[pc as int]));
        assert(Seq::<Reason>::empty() + Seq::<Reason>::empty() =~= Seq::<Reason>::empty());
    }
    match inst {
        Inst::ScalarConst(_) => Vec::new(),
        Inst::LoadScalar(_) => Vec::new(),
        Inst::StoreScalar(_) => Vec::new(),
        Inst::ScalarPop => Vec::new(),
        Inst::IntBinary(_) => Vec::new(),
        Inst::Jump(_) => Vec::new(),
        Inst::JumpIfFalseScalar(_) => Vec::new(),
        Inst::JumpIfTrueScalar(_) => Vec::new(),
        Inst::ReturnScalar => Vec::new(),
        Inst::LoadLocal(_) => Vec::new(),
        Inst::Dup => Vec::new(),
        Inst::ValueToScalar => Vec::new(),
        Inst::GetFieldAtScalar(_) => Vec::new(),
        Inst::ScalarToValue(_) => Vec::new(),
        Inst::GetFieldAt { of: _, at: _ } => Vec::new(),
        Inst::Pop => Vec::new(),
        Inst::StoreLocal(_) => refuse_unless(all_are_handles(operands, pc, 1), Reason::Slot),
        Inst::Const(id) => match &program.constants[id.0 as usize] {
            Const::Name(_) => refuse_unless(false, Reason::Name),
            Const::Duration(_) => refuse_unless(false, Reason::Duration),
            _ => Vec::new(),
        },
        Inst::MakeStruct(of) => refuse_unless(
            parts_are_standing(operands, pc, &structs[of.0 as usize]),
            Reason::Struct(of),
        ),
        Inst::SetField(id) => {
            let settled: bool = fields[id.0 as usize].is_some();
            proof {
                assert(crate::frame::layout::writes_at(*program, id, f, pc as int));
                assert(crate::frame::layout::writes(*program, id));
                match fields@[id.0 as int] {
                    Some(at) => {
                        assert(crate::frame::layout::settles(
                            *program,
                            program.name_text(id),
                            at as int,
                        ));
                    },
                    None => {},
                }
            }
            refuse_unless(settled, Reason::Field(id))
        },
        Inst::MakeEnum { ty: _, named: _, argc: _ } => {
            let agrees: bool = match enum_construction(program, operands, pc, inst) {
                Some(site) => parts_are_standing(operands, pc, &site.payload),
                None => false,
            };
            refuse_unless(agrees, Reason::Payload)
        },
        Inst::TestCase(_) => refuse_unless(all_are_handles(operands, pc, 1), Reason::CaseTest),
        Inst::GetPayload { case: _, at: _ } => refuse_unless(
            all_are_handles(operands, pc, 1),
            Reason::PayloadRead,
        ),
        Inst::JumpIfFalse(_) => refuse_unless(
            stands_as_a_bool(operands, pc),
            Reason::Branch,
        ),
        Inst::JumpIfTrue(_) => refuse_unless(
            stands_as_a_bool(operands, pc),
            Reason::Branch,
        ),
        Inst::MakeBuiltin { name: _, argc } => refuse_unless(
            operands.boundary(pc, argc as usize).is_some(),
            Reason::BuiltinCall,
        ),
        Inst::CallHost { module: _, op: _, argc } => refuse_unless(
            operands.boundary(pc, argc as usize).is_some(),
            Reason::HostCall,
        ),
        Inst::CallResource { op: _, argc: _ } => refuse_unless(false, Reason::Resource),
        Inst::Try { payload: _ } => refuse_unless(
            leaves_a_boundary_value(program, function, pc) || crosses_as_a_string(operands, pc)
                || crosses_as_an_enum(operands, pc),
            Reason::Try,
        ),
        Inst::Return => refuse_unless(
            leaves_a_boundary_value(program, function, pc) || crosses_as_a_string(operands, pc)
                || crosses_as_an_enum(operands, pc),
            Reason::Return,
        ),
        Inst::Concat(count) => match operands.top(pc, count as usize) {
            None => refuse_unless(false, Reason::Interpolation(None)),
            Some(kinds) => match find_unrendered(&kinds) {
                Some(kind) => refuse_unless(false, Reason::Interpolation(Some(kind))),
                None => Vec::new(),
            },
        },
        Inst::Binary(op) => {
            let texts: bool = match operands.top(pc, 2) {
                Some(kinds) => (kinds[0] == Kind::Str || kinds[1] == Kind::Str)
                    && kinds[0].is_reference() && kinds[1].is_reference(),
                None => false,
            };
            refuse_unless(op.is_comparison() && texts, Reason::Unsupported(inst))
        },
        Inst::Call { function: _, scalar_argc: _, value_argc, place_argc } => {
            let mut list: Vec<Reason> = refuse_unless(place_argc == 0, Reason::VarArgument);
            if value_argc != 0 && !all_are_handles(operands, pc, value_argc as usize) {
                list.push(Reason::ValueArgument);
            }
            proof {
                assert(list@ =~= reasons(*program, *function, operands@, pc as int));
            }
            list
        },
        _ => refuse_unless(false, Reason::Unsupported(inst)),
    }
}

/// Whether the operand on top is a `Bool` for certain.
fn stands_as_a_bool(operands: &Operands, pc: usize) -> (yes: bool)
    ensures
        yes == stands(operands@, pc as int, Kind::Bool),
{
    match operands.top(pc, 1) {
        Some(kinds) => kinds[0] == Kind::Bool,
        None => false,
    }
}

/// Where a refusal found while walking one function goes: back to the caller
/// right away, or into a collection that lets the walk keep going.
pub enum Sink {
    StopAtFirst,
    Accumulate(Vec<Refused>),
}

impl Sink {
    /// What has been gathered.
    pub open spec fn gathered(self) -> Seq<Refusal> {
        match self {
            Sink::StopAtFirst => Seq::empty(),
            Sink::Accumulate(found) => listed(found@),
        }
    }

    /// Records one refusal, or answers it.
    pub fn refuse(&mut self, refused: Refused) -> (result: Result<(), Refused>)
        ensures
            match *old(self) {
                Sink::StopAtFirst => result == Err::<(), Refused>(refused) && *final(self)
                    == *old(self),
                Sink::Accumulate(_) => result is Ok && *final(self) is Accumulate
                    && final(self).gathered() == old(self).gathered().push(refused@),
            },
    {
        match self {
            Sink::StopAtFirst => Err(refused),
            Sink::Accumulate(found) => {
                let ghost before = found@;
                found.push(refused);
                proof {
                    assert(listed(found@) =~= listed(before).push(refused@));
                }
                Ok(())
            },
        }
    }
}

/// What becomes of some refusals in a sink: gathered, or the first answered.
pub open spec fn sunk(before: Sink, after: Sink, list: Seq<Refusal>, first: Option<Refusal>) -> bool {
    match before {
        Sink::StopAtFirst => after == before && (if list.len() > 0 {
            first == Some(list[0])
        } else {
            first is None
        }),
        Sink::Accumulate(_) => after is Accumulate && after.gathered() == before.gathered() + list
            && first is None,
    }
}

/// Hands a list of reasons to a sink.
fn refuse_all(
    program: &Program,
    function: &Function,
    span: Span,
    list: &Vec<Reason>,
    sink: &mut Sink,
) -> (result: Result<(), Refused>)
    requires
        forall|i: int| 0 <= i < list@.len() ==> wordable(*program, #[trigger] list@[i]),
    ensures
        sunk(
            *old(sink),
            *final(sink),
            refusing(*program, *function, span, list@),
            match result {
                Ok(_) => None,
                Err(refused) => Some(refused@),
            },
        ),
{
    let ghost all = refusing(*program, *function, span, list@);
    let mut i: usize = 0;
    proof {
        assert(sink.gathered() + all.take(0) =~= sink.gathered());
    }
    while i < list.len()
        invariant
            i <= list@.len(),
            all == refusing(*program, *function, span, list@),
            forall|i: int| 0 <= i < list@.len() ==> wordable(*program, #[trigger] list@[i]),
            sunk(*old(sink), *sink, all.take(i as int), None),
        decreases list@.len() - i,
    {
        let refused = Refused::new(words(program, function, list[i]), span);
        let ghost refusal = refused@;
        let ghost earlier = *sink;
        match sink.refuse(refused) {
            Ok(_) => {
                proof {
                    assert(refusal == all[i as int]);
                    assert(all.take(i + 1) =~= all.take(i as int).push(refusal));
                    assert(old(sink).gathered() + all.take(i + 1) =~= (old(sink).gathered()
                        + all.take(i as int)).push(refusal));
                }
            },
            Err(first) => {
                proof {
                    assert(all.take(i as int).len() == 0);
                    assert(i == 0);
                    assert(all[0] == refusal);
                }
                return Err(first);
            },
        }
        i = i + 1;
    }
    proof {
        assert(all.take(i as int) =~= all);
    }
    Ok(())
}

/// One batch of refusals after another.
proof fn lemma_sunk_in_turn(
    before: Sink,
    middle: Sink,
    after: Sink,
    a: Seq<Refusal>,
    b: Seq<Refusal>,
    first: Option<Refusal>,
)
    requires
        sunk(before, middle, a, None),
        sunk(middle, after, b, first),
    ensures
        sunk(before, after, a + b, first),
{
    match before {
        Sink::StopAtFirst => {
            assert(a.len() == 0);
            assert(a + b =~= b);
        },
        Sink::Accumulate(_) => {
            assert((before.gathered() + a) + b =~= before.gathered() + (a + b));
        },
    }
}

/// A first refusal that stops the walk stays the first whatever follows.
proof fn lemma_sunk_early(
    before: Sink,
    after: Sink,
    a: Seq<Refusal>,
    b: Seq<Refusal>,
    first: Refusal,
)
    requires
        sunk(before, after, a, Some(first)),
    ensures
        sunk(before, after, a + b, Some(first)),
{
    assert((a + b)[0] == a[0]);
}

/// What the shape of a function is refused for.
fn reasons_of_shape(function: &Function) -> (list: Vec<Reason>)
    ensures
        list@ == shape_reasons(*function),
        forall|i: int|
            0 <= i < list@.len() ==> (#[trigger] list@[i]) is VarParameter || list@[i] is Closure
                || list@[i] is Async,
{
    let mut list: Vec<Reason> = Vec::new();
    if function.place_frame_size != 0 {
        list.push(Reason::VarParameter);
    }
    if function.captures != 0 {
        list.push(Reason::Closure);
    }
    if function.answers_a_task {
        list.push(Reason::Async);
    }
    let mut i: usize = 0;
    let mut place: bool = false;
    while i < function.params.len()
        invariant
            i <= function.params@.len(),
            place == exists|j: int| 0 <= j < i && (#[trigger] function.params@[j]) is Place,
        decreases function.params@.len() - i,
    {
        if let SlotKind::Place = function.params[i] {
            place = true;
            proof {
                assert(function.params@[i as int] is Place);
            }
        }
        i = i + 1;
    }
    if place {
        list.push(Reason::VarParameter);
    }
    proof {
        assert(list@ =~= shape_reasons(*function));
    }
    list
}

/// Every function a program's code calls is one it has.
proof fn lemma_calls_exist(program: Program, function: Function, count: int)
    requires
        crate::frame::validity::well_named(program, function),
        count <= function.code@.len(),
    ensures
        forall|i: int|
            0 <= i < calls_before(function, count).len() ==> program.has_function(
                #[trigger] calls_before(function, count)[i],
            ),
    decreases count,
{
    if count > 0 {
        lemma_calls_exist(program, function, count - 1);
        assert(crate::ir::names_what_exists(program, function.code@[count - 1]));
        let fewer = calls_before(function, count - 1);
        let calls = calls_before(function, count);
        assert forall|i: int| 0 <= i < calls.len() implies program.has_function(
            #[trigger] calls[i],
        ) by {
            if i < fewer.len() {
                assert(calls[i] == fewer[i]);
            }
        }
    }
}

/// One function's refusals, and the functions it calls.
pub fn walk_function(
    program: &Program,
    id: FunctionId,
    structs: &Vec<Vec<Part>>,
    fields: &Vec<Option<usize>>,
    sink: &mut Sink,
) -> (result: Result<Vec<FunctionId>, Refused>)
    requires
        crate::frame::validity::valid(*program),
        program.has_function(id),
        structs@.len() == program.structs@.len(),
        forall|i: int|
            0 <= i < structs@.len() ==> (#[trigger] structs@[i])@
                == crate::frame::layout::parts_of(program.structs@[i]),
        crate::frame::layout::positions_are(*program, fields@),
    ensures
        sunk(
            *old(sink),
            *final(sink),
            refusals_in(*program, program.func(id)),
            match result {
                Ok(_) => None,
                Err(refused) => Some(refused@),
            },
        ),
        result matches Ok(calls) ==> calls@ == calls_of(program.func(id)) && forall|i: int|
            0 <= i < calls@.len() ==> program.has_function(#[trigger] calls@[i]),
{
    let function = program.function(id);
    let mut calls: Vec<FunctionId> = Vec::new();
    proof {
        assert(program.functions@[id.0 as int] == *function);
        assert(crate::frame::validity::well_named(*program, program.functions@[id.0 as int]));
        assert(crate::frame::operands::levelled(*program, program.functions@[id.0 as int]));
    }
    let operands = simulate(program, function);
    let ghost before_shape = refusals_before(
        *program,
        *function,
        operands@,
        function.code@.len() as int,
    );
    let ghost shape = refusing(*program, *function, function.span, shape_reasons(*function));
    let mut pc: usize = 0;
    proof {
        assert(sink.gathered() + Seq::<Refusal>::empty() =~= sink.gathered());
    }
    while pc < function.code.len()
        invariant
            crate::frame::validity::valid(*program),
            program.has_function(id),
            program.functions@[id.0 as int] == *function,
            *function == program.func(id),
            structs@.len() == program.structs@.len(),
            forall|i: int|
                0 <= i < structs@.len() ==> (#[trigger] structs@[i])@
                    == crate::frame::layout::parts_of(program.structs@[i]),
            crate::frame::layout::positions_are(*program, fields@),
            pc <= function.code@.len(),
            operands@ == crate::frame::operands::operands_of(*program, *function),
            before_shape == refusals_before(
                *program,
                *function,
                operands@,
                function.code@.len() as int,
            ),
            shape == refusing(*program, *function, function.span, shape_reasons(*function)),
            calls@ == calls_before(*function, pc as int),
            sunk(
                *old(sink),
                *sink,
                refusals_before(*program, *function, operands@, pc as int),
                None,
            ),
        decreases function.code@.len() - pc,
    {
        let list = reasons_at(program, function, &operands, structs, fields, pc);
        let ghost sofar = refusals_before(*program, *function, operands@, pc as int);
        let ghost here = refusing(*program, *function, function.spot(pc as int), list@);
        let ghost middle = *sink;
        match refuse_all(program, function, function.span_at(pc), &list, sink) {
            Ok(_) => {
                proof {
                    lemma_sunk_in_turn(*old(sink), middle, *sink, sofar, here, None);
                }
            },
            Err(first) => {
                proof {
                    lemma_sunk_in_turn(*old(sink), middle, *sink, sofar, here, Some(first@));
                    lemma_refusals_go_on(
                        *program,
                        *function,
                        operands@,
                        pc + 1,
                        function.code@.len() as int,
                    );
                    let rest = choose|rest: Seq<Refusal>|
                        before_shape == #[trigger] (refusals_before(
                            *program,
                            *function,
                            operands@,
                            pc + 1,
                        ) + rest);
                    lemma_sunk_early(*old(sink), *sink, sofar + here, rest + shape, first@);
                    assert(before_shape + shape =~= (sofar + here) + (rest + shape));
                }
                return Err(first);
            },
        }
        if let Inst::Call { function: target, scalar_argc: _, value_argc: _, place_argc: _ } =
            function.code[pc] {
            calls.push(target);
        }
        pc = pc + 1;
    }
    let list = reasons_of_shape(function);
    let ghost middle = *sink;
    proof {
        assert forall|i: int| 0 <= i < list@.len() implies wordable(
            *program,
            #[trigger] list@[i],
        ) by {}
        lemma_calls_exist(*program, *function, function.code@.len() as int);
    }
    match refuse_all(program, function, function.span, &list, sink) {
        Ok(_) => {
            proof {
                lemma_sunk_in_turn(*old(sink), middle, *sink, before_shape, shape, None);
            }
            Ok(calls)
        },
        Err(first) => {
            proof {
                lemma_sunk_in_turn(*old(sink), middle, *sink, before_shape, shape, Some(first@));
            }
            Err(first)
        },
    }
}

/// The refusals of more instructions begin with those of fewer.
proof fn lemma_refusals_go_on(
    program: Program,
    function: Function,
    at: Standing,
    a: int,
    b: int,
)
    requires
        0 <= a <= b,
    ensures
        exists|rest: Seq<Refusal>|
            refusals_before(program, function, at, b) == #[trigger] (refusals_before(
                program,
                function,
                at,
                a,
            ) + rest),
    decreases b,
{
    let start = refusals_before(program, function, at, a);
    if a == b {
        assert(start =~= start + Seq::<Refusal>::empty());
    } else {
        lemma_refusals_go_on(program, function, at, a, b - 1);
        let rest = choose|rest: Seq<Refusal>|
            refusals_before(program, function, at, b - 1) == #[trigger] (start + rest);
        let more = refusing(
            program,
            function,
            function.spot(b - 1),
            reasons(program, function, at, b - 1),
        );
        assert(refusals_before(program, function, at, b) =~= start + (rest + more));
    }
}

/// The functions still to be walked, once calls have been added to them: each
/// that has not been seen, in order, at the end.
pub open spec fn awaited(
    seen: Seq<bool>,
    queue: Seq<FunctionId>,
    calls: Seq<FunctionId>,
) -> (Seq<bool>, Seq<FunctionId>)
    decreases calls.len(),
{
    if calls.len() == 0 {
        (seen, queue)
    } else {
        let (s, q) = awaited(seen, queue, calls.drop_last());
        let id = calls.last();
        if id.0 < s.len() && !s[id.0 as int] {
            (s.update(id.0 as int, true), q.push(id))
        } else {
            (s, q)
        }
    }
}

/// How many functions have not been seen.
pub open spec fn unseen(seen: Seq<bool>) -> nat
    decreases seen.len(),
{
    if seen.len() == 0 {
        0
    } else {
        unseen(seen.drop_last()) + (if seen.last() {
            0nat
        } else {
            1
        })
    }
}

proof fn lemma_seeing_one(seen: Seq<bool>, at: int)
    requires
        0 <= at < seen.len(),
        !seen[at],
    ensures
        unseen(seen.update(at, true)) == unseen(seen) - 1,
    decreases seen.len(),
{
    let next = seen.update(at, true);
    if at == seen.len() - 1 {
        assert(next.drop_last() =~= seen.drop_last());
    } else {
        assert(next.drop_last() =~= seen.drop_last().update(at, true));
        assert(next.last() == seen.last());
        lemma_seeing_one(seen.drop_last(), at);
    }
}

/// Adding calls sees some functions for the first time, or adds nothing.
pub proof fn lemma_awaited(seen: Seq<bool>, queue: Seq<FunctionId>, calls: Seq<FunctionId>)
    ensures
        awaited(seen, queue, calls).0.len() == seen.len(),
        unseen(awaited(seen, queue, calls).0) + awaited(seen, queue, calls).1.len() == unseen(seen)
            + queue.len(),
        unseen(awaited(seen, queue, calls).0) <= unseen(seen),
        forall|i: int|
            0 <= i < seen.len() ==> (#[trigger] awaited(seen, queue, calls).0[i] <==> seen[i]
                || exists|j: int| 0 <= j < calls.len() && (#[trigger] calls[j]).0 == i),
        forall|i: int|
            0 <= i < queue.len() ==> #[trigger] awaited(seen, queue, calls).1[i] == queue[i],
        forall|i: int|
            queue.len() <= i < awaited(seen, queue, calls).1.len() ==> exists|j: int|
                0 <= j < calls.len() && #[trigger] calls[j] == #[trigger] awaited(
                    seen,
                    queue,
                    calls,
                ).1[i],
        forall|i: int|
            0 <= i < seen.len() && !seen[i] && #[trigger] awaited(seen, queue, calls).0[i]
                ==> exists|k: int|
                queue.len() <= k < awaited(seen, queue, calls).1.len() && (#[trigger] awaited(
                    seen,
                    queue,
                    calls,
                ).1[k]).0 == i,
    decreases calls.len(),
{
    if calls.len() > 0 {
        let fewer = calls.drop_last();
        lemma_awaited(seen, queue, fewer);
        let (s, q) = awaited(seen, queue, fewer);
        let (t, r) = awaited(seen, queue, calls);
        let id = calls.last();
        if id.0 < s.len() && !s[id.0 as int] {
            lemma_seeing_one(s, id.0 as int);
        }
        assert forall|i: int| 0 <= i < seen.len() implies (#[trigger] t[i] <==> seen[i] || exists|
            j: int,
        |
            0 <= j < calls.len() && (#[trigger] calls[j]).0 == i) by {
            if s[i] && !seen[i] {
                let j = choose|j: int| 0 <= j < fewer.len() && (#[trigger] fewer[j]).0 == i;
                assert(calls[j].0 == i);
            }
            if i == id.0 {
                assert(calls[calls.len() - 1].0 == i);
            }
            if exists|j: int| 0 <= j < calls.len() && (#[trigger] calls[j]).0 == i {
                let j = choose|j: int| 0 <= j < calls.len() && (#[trigger] calls[j]).0 == i;
                if j < fewer.len() {
                    assert(fewer[j].0 == i);
                }
            }
        }
        assert forall|i: int| queue.len() <= i < r.len() implies exists|j: int|
            0 <= j < calls.len() && #[trigger] calls[j] == #[trigger] r[i] by {
            if i < q.len() {
                let j = choose|j: int| 0 <= j < fewer.len() && #[trigger] fewer[j] == q[i];
                assert(calls[j] == r[i]);
            } else {
                assert(calls[calls.len() - 1] == r[i]);
            }
        }
        assert forall|i: int| 0 <= i < seen.len() && !seen[i] && #[trigger] t[i] implies exists|
            k: int,
        |
            queue.len() <= k < r.len() && (#[trigger] r[k]).0 == i by {
            if s[i] {
                let k = choose|k: int| queue.len() <= k < q.len() && (#[trigger] q[k]).0 == i;
                assert(r[k].0 == i);
            } else {
                assert(r[q.len() as int].0 == i);
            }
        }
    }
}

/// The order functions are walked in: the one added last first.
pub open spec fn walk_order(program: Program, seen: Seq<bool>, queue: Seq<FunctionId>) -> Seq<
    FunctionId,
>
    decreases unseen(seen) + queue.len(), queue.len(),
{
    if queue.len() == 0 {
        Seq::empty()
    } else {
        let id = queue.last();
        let (s, q) = awaited(seen, queue.drop_last(), calls_of(program.func(id)));
        proof {
            lemma_awaited(seen, queue.drop_last(), calls_of(program.func(id)));
        }
        seq![id] + walk_order(program, s, q)
    }
}

/// The functions a walk from an entry reaches, in the order it reaches them.
pub open spec fn walked(program: Program, entry: FunctionId) -> Seq<FunctionId> {
    walk_order(
        program,
        Seq::new(program.functions@.len(), |i: int| i == entry.0),
        seq![entry],
    )
}

/// The refusals of some functions, one function after another.
pub open spec fn refusals_along(program: Program, order: Seq<FunctionId>) -> Seq<Refusal>
    decreases order.len(),
{
    if order.len() == 0 {
        Seq::empty()
    } else {
        refusals_along(program, order.drop_last()) + refusals_in(
            program,
            program.func(order.last()),
        )
    }
}

/// Every refusal a walk from an entry finds, in the order it finds them.
pub open spec fn refusals_from(program: Program, entry: FunctionId) -> Seq<Refusal> {
    refusals_along(program, walked(program, entry))
}

/// A chain of calls, each function calling the next.
pub open spec fn call_chain(program: Program, chain: Seq<FunctionId>) -> bool {
    &&& chain.len() > 0
    &&& forall|i: int|
        0 <= i < chain.len() - 1 ==> calls_of(program.func(#[trigger] chain[i])).contains(
            chain[i + 1],
        )
}

/// A run that enters one function can enter another.
pub open spec fn reaches(program: Program, from: FunctionId, to: FunctionId) -> bool {
    exists|chain: Seq<FunctionId>| #[trigger]
        call_chain(program, chain) && chain[0] == from && chain.last() == to
}

pub proof fn lemma_reaches_on(program: Program, entry: FunctionId, a: FunctionId, b: FunctionId)
    requires
        reaches(program, entry, a),
        calls_of(program.func(a)).contains(b),
    ensures
        reaches(program, entry, b),
{
    let chain = choose|chain: Seq<FunctionId>| #[trigger]
        call_chain(program, chain) && chain[0] == entry && chain.last() == a;
    let longer = chain.push(b);
    assert forall|i: int| 0 <= i < longer.len() - 1 implies calls_of(
        program.func(#[trigger] longer[i]),
    ).contains(longer[i + 1]) by {
        if i < chain.len() - 1 {
            assert(longer[i] == chain[i] && longer[i + 1] == chain[i + 1]);
        } else {
            assert(longer[i] == a && longer[i + 1] == b);
        }
    }
    assert(call_chain(program, longer));
}

/// A walk goes nowhere a run could not.
proof fn lemma_walk_is_sound(
    program: Program,
    entry: FunctionId,
    seen: Seq<bool>,
    queue: Seq<FunctionId>,
)
    requires
        forall|i: int| 0 <= i < queue.len() ==> reaches(program, entry, #[trigger] queue[i]),
    ensures
        forall|i: int|
            0 <= i < walk_order(program, seen, queue).len() ==> reaches(
                program,
                entry,
                #[trigger] walk_order(program, seen, queue)[i],
            ),
    decreases unseen(seen) + queue.len(), queue.len(),
{
    if queue.len() > 0 {
        let id = queue.last();
        let calls = calls_of(program.func(id));
        let rest = queue.drop_last();
        let (s, q) = awaited(seen, rest, calls);
        lemma_awaited(seen, rest, calls);
        assert(queue[queue.len() - 1] == id);
        assert forall|i: int| 0 <= i < q.len() implies reaches(program, entry, #[trigger] q[i]) by {
            if i < rest.len() {
                assert(q[i] == queue[i]);
            } else {
                let j = choose|j: int| 0 <= j < calls.len() && #[trigger] calls[j] == q[i];
                assert(calls.contains(q[i]));
                lemma_reaches_on(program, entry, id, q[i]);
            }
        }
        lemma_walk_is_sound(program, entry, s, q);
        let order = walk_order(program, seen, queue);
        let later = walk_order(program, s, q);
        assert(order == seq![id] + later);
        assert forall|i: int| 0 <= i < order.len() implies reaches(
            program,
            entry,
            #[trigger] order[i],
        ) by {
            if i > 0 {
                assert(order[i] == later[i - 1]);
            }
        }
    }
}

/// What a walk has seen is walked or waits, and what has been walked has had
/// its calls seen.
spec fn keeps_up(
    program: Program,
    seen: Seq<bool>,
    queue: Seq<FunctionId>,
    done: Seq<FunctionId>,
) -> bool {
    &&& seen.len() == program.functions@.len()
    &&& forall|i: int|
        0 <= i < seen.len() && #[trigger] seen[i] ==> done.contains(FunctionId(i as u32))
            || queue.contains(FunctionId(i as u32))
    &&& forall|i: int, j: int|
        0 <= i < done.len() && 0 <= j < calls_of(program.func(done[i])).len() ==> seen[(
        #[trigger] calls_of(program.func(#[trigger] done[i]))[j]).0 as int]
    &&& forall|i: int| 0 <= i < done.len() ==> program.has_function(#[trigger] done[i])
    &&& forall|i: int| 0 <= i < queue.len() ==> program.has_function(#[trigger] queue[i])
}

/// Everything seen along the way is in the end walked.
proof fn lemma_walk_keeps_up(
    program: Program,
    seen: Seq<bool>,
    queue: Seq<FunctionId>,
    done: Seq<FunctionId>,
)
    requires
        crate::frame::validity::valid(program),
        keeps_up(program, seen, queue, done),
    ensures
        exists|last: Seq<bool>| #[trigger]
            keeps_up(
                program,
                last,
                Seq::empty(),
                done + walk_order(program, seen, queue),
            ) && forall|i: int| 0 <= i < seen.len() && seen[i] ==> #[trigger] last[i],
    decreases unseen(seen) + queue.len(), queue.len(),
{
    if queue.len() == 0 {
        assert(done + walk_order(program, seen, queue) =~= done);
        assert(queue =~= Seq::<FunctionId>::empty());
    } else {
        let id = queue.last();
        let calls = calls_of(program.func(id));
        let rest = queue.drop_last();
        let (s, q) = awaited(seen, rest, calls);
        lemma_awaited(seen, rest, calls);
        assert(queue[queue.len() - 1] == id);
        assert(program.has_function(id));
        assert(crate::frame::validity::well_named(program, program.functions@[id.0 as int]));
        lemma_calls_exist(program, program.func(id), program.func(id).code@.len() as int);
        let more = done.push(id);
        assert forall|i: int| 0 <= i < s.len() && #[trigger] s[i] implies more.contains(
            FunctionId(i as u32),
        ) || q.contains(FunctionId(i as u32)) by {
            let at = FunctionId(i as u32);
            if seen[i] {
                if done.contains(at) {
                    let k = choose|k: int| 0 <= k < done.len() && done[k] == at;
                    assert(more[k] == at);
                } else {
                    let k = choose|k: int| 0 <= k < queue.len() && queue[k] == at;
                    if k == queue.len() - 1 {
                        assert(more[done.len() as int] == at);
                    } else {
                        assert(q[k] == at);
                    }
                }
            } else {
                let k = choose|k: int| rest.len() <= k < q.len() && (#[trigger] q[k]).0 == i;
                assert(q[k] == at);
            }
        }
        assert forall|i: int, j: int|
            0 <= i < more.len() && 0 <= j < calls_of(program.func(more[i])).len() implies s[(
        #[trigger] calls_of(program.func(#[trigger] more[i]))[j]).0 as int] by {
            if i < done.len() {
                assert(more[i] == done[i]);
                assert(seen[(calls_of(program.func(done[i]))[j]).0 as int]);
                assert(crate::frame::validity::well_named(
                    program,
                    program.functions@[done[i].0 as int],
                ));
                lemma_calls_exist(
                    program,
                    program.func(done[i]),
                    program.func(done[i]).code@.len() as int,
                );
            } else {
                assert(more[i] == id);
                assert(calls[j].0 == calls[j].0);
            }
        }
        assert forall|i: int| 0 <= i < more.len() implies program.has_function(
            #[trigger] more[i],
        ) by {
            if i < done.len() {
                assert(more[i] == done[i]);
            }
        }
        assert forall|i: int| 0 <= i < q.len() implies program.has_function(#[trigger] q[i]) by {
            if i < rest.len() {
                assert(q[i] == queue[i]);
            } else {
                let j = choose|j: int| 0 <= j < calls.len() && #[trigger] calls[j] == q[i];
                assert(program.has_function(calls[j]));
            }
        }
        lemma_walk_keeps_up(program, s, q, more);
        assert(more + walk_order(program, s, q) =~= done + walk_order(program, seen, queue));
        let last = choose|last: Seq<bool>| #[trigger]
            keeps_up(program, last, Seq::empty(), more + walk_order(program, s, q)) && forall|
                i: int,
            |
                0 <= i < s.len() && s[i] ==> #[trigger] last[i];
        assert(keeps_up(
            program,
            last,
            Seq::empty(),
            done + walk_order(program, seen, queue),
        ));
        assert forall|i: int| 0 <= i < seen.len() && seen[i] implies #[trigger] last[i] by {
            assert(s[i]);
        }
    }
}

/// Along a chain that begins where everything is kept up, everything is
/// walked.
proof fn lemma_chain_is_walked(
    program: Program,
    seen: Seq<bool>,
    done: Seq<FunctionId>,
    chain: Seq<FunctionId>,
)
    requires
        crate::frame::validity::valid(program),
        keeps_up(program, seen, Seq::empty(), done),
        call_chain(program, chain),
        done.contains(chain[0]),
    ensures
        done.contains(chain.last()),
    decreases chain.len(),
{
    if chain.len() > 1 {
        let shorter = chain.drop_last();
        assert forall|i: int| 0 <= i < shorter.len() - 1 implies calls_of(
            program.func(#[trigger] shorter[i]),
        ).contains(shorter[i + 1]) by {
            assert(chain[i] == shorter[i] && chain[i + 1] == shorter[i + 1]);
        }
        lemma_chain_is_walked(program, seen, done, shorter);
        let a = shorter.last();
        let b = chain.last();
        assert(chain[chain.len() - 2] == a);
        assert(calls_of(program.func(a)).contains(b));
        let i = choose|i: int| 0 <= i < done.len() && done[i] == a;
        let j = choose|j: int| 0 <= j < calls_of(program.func(a)).len() && calls_of(
            program.func(a),
        )[j] == b;
        assert(calls_of(program.func(done[i]))[j] == b);
        assert(crate::frame::validity::well_named(program, program.functions@[a.0 as int])) by {
            assert(program.has_function(done[i]));
        }
        lemma_calls_exist(program, program.func(a), program.func(a).code@.len() as int);
        assert(seen[b.0 as int]);
        assert(FunctionId(b.0 as int as u32) == b);
    }
}

/// A walk from an entry walks exactly what a run from it can enter.
pub proof fn a_walk_is_what_a_run_can_enter(program: Program, entry: FunctionId, id: FunctionId)
    requires
        crate::frame::validity::valid(program),
        program.has_function(entry),
    ensures
        walked(program, entry).contains(id) <==> reaches(program, entry, id),
{
    let seen = Seq::new(program.functions@.len(), |i: int| i == entry.0);
    let queue = seq![entry];
    assert(call_chain(program, queue));
    assert(queue[0] == entry && queue.last() == entry);
    assert(reaches(program, entry, entry));
    lemma_walk_is_sound(program, entry, seen, queue);
    let order = walked(program, entry);
    if order.contains(id) {
        let i = choose|i: int| 0 <= i < order.len() && order[i] == id;
        assert(reaches(program, entry, order[i]));
    }
    if reaches(program, entry, id) {
        assert forall|i: int| 0 <= i < seen.len() && #[trigger] seen[i] implies Seq::<
            FunctionId,
        >::empty().contains(FunctionId(i as u32)) || queue.contains(FunctionId(i as u32)) by {
            assert(queue[0] == FunctionId(i as u32));
        }
        assert(keeps_up(program, seen, queue, Seq::empty()));
        lemma_walk_keeps_up(program, seen, queue, Seq::empty());
        assert(Seq::<FunctionId>::empty() + order =~= order);
        let last = choose|last: Seq<bool>| #[trigger]
            keeps_up(program, last, Seq::empty(), Seq::<FunctionId>::empty() + order) && forall|
                i: int,
            |
                0 <= i < seen.len() && seen[i] ==> #[trigger] last[i];
        assert(seen[entry.0 as int]);
        assert(last[entry.0 as int]);
        assert(FunctionId(entry.0 as int as u32) == entry);
        assert(order.contains(entry));
        let chain = choose|chain: Seq<FunctionId>| #[trigger]
            call_chain(program, chain) && chain[0] == entry && chain.last() == id;
        lemma_chain_is_walked(program, last, order, chain);
    }
}

/// Nothing is refused along an order where no function of it is refused
/// anything.
proof fn lemma_nothing_refused(program: Program, order: Seq<FunctionId>)
    ensures
        refusals_along(program, order).len() == 0 <==> forall|i: int|
            0 <= i < order.len() ==> refusals_in(program, program.func(#[trigger] order[i])).len()
                == 0,
    decreases order.len(),
{
    if order.len() > 0 {
        let fewer = order.drop_last();
        lemma_nothing_refused(program, fewer);
        if refusals_along(program, order).len() == 0 {
            assert forall|i: int| 0 <= i < order.len() implies refusals_in(
                program,
                program.func(#[trigger] order[i]),
            ).len() == 0 by {
                if i < fewer.len() {
                    assert(fewer[i] == order[i]);
                }
            }
        }
        if forall|i: int|
            0 <= i < order.len() ==> refusals_in(program, program.func(#[trigger] order[i])).len()
                == 0 {
            assert forall|i: int| 0 <= i < fewer.len() implies refusals_in(
                program,
                program.func(#[trigger] fewer[i]),
            ).len() == 0 by {
                assert(fewer[i] == order[i]);
            }
            assert(order[order.len() - 1] == order.last());
        }
    }
}

/// An entry is refused nothing exactly where no function a run from it can
/// enter is refused anything.
pub proof fn admission_speaks_for_every_function_reached(program: Program, entry: FunctionId)
    requires
        crate::frame::validity::valid(program),
        program.has_function(entry),
    ensures
        refusals_from(program, entry).len() == 0 <==> forall|id: FunctionId| #[trigger]
            reaches(program, entry, id) ==> refusals_in(program, program.func(id)).len() == 0,
{
    let order = walked(program, entry);
    lemma_nothing_refused(program, order);
    if refusals_from(program, entry).len() == 0 {
        assert forall|id: FunctionId| #[trigger] reaches(program, entry, id) implies refusals_in(
            program,
            program.func(id),
        ).len() == 0 by {
            a_walk_is_what_a_run_can_enter(program, entry, id);
            let i = choose|i: int| 0 <= i < order.len() && order[i] == id;
            assert(order[i] == id);
        }
    }
    if forall|id: FunctionId| #[trigger]
        reaches(program, entry, id) ==> refusals_in(program, program.func(id)).len() == 0 {
        assert forall|i: int| 0 <= i < order.len() implies refusals_in(
            program,
            program.func(#[trigger] order[i]),
        ).len() == 0 by {
            a_walk_is_what_a_run_can_enter(program, entry, order[i]);
            assert(order.contains(order[i]));
        }
    }
}

/// The refusal of an entry that is not declared.
pub open spec fn undeclared(module: Seq<char>, name: Seq<char>) -> Refusal {
    Refusal {
        what: "`"@ + module + "."@ + name + "`, which this package does not declare"@,
        span: None,
    }
}

/// Adds the calls that have not been seen to those that wait.
fn await_calls(seen: &mut Vec<bool>, queue: &mut Vec<FunctionId>, calls: &Vec<FunctionId>)
    requires
        forall|i: int| 0 <= i < calls@.len() ==> (#[trigger] calls@[i]).0 < old(seen)@.len(),
    ensures
        (final(seen)@, final(queue)@) == awaited(old(seen)@, old(queue)@, calls@),
{
    let mut i: usize = 0;
    while i < calls.len()
        invariant
            i <= calls@.len(),
            seen@.len() == old(seen)@.len(),
            forall|i: int| 0 <= i < calls@.len() ==> (#[trigger] calls@[i]).0 < seen@.len(),
            (seen@, queue@) == awaited(old(seen)@, old(queue)@, calls@.take(i as int)),
        decreases calls@.len() - i,
    {
        let id: FunctionId = calls[i];
        proof {
            assert(calls@.take(i + 1).drop_last() =~= calls@.take(i as int));
            assert(calls@.take(i + 1).last() == id);
        }
        if !seen[id.0 as usize] {
            seen.set(id.0 as usize, true);
            queue.push(id);
        }
        i = i + 1;
    }
    proof {
        assert(calls@.take(i as int) =~= calls@);
    }
}

/// The refusal of an entry that is not declared.
fn refuse_undeclared(module: &str, name: &str) -> (refused: Refused)
    ensures
        refused@ == undeclared(module@, name@),
{
    let mut what: String = "`".to_owned();
    what.append(module);
    what.append(".");
    what.append(name);
    what.append("`, which this package does not declare");
    Refused::nowhere(what)
}

/// `id` is the first function declared as `module.name`.
pub open spec fn entry_is(program: Program, module: Seq<char>, name: Seq<char>, id: FunctionId) -> bool {
    &&& program.declares(module, name, id.0 as int)
    &&& forall|j: int| 0 <= j < id.0 ==> !program.declares(module, name, j)
}

/// No function is declared as `module.name`.
pub open spec fn declares_nothing(program: Program, module: Seq<char>, name: Seq<char>) -> bool {
    forall|j: int| !program.declares(module, name, j)
}

proof fn lemma_refusals_join(program: Program, a: Seq<FunctionId>, b: Seq<FunctionId>)
    ensures
        refusals_along(program, a + b) == refusals_along(program, a) + refusals_along(program, b),
    decreases b.len(),
{
    if b.len() == 0 {
        assert(a + b =~= a);
        assert(refusals_along(program, a) + refusals_along(program, b) =~= refusals_along(
            program,
            a,
        ));
    } else {
        assert((a + b).drop_last() =~= a + b.drop_last());
        lemma_refusals_join(program, a, b.drop_last());
        assert(refusals_along(program, a + b) =~= refusals_along(program, a) + refusals_along(
            program,
            b,
        ));
    }
}

/// Walks everything reachable from an entry into a sink.
fn walk_from(program: &Program, entry: FunctionId, sink: &mut Sink) -> (result: Result<(), Refused>)
    requires
        crate::frame::validity::valid(*program),
        program.has_function(entry),
    ensures
        sunk(
            *old(sink),
            *final(sink),
            refusals_from(*program, entry),
            match result {
                Ok(_) => None,
                Err(refused) => Some(refused@),
            },
        ),
{
    proof {
        assert forall|f: int, pc: int|
            0 <= f < program.functions@.len() && 0 <= pc
                < program.functions@[f].code@.len() implies crate::ir::names_what_exists(
            *program,
            #[trigger] program.functions@[f].code@[pc],
        ) by {
            assert(crate::frame::validity::well_named(*program, program.functions@[f]));
        }
    }
    let structs = crate::frame::layout::struct_parts(program);
    let fields = crate::frame::layout::field_positions(program);
    let mut seen: Vec<bool> = Vec::new();
    while seen.len() < program.functions.len()
        invariant
            seen@.len() <= program.functions@.len() <= u32::MAX,
            seen@ == Seq::new(seen@.len(), |i: int| i == entry.0),
        decreases program.functions@.len() - seen@.len(),
    {
        let at: u32 = seen.len() as u32;
        seen.push(at == entry.0);
        proof {
            assert(seen@ =~= Seq::new(seen@.len(), |i: int| i == entry.0));
        }
    }
    let mut queue: Vec<FunctionId> = Vec::new();
    queue.push(entry);
    let ghost mut done: Seq<FunctionId> = Seq::empty();
    let ghost all = walked(*program, entry);
    proof {
        assert(queue@ =~= seq![entry]);
        assert(done + walk_order(*program, seen@, queue@) =~= all);
        assert(sink.gathered() + Seq::<Refusal>::empty() =~= sink.gathered());
    }
    while queue.len() > 0
        invariant
            crate::frame::validity::valid(*program),
            structs@.len() == program.structs@.len(),
            forall|i: int|
                0 <= i < structs@.len() ==> (#[trigger] structs@[i])@
                    == crate::frame::layout::parts_of(program.structs@[i]),
            crate::frame::layout::positions_are(*program, fields@),
            seen@.len() == program.functions@.len(),
            forall|i: int| 0 <= i < queue@.len() ==> program.has_function(#[trigger] queue@[i]),
            all == walked(*program, entry),
            all == done + walk_order(*program, seen@, queue@),
            sunk(*old(sink), *sink, refusals_along(*program, done), None),
        decreases unseen(seen@) + queue@.len(), queue@.len(),
    {
        let last: usize = queue.len() - 1;
        let id: FunctionId = queue[last];
        let ghost before = queue@;
        let ghost was_seen = seen@;
        queue.truncate(last);
        proof {
            assert(queue@ =~= before.drop_last());
            assert(program.has_function(id));
        }
        let ghost middle = *sink;
        let ghost here = refusals_in(*program, program.func(id));
        match walk_function(program, id, &structs, &fields, sink) {
            Ok(calls) => {
                proof {
                    lemma_awaited(was_seen, queue@, calls@);
                    lemma_sunk_in_turn(
                        *old(sink),
                        middle,
                        *sink,
                        refusals_along(*program, done),
                        here,
                        None,
                    );
                    assert(done.push(id).drop_last() =~= done);
                }
                let ghost rest = queue@;
                await_calls(&mut seen, &mut queue, &calls);
                proof {
                    let later = walk_order(*program, seen@, queue@);
                    assert(walk_order(*program, was_seen, before) == seq![id] + later);
                    assert(done + (seq![id] + later) =~= done.push(id) + later);
                    done = done.push(id);
                    assert forall|i: int| 0 <= i < queue@.len() implies program.has_function(
                        #[trigger] queue@[i],
                    ) by {
                        if i < rest.len() {
                            assert(queue@[i] == before[i]);
                        } else {
                            let j = choose|j: int|
                                0 <= j < calls@.len() && #[trigger] calls@[j] == queue@[i];
                            assert(program.has_function(calls@[j]));
                        }
                    }
                }
            },
            Err(first) => {
                proof {
                    let (s, q) = awaited(was_seen, queue@, calls_of(program.func(id)));
                    let later = walk_order(*program, s, q);
                    assert(walk_order(*program, was_seen, before) == seq![id] + later);
                    assert(all =~= done.push(id) + later);
                    lemma_refusals_join(*program, done.push(id), later);
                    assert(done.push(id).drop_last() =~= done);
                    lemma_sunk_in_turn(
                        *old(sink),
                        middle,
                        *sink,
                        refusals_along(*program, done),
                        here,
                        Some(first@),
                    );
                    lemma_sunk_early(
                        *old(sink),
                        *sink,
                        refusals_along(*program, done) + here,
                        refusals_along(*program, later),
                        first@,
                    );
                }
                return Err(first);
            },
        }
    }
    proof {
        assert(done + walk_order(*program, seen@, queue@) =~= done);
    }
    Ok(())
}

/// Whether `module.name` and everything it reaches can be run, and the
/// entry's id when it can.
///
/// The answer is asked for before any side effect and is final.
pub fn admits(program: &Program, module: &str, name: &str) -> (result: Result<FunctionId, Refused>)
    requires
        crate::frame::validity::valid(*program),
    ensures
        match result {
            Ok(entry) => entry_is(*program, module@, name@, entry) && refusals_from(
                *program,
                entry,
            ).len() == 0,
            Err(refused) => {
                ||| declares_nothing(*program, module@, name@) && refused@ == undeclared(
                    module@,
                    name@,
                )
                ||| exists|entry: FunctionId| #[trigger]
                    entry_is(*program, module@, name@, entry) && refusals_from(
                        *program,
                        entry,
                    ).len() > 0 && refused@ == refusals_from(*program, entry)[0]
            },
        },
{
    match program.function_named(module, name) {
        None => Err(refuse_undeclared(module, name)),
        Some(entry) => {
            proof {
                assert(entry_is(*program, module@, name@, entry));
            }
            let mut sink = Sink::StopAtFirst;
            match walk_from(program, entry, &mut sink) {
                Ok(_) => Ok(entry),
                Err(refused) => Err(refused),
            }
        },
    }
}

/// The refusals of `module.name`: that nothing is so declared, or every one a
/// walk from it finds.
pub open spec fn are_the_refusals(
    program: Program,
    module: Seq<char>,
    name: Seq<char>,
    found: Seq<Refusal>,
) -> bool {
    ||| declares_nothing(program, module, name) && found == seq![undeclared(module, name)]
    ||| exists|entry: FunctionId| #[trigger]
        entry_is(program, module, name, entry) && found == refusals_from(program, entry)
}

/// Every refusal a walk from `module.name` would ever raise, gathered rather
/// than stopped at the first.
pub fn refusals(program: &Program, module: &str, name: &str) -> (found: Vec<Refused>)
    requires
        crate::frame::validity::valid(*program),
    ensures
        are_the_refusals(*program, module@, name@, listed(found@)),
{
    match program.function_named(module, name) {
        None => {
            let mut found: Vec<Refused> = Vec::new();
            found.push(refuse_undeclared(module, name));
            proof {
                assert(listed(found@) =~= seq![undeclared(module@, name@)]);
            }
            found
        },
        Some(entry) => {
            proof {
                assert(entry_is(*program, module@, name@, entry));
            }
            let mut sink = Sink::Accumulate(Vec::new());
            proof {
                assert(sink.gathered() + refusals_from(*program, entry) =~= refusals_from(
                    *program,
                    entry,
                ));
            }
            let _done = walk_from(program, entry, &mut sink);
            match sink {
                Sink::Accumulate(found) => found,
                Sink::StopAtFirst => Vec::new(),
            }
        },
    }
}

} // verus!
