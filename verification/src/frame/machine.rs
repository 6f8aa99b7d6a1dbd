//! What a run on the eight-byte frame does, one instruction at a time.
//!
//! The run is described as though no object were ever freed: a collection is
//! nothing a program can see.
use crate::budget::{Budget, Stopped};
use crate::error::{Failure, Span};
use crate::frame::kinds::{Kind, Part};
use crate::frame::layout::Site;
use crate::ir::{BinaryOp, Const, ConstId, Function, FunctionId, Inst, IntOp, Program, Scalar, SlotKind, StructType};
use crate::schema::HostType;
use crate::slot::{Form, Object, Plan};
use crate::value::Datum;
use vstd::prelude::*;

verus! {

/// The fuel one instruction costs.
pub const INSTRUCTION_FUEL: u64 = 1;

/// The fuel that gathers before a safepoint is taken at a back edge.
pub const BACK_EDGE_FUEL: u64 = 64;

/// The fuel that gathers before a safepoint is taken anywhere.
pub const SAFEPOINT_INTERVAL: u64 = 1024;

/// How deep calls may go, whatever the budget says.
pub const MAX_CALL_DEPTH: usize = 256;

/// One standing call: what is running, where its caller resumes, and where its
/// words begin.
#[derive(Clone, Copy, Debug, PartialEq, Eq, Structural)]
pub struct Call {
    pub function: FunctionId,
    pub return_pc: usize,
    pub base: usize,
}

/// What a run waits for.
#[derive(Clone, Copy, Debug, PartialEq, Eq, Structural)]
pub enum Pending {
    Nothing,
    Host,
    Builtin,
}

/// The whole state of a run.
pub ghost struct Machine {
    /// The one stack.
    pub words: Seq<u64>,
    /// Which of its words are handles.
    pub refs: Seq<bool>,
    /// Every object that was ever made.
    pub objects: Map<u64, Object>,
    /// The handle the next one gets.
    pub next: int,
    pub frames: Seq<Call>,
    pub pc: int,
    /// The values that stand outside the stack.
    pub boundary: Seq<Datum>,
    /// The fuel charged and not yet handed to the budget.
    pub fuel: int,
    pub instructions: int,
    pub materialized: int,
    pub allocated_objects: int,
    pub allocated_bytes: int,
    pub high_water: int,
    /// How many safepoints were passed.
    pub safepoints: int,
    pub budget: Option<Budget>,
    pub pending: Pending,
    pub assertion_failure: Option<(Span, Seq<char>)>,
}

/// What comes of a step.
pub ghost enum Outcome {
    /// The run goes on.
    Next(Machine),
    /// The entry answered.
    Answered(Machine, Datum),
    /// The run ends in an error.
    Raised(Machine, Failure),
    /// The run waits for a host to answer.
    Host(Machine, Seq<char>, Seq<char>, Seq<Datum>, Span),
    /// The run waits for a builtin to answer.
    Builtin(Machine, Seq<char>, Seq<Datum>, Span),
    /// The instruction asks for what is not there, which no program that was
    /// lowered soundly does.
    Stuck,
}

// ---------------------------------------------------------------- layouts

/// Which of some parts are handles.
pub open spec fn nested(parts: Seq<Part>) -> Seq<bool> {
    Seq::new(parts.len(), |i: int| parts[i] == Part::Nested)
}

/// What an object of a declared struct is.
pub open spec fn struct_plan(declared: StructType) -> Plan {
    Plan {
        name: declared.name@,
        refs: nested(crate::frame::layout::parts_of(declared)),
        form: Form::Opaque,
        case: None,
    }
}

/// What a text is as an object.
pub open spec fn text_plan() -> Plan {
    Plan { name: "String"@, refs: Seq::empty(), form: Form::Text, case: None }
}

/// What an error is as an object.
pub open spec fn error_plan() -> Plan {
    Plan {
        name: "Error"@,
        refs: seq![true],
        form: Form::Record { kind_name: "Error"@, fields: seq![("message"@, Part::Nested)] },
        case: None,
    }
}

/// What a case is as an object. Only a builtin's crosses to a value.
pub open spec fn site_plan(site: Site) -> Plan {
    Plan {
        name: site.kind_name + "."@ + site.case,
        refs: nested(site.payload),
        form: if crate::frame::layout::names_builtin_case(site.kind_name, site.case) {
            Form::Case { kind_name: site.kind_name, case: site.case, payload: site.payload }
        } else {
            Form::Opaque
        },
        case: Some((site.kind_name, site.case)),
    }
}

// ----------------------------------------------------------------- values

/// The text a float constant shows as.
pub open spec fn float_shown(constants: Seq<Const>, bits: u64) -> Option<Seq<char>>
    decreases constants.len(),
{
    if constants.len() == 0 {
        None
    } else {
        match constants[0] {
            Const::Float { bits: b, shown } => if b == bits {
                Some(shown@)
            } else {
                float_shown(constants.skip(1), bits)
            },
            _ => float_shown(constants.skip(1), bits),
        }
    }
}

/// The value a word that is no handle stands for.
pub open spec fn scalar_datum(program: Program, part: Part, word: u64) -> Option<Datum> {
    match part {
        Part::Unit => Some(Datum::Unit),
        Part::Int => Some(Datum::Int(crate::frame::word::word_int(word))),
        Part::Bool => if word <= 1 {
            Some(Datum::Bool(word == 1))
        } else {
            None
        },
        Part::Float => match float_shown(program.constants@, word) {
            Some(text) => Some(Datum::Float(word, text)),
            None => None,
        },
        Part::Nested => None,
    }
}

/// The words of an object are a text, packed.
pub open spec fn packs_text(words: Seq<u64>) -> bool {
    words.len() >= 1 && words.len() == 1 + crate::frame::packing::chunks(words[0] as int)
}

/// The bytes of the text a handle names.
pub open spec fn bytes_at(objects: Map<u64, Object>, handle: u64) -> Option<Seq<u8>> {
    if objects.dom().contains(handle) && objects[handle].plan.form is Text && packs_text(
        objects[handle].words,
    ) {
        Some(crate::frame::packing::unpacked(objects[handle].words))
    } else {
        None
    }
}

/// The value a handle names, where the object it names crosses to one.
pub open spec fn datum_at(program: Program, objects: Map<u64, Object>, handle: u64) -> Option<
    Datum,
>
    decreases handle, 1int, 0int,
{
    if !objects.dom().contains(handle) {
        None
    } else {
        match objects[handle].plan.form {
            Form::Opaque => None,
            Form::Text => match bytes_at(objects, handle) {
                Some(bytes) => if vstd::utf8::valid_utf8(bytes) {
                    Some(Datum::Str(vstd::utf8::decode_utf8(bytes)))
                } else {
                    None
                },
                None => None,
            },
            Form::Case { kind_name, case, payload } => match parts_at(
                program,
                objects,
                handle,
                payload,
                payload.len() as int,
            ) {
                Some(data) => Some(Datum::Enum(kind_name, case, data)),
                None => None,
            },
            Form::Record { kind_name, fields } => match parts_at(
                program,
                objects,
                handle,
                Seq::new(fields.len(), |i: int| fields[i].1),
                fields.len() as int,
            ) {
                Some(data) => Some(
                    Datum::Struct(
                        kind_name,
                        Seq::new(fields.len(), |i: int| (fields[i].0, data[i])),
                    ),
                ),
                None => None,
            },
        }
    }
}

/// The value of one word of an object.
pub open spec fn part_at(
    program: Program,
    objects: Map<u64, Object>,
    handle: u64,
    at: int,
    part: Part,
) -> Option<Datum>
    decreases handle, 0int, at,
{
    let object = objects[handle];
    if !(0 <= at < object.words.len()) {
        None
    } else if part == Part::Nested {
        // An object is made after everything it names.
        if object.is_ref(at) && object.words[at] < handle {
            datum_at(program, objects, object.words[at])
        } else {
            None
        }
    } else {
        scalar_datum(program, part, object.words[at])
    }
}

/// The values of the first `count` words of an object.
pub open spec fn parts_at(
    program: Program,
    objects: Map<u64, Object>,
    handle: u64,
    parts: Seq<Part>,
    count: int,
) -> Option<Seq<Datum>>
    decreases handle, 0int, count,
{
    if count <= 0 {
        Some(Seq::empty())
    } else {
        match (
            parts_at(program, objects, handle, parts, count - 1),
            part_at(program, objects, handle, count - 1, parts[count - 1]),
        ) {
            (Some(before), Some(last)) => Some(before.push(last)),
            _ => None,
        }
    }
}

/// The value a word of a known kind becomes outside the stack.
pub open spec fn crossed(
    program: Program,
    objects: Map<u64, Object>,
    kind: Kind,
    word: u64,
    is_ref: bool,
) -> Option<Datum> {
    match kind {
        Kind::Unit => scalar_datum(program, Part::Unit, word),
        Kind::Bool => scalar_datum(program, Part::Bool, word),
        Kind::Int => scalar_datum(program, Part::Int, word),
        Kind::Float => scalar_datum(program, Part::Float, word),
        Kind::Reference => None,
        Kind::Str => if is_ref && objects.dom().contains(word) && objects[word].plan.form is Text {
            datum_at(program, objects, word)
        } else {
            None
        },
        Kind::Enum => if is_ref && objects.dom().contains(word) && (objects[word].plan.form is Case
            || objects[word].plan.form is Record) {
            datum_at(program, objects, word)
        } else {
            None
        },
    }
}

// ------------------------------------------------------------- the machine

/// The greater of two.
pub open spec fn most(a: int, b: int) -> int {
    if a >= b {
        a
    } else {
        b
    }
}

impl Machine {
    pub open spec fn push(self, word: u64, is_ref: bool) -> Machine {
        Machine {
            words: self.words.push(word),
            refs: self.refs.push(is_ref),
            high_water: most(self.high_water, (self.words.len() + 1) as int),
            ..self
        }
    }

    /// The stack without its top `count` words.
    pub open spec fn dropped(self, count: int) -> Machine {
        Machine {
            words: self.words.take(self.words.len() - count),
            refs: self.refs.take(self.refs.len() - count),
            ..self
        }
    }

    pub open spec fn top(self) -> u64 {
        self.words[self.words.len() - 1]
    }

    /// The top word is a handle.
    pub open spec fn top_ref(self) -> bool {
        self.refs[self.refs.len() - 1]
    }

    pub open spec fn goes_to(self, pc: int) -> Machine {
        Machine { pc, ..self }
    }

    pub open spec fn advanced(self) -> Machine {
        Machine { pc: self.pc + 1, ..self }
    }

    pub open spec fn fuelled(self, fuel: int) -> Machine {
        Machine { fuel: crate::budget::tallied(self.fuel, fuel), ..self }
    }

    pub open spec fn materializing(self, count: int) -> Machine {
        Machine { materialized: crate::budget::tallied(self.materialized, count), ..self }
    }

    /// An object made, under the next handle.
    pub open spec fn making(self, plan: Plan, words: Seq<u64>) -> Machine {
        Machine {
            objects: self.objects.insert(self.next as u64, Object { plan, words }),
            next: self.next + 1,
            allocated_objects: crate::budget::tallied(self.allocated_objects, 1),
            allocated_bytes: crate::budget::tallied(self.allocated_bytes, (8 * words.len()) as int),
            ..self
        }
    }

    /// A handle is left to give out.
    pub open spec fn can_make(self) -> bool {
        self.next < u64::MAX
    }

    /// The words on top are what a plan says, handle for handle.
    pub open spec fn matches_plan(self, refs: Seq<bool>) -> bool {
        refs.len() <= self.words.len() && forall|i: int|
            0 <= i < refs.len() ==> #[trigger] refs[i] == self.refs[self.refs.len() - refs.len()
                + i]
    }
}

/// The fuel charged handed to the budget, which may stop the run; and a
/// safepoint passed, where it does not.
pub open spec fn safepoint(m: Machine, span: Span) -> Result<Machine, (Machine, Failure)> {
    match asked(m, span) {
        Ok(n) => Ok(Machine { safepoints: n.safepoints + 1, ..n }),
        Err(stopped) => Err(stopped),
    }
}

/// The fuel charged handed to the budget, which may stop the run.
pub open spec fn asked(m: Machine, span: Span) -> Result<Machine, (Machine, Failure)> {
    match m.budget {
        None => Ok(Machine { fuel: 0, ..m }),
        Some(budget) => {
            let spent = budget.having_spent(m.fuel);
            let after = Machine { fuel: 0, budget: Some(spent), ..m };
            match spent.stops() {
                Some(stopped) => Err((after, spent.told(stopped).placed(span))),
                None => Ok(after),
            }
        },
    }
}

/// A block's instructions charged, and a safepoint once enough has gathered.
pub open spec fn charge(m: Machine, block: int, span: Span) -> Result<Machine, (Machine, Failure)> {
    let charged = Machine {
        instructions: crate::budget::tallied(m.instructions, block),
        ..m.fuelled(block * INSTRUCTION_FUEL)
    };
    if charged.fuel >= SAFEPOINT_INTERVAL {
        safepoint(charged, span)
    } else {
        Ok(charged)
    }
}

/// A safepoint at a back edge, once enough has gathered.
pub open spec fn back_edge(m: Machine, span: Span) -> Result<Machine, (Machine, Failure)> {
    if m.fuel >= BACK_EDGE_FUEL {
        safepoint(m, span)
    } else {
        Ok(m)
    }
}

/// Control moved to `to` of the running function, and its block charged.
pub open spec fn jump(m: Machine, function: Function, to: int) -> Outcome {
    if !(0 <= to < function.code@.len()) {
        Outcome::Stuck
    } else {
        match if to <= m.pc {
            back_edge(m, function.spot(m.pc))
        } else {
            Ok(m)
        } {
            Err(stopped) => Outcome::Raised(stopped.0, stopped.1),
            Ok(n) => match charge(n, function.block_fuel@[to] as int, function.spot(to)) {
                Err(stopped) => Outcome::Raised(stopped.0, stopped.1),
                Ok(n) => Outcome::Next(n.goes_to(to)),
            },
        }
    }
}

/// A branch: the top word taken, and control moved where it says.
pub open spec fn branch(m: Machine, function: Function, to: int, when_zero: bool) -> Outcome {
    if m.words.len() == 0 {
        Outcome::Stuck
    } else {
        let taken = (m.top() == 0) == when_zero;
        let n = m.dropped(1);
        if taken {
            jump(n, function, to)
        } else if !(m.pc + 1 < function.code@.len()) {
            Outcome::Stuck
        } else {
            match charge(n, function.block_fuel@[m.pc + 1] as int, function.spot(m.pc + 1)) {
                Err(stopped) => Outcome::Raised(stopped.0, stopped.1),
                Ok(n) => Outcome::Next(n.advanced()),
            }
        }
    }
}

// -------------------------------------------------------------- arithmetic

pub open spec fn magnitude(n: int) -> nat {
    (if n < 0 {
        -n
    } else {
        n
    }) as nat
}

/// The quotient, towards zero.
pub open spec fn quotient(a: int, b: int) -> int {
    let q = (magnitude(a) / magnitude(b)) as int;
    if (a < 0) == (b < 0) {
        q
    } else {
        -q
    }
}

/// What the quotient leaves, with the sign of what is divided.
pub open spec fn remainder(a: int, b: int) -> int {
    let r = (magnitude(a) % magnitude(b)) as int;
    if a < 0 {
        -r
    } else {
        r
    }
}

/// The answer of an integer operator, or what it raises.
pub open spec fn int_binary(op: IntOp, a: int, b: int) -> Result<int, Seq<char>> {
    match op {
        IntOp::Add => fits(a + b, "integer overflow in addition"@),
        IntOp::Sub => fits(a - b, "integer overflow in subtraction"@),
        IntOp::Mul => fits(a * b, "integer overflow in multiplication"@),
        IntOp::Div => if b == 0 {
            Err("division by zero"@)
        } else {
            fits(quotient(a, b), "integer overflow in division"@)
        },
        IntOp::Rem => if b == 0 {
            Err("remainder by zero"@)
        } else if quotient(a, b) > i64::MAX {
            Err("integer overflow in remainder"@)
        } else {
            Ok(remainder(a, b))
        },
        IntOp::Eq => Ok(crate::frame::word::bool_word(a == b) as int),
        IntOp::Ne => Ok(crate::frame::word::bool_word(a != b) as int),
        IntOp::Lt => Ok(crate::frame::word::bool_word(a < b) as int),
        IntOp::Le => Ok(crate::frame::word::bool_word(a <= b) as int),
        IntOp::Gt => Ok(crate::frame::word::bool_word(a > b) as int),
        IntOp::Ge => Ok(crate::frame::word::bool_word(a >= b) as int),
    }
}

/// An integer, where it is one of the 2^64.
pub open spec fn fits(n: int, message: Seq<char>) -> Result<int, Seq<char>> {
    if i64::MIN <= n <= i64::MAX {
        Ok(n)
    } else {
        Err(message)
    }
}

/// How two runs of bytes are ordered: below zero, zero or above.
pub open spec fn byte_order(a: Seq<u8>, b: Seq<u8>) -> int
    decreases a.len(),
{
    if a.len() == 0 && b.len() == 0 {
        0
    } else if a.len() == 0 {
        -1
    } else if b.len() == 0 {
        1
    } else if a[0] < b[0] {
        -1
    } else if a[0] > b[0] {
        1
    } else {
        byte_order(a.skip(1), b.skip(1))
    }
}

/// What a comparison answers for an order.
pub open spec fn compared(op: BinaryOp, order: int) -> bool {
    match op {
        BinaryOp::Eq => order == 0,
        BinaryOp::Ne => order != 0,
        BinaryOp::Lt => order < 0,
        BinaryOp::Le => order <= 0,
        BinaryOp::Gt => order > 0,
        _ => order >= 0,
    }
}

// ------------------------------------------------------------ calls

/// Which words of a frame are handles.
pub open spec fn frame_refs(function: Function) -> Seq<bool> {
    Seq::new(function.slots@.len(), |i: int| function.slots@[i] is Value)
}

/// A frame opened over its arguments: the words it needs beyond them are zero,
/// and its slots alone say which are handles.
pub open spec fn opened(m: Machine, function: Function, argc: int) -> Machine {
    let base = m.words.len() - argc;
    let width = function.slots@.len();
    Machine {
        words: m.words + Seq::new((width - argc) as nat, |i: int| 0u64),
        refs: m.refs.take(base) + frame_refs(function),
        high_water: most(m.high_water, base + width),
        ..m
    }
}

/// The arguments on top can become a frame's first slots: no more of them than
/// slots, and a handle for each slot that holds one.
pub open spec fn fits_frame(m: Machine, function: Function, argc: int) -> bool {
    &&& 0 <= argc <= m.words.len()
    &&& argc <= function.slots@.len()
    &&& m.words.len() - argc + function.slots@.len() + 64 <= usize::MAX
    &&& forall|i: int|
        0 <= i < argc && #[trigger] function.slots@[i] is Value ==> m.refs[m.refs.len() - argc + i]
}

/// Too many calls stand for one more.
pub open spec fn too_deep(m: Machine, callee: Function, span: Span) -> Option<Failure> {
    if m.frames.len() >= MAX_CALL_DEPTH {
        Some(
            Failure {
                rule: Some("Recursion depth is a runtime control, not a proof obligation."@),
                ..crate::error::failure(
                    "call depth limit of "@ + crate::text::digits(MAX_CALL_DEPTH as nat)
                        + " reached while calling `"@ + callee.name@ + "`"@,
                )
            }.placed(span),
        )
    } else {
        match m.budget {
            Some(budget) => match budget.limits.max_call_depth {
                Some(limit) => if m.frames.len() + 1 > limit {
                    Some(budget.told(Stopped::CallDepth).placed(span))
                } else {
                    None
                },
                None => None,
            },
            None => None,
        }
    }
}

/// A call: the depth asked about, a safepoint, the callee's first block
/// charged, and its frame opened over the arguments.
pub open spec fn call(
    program: Program,
    m: Machine,
    function: Function,
    target: FunctionId,
    argc: int,
) -> Outcome {
    let span = function.spot(m.pc);
    let callee = program.func(target);
    match too_deep(m, callee, span) {
        Some(failure) => Outcome::Raised(m, failure),
        None => match safepoint(m, span) {
            Err(stopped) => Outcome::Raised(stopped.0, stopped.1),
            Ok(n) => if callee.code@.len() == 0 {
                Outcome::Stuck
            } else {
                match charge(n, callee.block_fuel@[0] as int, callee.spot(0)) {
                    Err(stopped) => Outcome::Raised(stopped.0, stopped.1),
                    Ok(n) => if !fits_frame(n, callee, argc) {
                        Outcome::Stuck
                    } else {
                        let entered = opened(n, callee, argc);
                        Outcome::Next(
                            Machine {
                                frames: n.frames.push(
                                    Call {
                                        function: target,
                                        return_pc: (m.pc + 1) as usize,
                                        base: (n.words.len() - argc) as usize,
                                    },
                                ),
                                pc: 0,
                                ..entered
                            },
                        )
                    },
                }
            },
        },
    }
}

/// The frame on top closed: its words gone, and the caller's block charged
/// where it resumes.
pub open spec fn resumed(program: Program, m: Machine, done: Call) -> Outcome {
    let caller = program.func(m.frames.last().function);
    let pc = done.return_pc as int;
    if !(pc < caller.code@.len()) {
        Outcome::Stuck
    } else {
        match charge(m.goes_to(pc), caller.block_fuel@[pc] as int, caller.spot(pc)) {
            Err(stopped) => Outcome::Raised(stopped.0, stopped.1),
            Ok(n) => Outcome::Next(n),
        }
    }
}

/// The stack cut back to where the frame on top begins, and the frame gone.
pub open spec fn closed(m: Machine) -> Machine {
    let base = m.frames.last().base as int;
    Machine {
        words: m.words.take(base),
        refs: m.refs.take(base),
        frames: m.frames.drop_last(),
        ..m
    }
}

/// A return of one scalar word.
pub open spec fn return_scalar(program: Program, m: Machine, function: Function) -> Outcome {
    match safepoint(m, function.spot(m.pc)) {
        Err(stopped) => Outcome::Raised(stopped.0, stopped.1),
        Ok(n) => if n.words.len() == 0 || n.frames.last().base > n.words.len() - 1 {
            Outcome::Stuck
        } else {
            let answer = n.top();
            let done = n.frames.last();
            let out = closed(n.dropped(1));
            if out.frames.len() > 0 {
                resumed(program, out.push(answer, false), done)
            } else {
                match program.func(done.function).returns {
                    SlotKind::Scalar(Scalar::Int) => Outcome::Answered(
                        out.materializing(1),
                        Datum::Int(crate::frame::word::word_int(answer)),
                    ),
                    SlotKind::Scalar(Scalar::Bool) => if answer <= 1 {
                        Outcome::Answered(out.materializing(1), Datum::Bool(answer == 1))
                    } else {
                        Outcome::Stuck
                    },
                    _ => Outcome::Stuck,
                }
            }
        },
    }
}

/// A frame left with a value for an answer.
pub open spec fn leave(program: Program, m: Machine, value: Datum) -> Outcome {
    if m.frames.last().base > m.words.len() {
        Outcome::Stuck
    } else {
        let done = m.frames.last();
        let out = closed(m);
        if out.frames.len() > 0 {
            resumed(program, Machine { boundary: out.boundary.push(value), ..out }, done)
        } else {
            Outcome::Answered(out, value)
        }
    }
}

// ------------------------------------------------------------ the boundary

/// What stands on the operand stack of a function.
pub open spec fn standing(program: Program, function: Function) -> crate::frame::admission::Standing {
    crate::frame::operands::operands_of(program, function)
}

/// The value an instruction takes from over the boundary: the top word where
/// it is a text or a case for certain, and the last value handed over
/// elsewhere.
pub open spec fn taken(program: Program, m: Machine, function: Function) -> Option<
    (Datum, Machine),
> {
    let at = standing(program, function);
    let text = crate::frame::admission::stands(at, m.pc, Kind::Str);
    if text || crate::frame::admission::stands(at, m.pc, Kind::Enum) {
        if m.words.len() == 0 {
            None
        } else {
            match crossed(
                program,
                m.objects,
                if text {
                    Kind::Str
                } else {
                    Kind::Enum
                },
                m.top(),
                m.top_ref(),
            ) {
                Some(datum) => Some((datum, m.dropped(1))),
                None => None,
            }
        }
    } else if m.boundary.len() == 0 {
        None
    } else {
        Some((m.boundary.last(), Machine { boundary: m.boundary.drop_last(), ..m }))
    }
}

/// The values some words become, the first `count` of them.
pub open spec fn all_crossed(
    program: Program,
    objects: Map<u64, Object>,
    kinds: Seq<Kind>,
    words: Seq<u64>,
    refs: Seq<bool>,
    count: int,
) -> Option<Seq<Datum>>
    decreases count,
{
    if count <= 0 {
        Some(Seq::empty())
    } else {
        match (
            all_crossed(program, objects, kinds, words, refs, count - 1),
            crossed(program, objects, kinds[count - 1], words[count - 1], refs[count - 1]),
        ) {
            (Some(before), Some(last)) => Some(before.push(last)),
            _ => None,
        }
    }
}

/// The values the top words become, and the stack without them.
pub open spec fn arguments(program: Program, m: Machine, kinds: Seq<Kind>) -> Option<
    (Seq<Datum>, Machine),
> {
    let argc = kinds.len();
    if argc > m.words.len() {
        None
    } else {
        match all_crossed(
            program,
            m.objects,
            kinds,
            m.words.skip(m.words.len() - argc),
            m.refs.skip(m.refs.len() - argc),
            argc as int,
        ) {
            Some(data) => Some((data, m.dropped(argc as int))),
            None => None,
        }
    }
}

/// The texts some values show as, in a row.
pub open spec fn all_shown(data: Seq<Datum>) -> Seq<char>
    decreases data.len(),
{
    if data.len() == 0 {
        Seq::empty()
    } else {
        all_shown(data.drop_last()) + crate::value::shown(data.last())
    }
}

/// What `?` makes of a value: what it opens, what it hands back, or nothing
/// where the value is neither a `Result` nor an `Option`.
pub open spec fn tried(value: Datum) -> Option<Result<Datum, Datum>> {
    match value {
        Datum::Enum(kind_name, case, payload) => if kind_name == "Result"@ && case == "Ok"@
            && payload.len() == 1 {
            Some(Ok(payload[0]))
        } else if kind_name == "Option"@ && case == "Some"@ && payload.len() == 1 {
            Some(Ok(payload[0]))
        } else if kind_name == "Result"@ && case == "Err"@ {
            Some(Err(value))
        } else if kind_name == "Option"@ && case == "None"@ {
            Some(Err(value))
        } else {
            None
        },
        _ => None,
    }
}

/// The message of an error value, and the empty text of any other.
pub open spec fn message_of(value: Datum) -> Datum {
    match value {
        Datum::Struct(kind_name, fields) => if kind_name == "Error"@ && fields.len() >= 1
            && fields[0].0 == "message"@ {
            fields[0].1
        } else {
            Datum::Str(Seq::empty())
        },
        _ => Datum::Str(Seq::empty()),
    }
}

/// A text made into an object.
pub open spec fn text_made(m: Machine, text: Seq<char>) -> Option<(u64, Machine)> {
    let bytes = vstd::utf8::encode_utf8(text);
    if m.can_make() {
        Some((m.next as u64, m.making(text_plan(), crate::frame::packing::packed(bytes))))
    } else {
        None
    }
}

/// An object of one plan made out of given words.
pub open spec fn made(m: Machine, plan: Plan, words: Seq<u64>) -> Option<(u64, Machine)> {
    if m.can_make() {
        Some((m.next as u64, m.making(plan, words)))
    } else {
        None
    }
}

/// The first value of a payload.
pub open spec fn first_of(payload: Seq<Datum>) -> Datum {
    if payload.len() > 0 {
        payload[0]
    } else {
        Datum::Unit
    }
}

/// A case of one payload word made, once the word has been.
pub open spec fn case_made(
    inner: Option<(u64, Machine)>,
    kind_name: Seq<char>,
    case: Seq<char>,
    ty: HostType,
) -> Option<(u64, Machine)> {
    match (inner, crate::frame::kinds::host_word(ty)) {
        (Some(pair), Some(part)) => made(
            pair.1,
            site_plan(Site { kind_name, case, payload: seq![part] }),
            seq![pair.0],
        ),
        _ => None,
    }
}

/// The word a host's answer of a declared type becomes, every object it needs
/// made on the way, the innermost first.
pub open spec fn worded(m: Machine, value: Datum, ty: HostType) -> Option<(u64, Machine)>
    decreases ty,
{
    match ty {
        HostType::Unit => Some((0, m)),
        HostType::Bool => match value {
            Datum::Bool(b) => Some((crate::frame::word::bool_word(b), m)),
            _ => None,
        },
        HostType::Int => match value {
            Datum::Int(n) => Some((crate::frame::word::int_word(n) as u64, m)),
            _ => None,
        },
        HostType::String => match value {
            Datum::Str(text) => text_made(m, text),
            _ => None,
        },
        HostType::Error => match message_of(value) {
            Datum::Str(text) => match text_made(m, text) {
                Some(pair) => made(pair.1, error_plan(), seq![pair.0]),
                None => None,
            },
            _ => None,
        },
        HostType::Option(inner) => match value {
            Datum::Enum(kind_name, case, payload) => if kind_name == "Option"@ && case == "Some"@ {
                case_made(worded(m, first_of(payload), *inner), "Option"@, "Some"@, *inner)
            } else {
                nothing_made(m)
            },
            _ => nothing_made(m),
        },
        HostType::Result(ok, err) => match value {
            Datum::Enum(kind_name, case, payload) => if kind_name == "Result"@ && case == "Ok"@ {
                case_made(worded(m, first_of(payload), *ok), "Result"@, "Ok"@, *ok)
            } else if kind_name == "Result"@ && case == "Err"@ {
                case_made(worded(m, first_of(payload), *err), "Result"@, "Err"@, *err)
            } else {
                None
            },
            _ => None,
        },
        _ => None,
    }
}

/// `None` made.
pub open spec fn nothing_made(m: Machine) -> Option<(u64, Machine)> {
    made(
        m,
        site_plan(Site { kind_name: "Option"@, case: "None"@, payload: Seq::empty() }),
        Seq::empty(),
    )
}

// ------------------------------------------------------------ instructions

/// An object built out of the words on top.
pub open spec fn build(m: Machine, plan: Plan, fuel: int) -> Outcome {
    let width = plan.refs.len();
    if !m.matches_plan(plan.refs) || !m.can_make() {
        Outcome::Stuck
    } else {
        let n = m.dropped(width as int).making(plan, m.words.skip(m.words.len() - width)).push(
            m.next as u64,
            true,
        );
        Outcome::Next(n.fuelled(fuel).advanced())
    }
}

/// The object the top word names, where it is a handle that names one.
pub open spec fn top_object(m: Machine) -> Option<Object> {
    if m.words.len() > 0 && m.top_ref() && m.objects.dom().contains(m.top()) {
        Some(m.objects[m.top()])
    } else {
        None
    }
}

/// One word of an object read, where the program and the object agree on what
/// it is.
pub open spec fn read(m: Machine, object: Object, at: int, expected: Option<bool>) -> Outcome {
    if !(at < object.words.len()) {
        Outcome::Stuck
    } else if expected matches Some(is_ref) && is_ref != object.is_ref(at) {
        Outcome::Stuck
    } else {
        Outcome::Next(m.push(object.words[at], object.is_ref(at)).advanced())
    }
}

/// Whether a declared field holds a handle.
pub open spec fn field_is_ref(program: Program, of: crate::ir::StructId, at: int) -> Option<bool> {
    let fields = program.structs@[of.0 as int].fields@;
    if at < fields.len() {
        Some(crate::frame::layout::part_of(fields[at].kind) == Part::Nested)
    } else {
        None
    }
}

/// Whether a declared payload position holds a handle.
pub open spec fn payload_is_ref(
    program: Program,
    of: crate::ir::EnumId,
    case: int,
    at: int,
) -> Option<bool> {
    let cases = program.enums@[of.0 as int].cases@;
    if case < cases.len() && at < cases[case].payload@.len() {
        Some(crate::frame::layout::part_of(cases[case].payload@[at]) == Part::Nested)
    } else {
        None
    }
}

/// A field written: a new object like the old, but for one word.
pub open spec fn set_field(program: Program, m: Machine, id: ConstId) -> Outcome {
    if m.words.len() < 2 || !m.refs[m.refs.len() - 2] || !m.can_make() {
        Outcome::Stuck
    } else {
        let target = m.words[m.words.len() - 2];
        if !m.objects.dom().contains(target) || !(exists|at: int|
            crate::frame::layout::settles(program, program.name_text(id), at)) {
            Outcome::Stuck
        } else {
            let object = m.objects[target];
            let at = choose|at: int|
                crate::frame::layout::settles(program, program.name_text(id), at);
            if !(at < object.words.len()) || (object.is_ref(at) && !m.top_ref()) {
                Outcome::Stuck
            } else {
                let n = m.dropped(2).making(object.plan, object.words.update(at, m.top())).push(
                    m.next as u64,
                    true,
                );
                Outcome::Next(n.fuelled(object.words.len() as int).advanced())
            }
        }
    }
}

/// An interpolation: the operands rendered and a text made of them.
pub open spec fn concat(program: Program, m: Machine, function: Function, count: int) -> Outcome {
    match crate::frame::operands::kinds_at(standing(program, function), m.pc, count) {
        None => Outcome::Stuck,
        Some(kinds) => match arguments(program, m, kinds) {
            None => Outcome::Stuck,
            Some(pair) => {
                let text = all_shown(pair.0);
                let bytes = vstd::utf8::encode_utf8(text).len();
                match text_made(
                    pair.1.fuelled(crate::budget::tallied(count, bytes as int)),
                    text,
                ) {
                    None => Outcome::Stuck,
                    Some(made) => Outcome::Next(made.1.push(made.0, true).advanced()),
                }
            },
        },
    }
}

/// Two texts compared, byte by byte.
pub open spec fn compare(m: Machine, op: BinaryOp) -> Outcome {
    if m.words.len() < 2 || !m.refs[m.refs.len() - 2] || !m.top_ref() || !op.compares() {
        Outcome::Stuck
    } else {
        match (bytes_at(m.objects, m.words[m.words.len() - 2]), bytes_at(m.objects, m.top())) {
            (Some(a), Some(b)) => Outcome::Next(
                m.dropped(2).push(
                    crate::frame::word::bool_word(compared(op, byte_order(a, b))),
                    false,
                ).advanced(),
            ),
            _ => Outcome::Stuck,
        }
    }
}

/// The handle of the text constant `id`: text constants are made first of all,
/// in order.
pub open spec fn const_handle(constants: Seq<Const>, id: int) -> int
    decreases id,
{
    if id <= 0 {
        1
    } else {
        const_handle(constants, id - 1) + (if constants[id - 1] is Str {
            1int
        } else {
            0
        })
    }
}

/// The word a constant is.
pub open spec fn constant(program: Program, id: ConstId) -> u64 {
    let held = program.constants@[id.0 as int];
    if held is Str {
        const_handle(program.constants@, id.0 as int) as u64
    } else {
        crate::frame::layout::word_of(held)
    }
}

/// A builtin call: a case built where the case is known, and elsewhere the
/// arguments handed over.
pub open spec fn make_builtin(
    program: Program,
    m: Machine,
    function: Function,
    name: ConstId,
    argc: int,
) -> Outcome {
    let at = standing(program, function);
    match crate::frame::layout::construction(program, at, m.pc, function.code@[m.pc]) {
        Some(site) => build(m, site_plan(site), 0),
        None => match crate::frame::operands::boundary_kinds(at, m.pc, argc) {
            None => Outcome::Stuck,
            Some(kinds) => match arguments(program, m, kinds) {
                None => Outcome::Stuck,
                Some(pair) => Outcome::Builtin(
                    Machine {
                        pending: Pending::Builtin,
                        ..pair.1.materializing(argc).materializing(1)
                    },
                    program.name_text(name),
                    pair.0,
                    function.spot(m.pc),
                ),
            },
        },
    }
}

/// A Host call: the arguments handed over, once the budget has been asked.
pub open spec fn call_host(
    program: Program,
    m: Machine,
    function: Function,
    module: ConstId,
    op: ConstId,
    argc: int,
) -> Outcome {
    match crate::frame::operands::boundary_kinds(standing(program, function), m.pc, argc) {
        None => Outcome::Stuck,
        Some(kinds) => match arguments(program, m, kinds) {
            None => Outcome::Stuck,
            Some(pair) => match asked(pair.1.materializing(argc), function.spot(m.pc)) {
                Err(stopped) => Outcome::Raised(stopped.0, stopped.1),
                Ok(n) => Outcome::Host(
                    Machine { pending: Pending::Host, ..n },
                    program.name_text(module),
                    program.name_text(op),
                    pair.0,
                    function.spot(m.pc),
                ),
            },
        },
    }
}

/// A host's answer taken in: as a word where its declared type has one, and as
/// a value elsewhere.
pub open spec fn host_answered(
    program: Program,
    m: Machine,
    function: Function,
    answer: Result<Datum, Failure>,
) -> Outcome {
    if !waits(m, function, Pending::Host) {
        Outcome::Stuck
    } else {
        host_taken(program, m, function, answer)
    }
}

/// A run waits for an answer, at an instruction of the running function.
pub open spec fn waits(m: Machine, function: Function, pending: Pending) -> bool {
    m.pending == pending && m.frames.len() > 0 && 0 <= m.pc < function.code@.len()
}

/// A host's answer, at the instruction that asked for it.
pub open spec fn host_taken(
    program: Program,
    m: Machine,
    function: Function,
    answer: Result<Datum, Failure>,
) -> Outcome {
    match function.code@[m.pc] {
        Inst::CallHost { module, op, argc: _ } => {
            let n = Machine { pending: Pending::Nothing, ..m };
            match answer {
                Err(failure) => Outcome::Raised(n, failure.placed(function.spot(m.pc))),
                Ok(value) => match crate::frame::kinds::host_answer(
                    program,
                    program.name_text(module),
                    program.name_text(op),
                ) {
                    Some(ty) => match crate::frame::kinds::host_word(ty) {
                        Some(part) => match worded(n, value, ty) {
                            Some(pair) => Outcome::Next(
                                pair.1.push(pair.0, part == Part::Nested).advanced(),
                            ),
                            None => Outcome::Stuck,
                        },
                        None => answer_kept(n, value),
                    },
                    None => answer_kept(n, value),
                },
            }
        },
        _ => Outcome::Stuck,
    }
}

/// An answer kept outside the stack.
pub open spec fn answer_kept(m: Machine, value: Datum) -> Outcome {
    Outcome::Next(
        Machine { boundary: m.boundary.push(value), ..m.materializing(1) }.advanced(),
    )
}

/// A builtin's answer taken in. An assertion that failed is remembered.
pub open spec fn builtin_answered(
    m: Machine,
    function: Function,
    answer: Result<Datum, Failure>,
    assertion: bool,
) -> Outcome {
    let n = Machine { pending: Pending::Nothing, ..m };
    if !waits(m, function, Pending::Builtin) {
        Outcome::Stuck
    } else {
        match answer {
            Err(failure) => Outcome::Raised(n, failure),
            Ok(value) => Outcome::Next(
                Machine {
                    boundary: n.boundary.push(value),
                    assertion_failure: match failed_assertion(value) {
                        Some(text) => if assertion {
                            Some((function.spot(m.pc), text))
                        } else {
                            n.assertion_failure
                        },
                        None => n.assertion_failure,
                    },
                    ..n
                }.advanced(),
            ),
        }
    }
}

/// What an assertion that failed says.
pub open spec fn failed_assertion(value: Datum) -> Option<Seq<char>> {
    match value {
        Datum::Enum(kind_name, case, payload) => if kind_name == "Result"@ && case == "Err"@
            && payload.len() > 0 {
            Some(crate::value::shown(payload[0]))
        } else {
            None
        },
        _ => None,
    }
}

/// A `?`: what it opens goes on, and what it cannot is the function's answer.
pub open spec fn try_value(
    program: Program,
    m: Machine,
    function: Function,
    payload: SlotKind,
) -> Outcome {
    let span = function.spot(m.pc);
    match taken(program, m, function) {
        None => Outcome::Stuck,
        Some(pair) => {
            let n = pair.1.materializing(1);
            match tried(pair.0) {
                None => Outcome::Raised(
                    n,
                    crate::error::failure("`?` needs a `Result` or an `Option`"@).placed(span),
                ),
                Some(Ok(answer)) => match opened_payload(n, answer, payload) {
                    None => Outcome::Stuck,
                    Some(n) => if !(m.pc + 1 < function.code@.len()) {
                        Outcome::Stuck
                    } else {
                        match charge(
                            n,
                            function.block_fuel@[m.pc + 1] as int,
                            function.spot(m.pc + 1),
                        ) {
                            Err(stopped) => Outcome::Raised(stopped.0, stopped.1),
                            Ok(n) => Outcome::Next(n.advanced()),
                        }
                    },
                },
                Some(Err(value)) => match safepoint(n, span) {
                    Err(stopped) => Outcome::Raised(stopped.0, stopped.1),
                    Ok(n) => leave(program, n, value),
                },
            }
        },
    }
}

/// What a `?` opened, as the word its type settles or as a value.
pub open spec fn opened_payload(m: Machine, answer: Datum, payload: SlotKind) -> Option<Machine> {
    match payload {
        SlotKind::Scalar(Scalar::Int) => match answer {
            Datum::Int(n) => Some(m.push(crate::frame::word::int_word(n) as u64, false)),
            _ => None,
        },
        SlotKind::Scalar(Scalar::Bool) => match answer {
            Datum::Bool(b) => Some(m.push(crate::frame::word::bool_word(b), false)),
            _ => None,
        },
        _ => Some(Machine { boundary: m.boundary.push(answer), ..m }),
    }
}

/// A return of a value.
pub open spec fn return_value(program: Program, m: Machine, function: Function) -> Outcome {
    match safepoint(m, function.spot(m.pc)) {
        Err(stopped) => Outcome::Raised(stopped.0, stopped.1),
        Ok(n) => match taken(program, n.materializing(1), function) {
            None => Outcome::Stuck,
            Some(pair) => leave(program, pair.1, pair.0),
        },
    }
}

/// A discard, from the stack or from over the boundary.
pub open spec fn discard(program: Program, m: Machine, function: Function) -> Outcome {
    let at = standing(program, function);
    if crate::frame::admission::leaves_boundary(program, function, m.pc)
        || crate::frame::admission::stands(at, m.pc, Kind::Str) || crate::frame::admission::stands(
        at,
        m.pc,
        Kind::Enum,
    ) {
        match taken(program, m.materializing(1), function) {
            None => Outcome::Stuck,
            Some(pair) => Outcome::Next(pair.1.advanced()),
        }
    } else if m.words.len() == 0 {
        Outcome::Stuck
    } else {
        Outcome::Next(m.dropped(1).advanced())
    }
}

/// An instruction that reads or writes one slot of the frame.
pub open spec fn slot_step(m: Machine, inst: Inst) -> Outcome {
    let base = m.frames.last().base as int;
    match inst {
        Inst::LoadScalar(slot) => if base + slot < m.words.len() {
            Outcome::Next(m.push(m.words[base + slot], false).advanced())
        } else {
            Outcome::Stuck
        },
        Inst::LoadLocal(slot) => if base + slot < m.words.len() && m.refs[base + slot] {
            Outcome::Next(m.push(m.words[base + slot], true).advanced())
        } else {
            Outcome::Stuck
        },
        Inst::StoreScalar(slot) => if base + slot < m.words.len() - 1 && !m.refs[base + slot] {
            let n = m.dropped(1);
            Outcome::Next(
                Machine { words: n.words.update(base + slot, m.top()), ..n }.advanced(),
            )
        } else {
            Outcome::Stuck
        },
        Inst::StoreLocal(slot) => if base + slot < m.words.len() - 1 && (m.refs[base + slot]
            ==> m.top_ref()) {
            let n = m.dropped(1);
            Outcome::Next(
                Machine { words: n.words.update(base + slot, m.top()), ..n }.advanced(),
            )
        } else {
            Outcome::Stuck
        },
        _ => Outcome::Stuck,
    }
}

/// An instruction over the words on top alone.
pub open spec fn word_step(program: Program, m: Machine, function: Function, inst: Inst) -> Outcome {
    match inst {
        Inst::ScalarConst(value) => Outcome::Next(
            m.push(crate::frame::word::int_word(value as int) as u64, false).advanced(),
        ),
        Inst::ScalarPop => if m.words.len() > 0 {
            Outcome::Next(m.dropped(1).advanced())
        } else {
            Outcome::Stuck
        },
        Inst::IntBinary(op) => if m.words.len() < 2 {
            Outcome::Stuck
        } else {
            let n = m.dropped(2);
            match int_binary(
                op,
                crate::frame::word::word_int(m.words[m.words.len() - 2]),
                crate::frame::word::word_int(m.top()),
            ) {
                Ok(answer) => Outcome::Next(
                    n.push(crate::frame::word::int_word(answer) as u64, false).advanced(),
                ),
                Err(message) => Outcome::Raised(
                    n,
                    crate::error::failure(message).placed(function.spot(m.pc)),
                ),
            }
        },
        Inst::Dup => if m.words.len() > 0 {
            Outcome::Next(m.push(m.top(), m.top_ref()).advanced())
        } else {
            Outcome::Stuck
        },
        Inst::ScalarToValue(_) => converted(m),
        Inst::ValueToScalar => converted(m),
        Inst::Const(id) => Outcome::Next(
            m.push(constant(program, id), program.constants@[id.0 as int] is Str).advanced(),
        ),
        _ => Outcome::Stuck,
    }
}

/// A scalar is the same word as a value.
pub open spec fn converted(m: Machine) -> Outcome {
    if m.words.len() > 0 && !m.top_ref() {
        Outcome::Next(m.advanced())
    } else {
        Outcome::Stuck
    }
}

/// An instruction over the object the top word names.
pub open spec fn object_step(program: Program, m: Machine, function: Function, inst: Inst) -> Outcome {
    match inst {
        Inst::MakeStruct(of) => build(
            m,
            struct_plan(program.structs@[of.0 as int]),
            program.structs@[of.0 as int].fields@.len() as int,
        ),
        Inst::MakeEnum { ty: _, named: _, argc: _ } =>
            match crate::frame::layout::construction(
                program,
                standing(program, function),
                m.pc,
                inst,
            ) {
                Some(site) => build(m, site_plan(site), site.payload.len() as int),
                None => Outcome::Stuck,
            },
        Inst::TestCase(id) => match top_object(m) {
            Some(object) => Outcome::Next(
                m.push(
                    crate::frame::word::bool_word(
                        object.plan.case matches Some(pair) && crate::frame::layout::is_case(
                            pair.0,
                            pair.1,
                            program.name_text(id),
                        ),
                    ),
                    false,
                ).advanced(),
            ),
            None => Outcome::Stuck,
        },
        Inst::GetPayload { case, at } => match top_object(m) {
            Some(object) => match case {
                Some(pair) => match payload_is_ref(program, pair.0, pair.1 as int, at as int) {
                    Some(is_ref) => read(m, object, at as int, Some(is_ref)),
                    None => Outcome::Stuck,
                },
                None => read(m, object, at as int, None),
            },
            None => Outcome::Stuck,
        },
        Inst::GetFieldAt { of, at } => match top_object(m) {
            Some(object) => match field_is_ref(program, of, at as int) {
                Some(is_ref) => read(m.dropped(1), object, at as int, Some(is_ref)),
                None => Outcome::Stuck,
            },
            None => Outcome::Stuck,
        },
        Inst::GetFieldAtScalar(at) => match top_object(m) {
            Some(object) => read(m.dropped(1), object, at as int, Some(false)),
            None => Outcome::Stuck,
        },
        Inst::SetField(id) => set_field(program, m, id),
        Inst::Concat(count) => concat(program, m, function, count as int),
        Inst::Binary(op) => compare(m, op),
        _ => Outcome::Stuck,
    }
}

/// An instruction that moves control, or reaches over the boundary.
pub open spec fn flow_step(program: Program, m: Machine, function: Function, inst: Inst) -> Outcome {
    match inst {
        Inst::Jump(to) => jump(m, function, to as int),
        Inst::JumpIfFalseScalar(to) => branch(m, function, to as int, true),
        Inst::JumpIfTrueScalar(to) => branch(m, function, to as int, false),
        Inst::JumpIfFalse(to) => branch(m, function, to as int, true),
        Inst::JumpIfTrue(to) => branch(m, function, to as int, false),
        Inst::Call { function: target, scalar_argc, value_argc, place_argc: _ } => call(
            program,
            m,
            function,
            target,
            scalar_argc + value_argc,
        ),
        Inst::ReturnScalar => return_scalar(program, m, function),
        Inst::Pop => discard(program, m, function),
        Inst::MakeBuiltin { name, argc } => make_builtin(program, m, function, name, argc as int),
        Inst::CallHost { module, op, argc } => call_host(
            program,
            m,
            function,
            module,
            op,
            argc as int,
        ),
        Inst::Try { payload } => try_value(program, m, function, payload),
        Inst::Return => return_value(program, m, function),
        _ => Outcome::Stuck,
    }
}

/// The function that runs.
pub open spec fn running(program: Program, m: Machine) -> Function {
    program.func(m.frames.last().function)
}

/// One instruction.
pub open spec fn step(program: Program, m: Machine) -> Outcome {
    let function = running(program, m);
    if !(m.pending is Nothing) || m.frames.len() == 0 || !(0 <= m.pc < function.code@.len()) {
        Outcome::Stuck
    } else {
        let inst = function.code@[m.pc];
        match inst {
            Inst::LoadScalar(_) => slot_step(m, inst),
            Inst::StoreScalar(_) => slot_step(m, inst),
            Inst::LoadLocal(_) => slot_step(m, inst),
            Inst::StoreLocal(_) => slot_step(m, inst),
            Inst::ScalarConst(_) => word_step(program, m, function, inst),
            Inst::ScalarPop => word_step(program, m, function, inst),
            Inst::IntBinary(_) => word_step(program, m, function, inst),
            Inst::Dup => word_step(program, m, function, inst),
            Inst::ScalarToValue(_) => word_step(program, m, function, inst),
            Inst::ValueToScalar => word_step(program, m, function, inst),
            Inst::Const(_) => word_step(program, m, function, inst),
            Inst::MakeStruct(_) => object_step(program, m, function, inst),
            Inst::MakeEnum { ty: _, named: _, argc: _ } => object_step(program, m, function, inst),
            Inst::TestCase(_) => object_step(program, m, function, inst),
            Inst::GetPayload { case: _, at: _ } => object_step(program, m, function, inst),
            Inst::GetFieldAt { of: _, at: _ } => object_step(program, m, function, inst),
            Inst::GetFieldAtScalar(_) => object_step(program, m, function, inst),
            Inst::SetField(_) => object_step(program, m, function, inst),
            Inst::Concat(_) => object_step(program, m, function, inst),
            Inst::Binary(_) => object_step(program, m, function, inst),
            _ => flow_step(program, m, function, inst),
        }
    }
}

/// How a run of some steps ends.
pub open spec fn run_for(program: Program, m: Machine, steps: nat) -> Outcome
    decreases steps,
{
    if steps == 0 {
        Outcome::Next(m)
    } else {
        match step(program, m) {
            Outcome::Next(n) => run_for(program, n, (steps - 1) as nat),
            other => other,
        }
    }
}

/// A run begun: the stack cleared, the entry's frame opened, a safepoint taken
/// and the first block charged.
pub open spec fn begun(program: Program, m: Machine, entry: FunctionId) -> Outcome {
    let function = program.func(entry);
    let cleared = Machine {
        words: Seq::empty(),
        refs: Seq::empty(),
        boundary: Seq::empty(),
        fuel: 0,
        frames: seq![Call { function: entry, return_pc: 0, base: 0 }],
        pc: 0,
        pending: Pending::Nothing,
        ..m
    };
    if function.code@.len() == 0 || !fits_frame(cleared, function, 0) {
        Outcome::Stuck
    } else {
        match safepoint(opened(cleared, function, 0), function.span) {
            Err(stopped) => Outcome::Raised(stopped.0, stopped.1),
            Ok(n) => match charge(n, function.block_fuel@[0] as int, function.spot(0)) {
                Err(stopped) => Outcome::Raised(stopped.0, stopped.1),
                Ok(n) => Outcome::Next(n),
            },
        }
    }
}

/// The fuel charged and not yet handed over, handed over.
pub open spec fn settled(m: Machine) -> Machine {
    match m.budget {
        Some(budget) => Machine { fuel: 0, budget: Some(budget.having_spent(m.fuel)), ..m },
        None => Machine { fuel: 0, ..m },
    }
}

/// The objects of the text constants among the first `count`.
pub open spec fn text_objects(constants: Seq<Const>, count: int) -> Map<u64, Object>
    decreases count,
{
    if count <= 0 {
        Map::empty()
    } else {
        match constants[count - 1] {
            Const::Str(text) => text_objects(constants, count - 1).insert(
                const_handle(constants, count - 1) as u64,
                Object {
                    plan: text_plan(),
                    words: crate::frame::packing::packed(vstd::utf8::encode_utf8(text@)),
                },
            ),
            _ => text_objects(constants, count - 1),
        }
    }
}

/// A backend that has run nothing: the text constants made, and nothing else.
pub open spec fn initial(program: Program, budget: Option<Budget>) -> Machine {
    let count = program.constants@.len() as int;
    Machine {
        words: Seq::empty(),
        refs: Seq::empty(),
        objects: text_objects(program.constants@, count),
        next: const_handle(program.constants@, count),
        frames: Seq::empty(),
        pc: 0,
        boundary: Seq::empty(),
        fuel: 0,
        instructions: 0,
        materialized: 0,
        allocated_objects: 0,
        allocated_bytes: 0,
        high_water: 0,
        safepoints: 0,
        budget,
        pending: Pending::Nothing,
        assertion_failure: None,
    }
}

/// An outcome, once the fuel of a run that has ended is handed over.
pub open spec fn ended(outcome: Outcome) -> Outcome {
    match outcome {
        Outcome::Answered(m, datum) => Outcome::Answered(settled(m), datum),
        Outcome::Raised(m, failure) => Outcome::Raised(settled(m), failure),
        other => other,
    }
}

/// A run begun, and so many steps of it taken.
pub open spec fn started(program: Program, m: Machine, entry: FunctionId, steps: nat) -> Outcome {
    match begun(program, m, entry) {
        Outcome::Next(n) => run_for(program, n, steps),
        other => other,
    }
}

/// A run taken up again, where an answer let it go on.
pub open spec fn taken_up(program: Program, outcome: Outcome, steps: nat) -> Outcome {
    match outcome {
        Outcome::Next(n) => run_for(program, n, steps),
        other => other,
    }
}

/// The error an entry that is not admitted ends in.
pub open spec fn refused(refusal: crate::frame::admission::Refusal) -> Failure {
    Failure {
        span: refusal.span,
        rule: Some(
            "A run on the 8-byte frame either finishes on it or fails before any side effect; it never falls back to another backend."@,
        ),
        ..crate::error::failure("the 8-byte frame cannot run "@ + refusal.what)
    }
}

/// The error an entry with parameters ends in.
pub open spec fn unsupplied(module: Seq<char>, name: Seq<char>, entry: Function) -> Failure {
    crate::error::failure(
        "entry `"@ + module + "."@ + name + "` declares "@ + crate::text::digits(
            entry.params@.len(),
        ) + " parameter(s), which the 8-byte frame cannot supply"@,
    ).placed(entry.span)
}

/// What running `module.name` comes to.
pub open spec fn entered(
    program: Program,
    m: Machine,
    module: Seq<char>,
    name: Seq<char>,
    entry: FunctionId,
    steps: nat,
) -> Outcome {
    let refusals = crate::frame::admission::refusals_from(program, entry);
    if refusals.len() > 0 {
        Outcome::Raised(m, refused(refusals[0]))
    } else if program.func(entry).params@.len() != 0 {
        Outcome::Raised(m, unsupplied(module, name, program.func(entry)))
    } else {
        ended(started(program, m, entry, steps))
    }
}

} // verus!
