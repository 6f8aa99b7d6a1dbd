//! What a host module declares about itself, and whether a value keeps to it.
use crate::text::{decimal, same};
use crate::value::{Datum, Value};
use vstd::prelude::*;
use vstd::string::*;

verus! {

/// A type a host operation takes or answers.
#[derive(Debug)]
pub enum HostType {
    Unit,
    Bool,
    Int,
    String,
    Error,
    Duration,
    Any,
    Named(String),
    Option(Box<HostType>),
    Array(Box<HostType>),
    SetOf(Box<HostType>),
    Result(Box<HostType>, Box<HostType>),
    MapOf(Box<HostType>, Box<HostType>),
}

/// What an operation costs the outside world.
#[derive(Clone, Copy, Debug, PartialEq, Eq, Structural)]
pub enum Effect {
    Read,
    ReversibleWrite,
    IrreversibleWrite,
}

/// One operation of a host module or of a resource.
#[derive(Debug)]
pub struct OperationSchema {
    pub name: String,
    pub params: Vec<HostType>,
    /// Whether the last declared parameter answers for every argument from its
    /// own position onwards.
    pub variadic: bool,
    pub result: HostType,
    pub capability: String,
    pub effect: Effect,
    pub cancellable: bool,
    pub recordable: bool,
    pub result_is_task_safe: bool,
}

/// A type a host module declares.
#[derive(Debug)]
pub struct TypeSchema {
    pub name: String,
    pub cases: Vec<String>,
}

/// A kind of resource a host module can open.
#[derive(Debug)]
pub struct ResourceSchema {
    pub name: String,
    pub task_safe: bool,
    pub operations: Vec<OperationSchema>,
}

/// The whole of what a host module declares about itself.
#[derive(Debug)]
pub struct ModuleSchema {
    pub name: String,
    pub capability: String,
    pub operations: Vec<OperationSchema>,
    pub types: Vec<TypeSchema>,
    pub resources: Vec<ResourceSchema>,
}

/// A host type as source writes it.
pub open spec fn type_text(ty: HostType) -> Seq<char>
    decreases ty,
{
    match ty {
        HostType::Unit => "Unit"@,
        HostType::Bool => "Bool"@,
        HostType::Int => "Int"@,
        HostType::String => "String"@,
        HostType::Error => "Error"@,
        HostType::Duration => "Duration"@,
        HostType::Any => "Any"@,
        HostType::Named(name) => name@,
        HostType::Option(inner) => "Option<"@ + type_text(*inner) + ">"@,
        HostType::Array(inner) => "Array<"@ + type_text(*inner) + ">"@,
        HostType::SetOf(inner) => "Set<"@ + type_text(*inner) + ">"@,
        HostType::Result(ok, err) => "Result<"@ + type_text(*ok) + ", "@ + type_text(*err) + ">"@,
        HostType::MapOf(key, entry) => "Map<"@ + type_text(*key) + ", "@ + type_text(*entry)
            + ">"@,
    }
}

impl HostType {
    /// The type as source writes it.
    pub fn text(&self) -> (text: String)
        ensures
            text@ == type_text(*self),
        decreases self,
    {
        match self {
            HostType::Unit => "Unit".to_owned(),
            HostType::Bool => "Bool".to_owned(),
            HostType::Int => "Int".to_owned(),
            HostType::String => "String".to_owned(),
            HostType::Error => "Error".to_owned(),
            HostType::Duration => "Duration".to_owned(),
            HostType::Any => "Any".to_owned(),
            HostType::Named(name) => name.clone(),
            HostType::Option(inner) => {
                let mut text: String = "Option<".to_owned();
                text.append(inner.text().as_str());
                text.append(">");
                text
            },
            HostType::Array(inner) => {
                let mut text: String = "Array<".to_owned();
                text.append(inner.text().as_str());
                text.append(">");
                text
            },
            HostType::SetOf(inner) => {
                let mut text: String = "Set<".to_owned();
                text.append(inner.text().as_str());
                text.append(">");
                text
            },
            HostType::Result(ok, err) => {
                let mut text: String = "Result<".to_owned();
                text.append(ok.text().as_str());
                text.append(", ");
                text.append(err.text().as_str());
                text.append(">");
                text
            },
            HostType::MapOf(key, entry) => {
                let mut text: String = "Map<".to_owned();
                text.append(key.text().as_str());
                text.append(", ");
                text.append(entry.text().as_str());
                text.append(">");
                text
            },
        }
    }
}

/// Where a value stops agreeing with its declared type: the path to it, what
/// stands there, and what was declared.
pub ghost struct Disagreement {
    pub path: Seq<char>,
    pub found: Seq<char>,
    pub declared: Seq<char>,
}

/// A disagreement at `path` itself.
pub open spec fn disagree(ty: HostType, v: Datum, path: Seq<char>) -> Option<Disagreement> {
    Some(Disagreement { path, found: crate::value::kind_of(v), declared: type_text(ty) })
}

/// The path of one element of a list.
pub open spec fn element_path(path: Seq<char>, i: int) -> Seq<char> {
    path + "["@ + crate::text::shown_int(i) + "]"@
}

/// Where, under `path`, the value first disagrees with the type, if it does.
pub open spec fn disagreement(ty: HostType, v: Datum, path: Seq<char>) -> Option<Disagreement>
    decreases ty, 0int,
{
    match ty {
        HostType::Any => None,
        HostType::Unit => if v is Unit {
            None
        } else {
            disagree(ty, v, path)
        },
        HostType::Bool => if v is Bool {
            None
        } else {
            disagree(ty, v, path)
        },
        HostType::Int => if v is Int {
            None
        } else {
            disagree(ty, v, path)
        },
        HostType::String => if v is Str {
            None
        } else {
            disagree(ty, v, path)
        },
        HostType::Duration => if v is Duration {
            None
        } else {
            disagree(ty, v, path)
        },
        HostType::Error => if v is Struct && v->Struct_0 == "Error"@ {
            None
        } else {
            disagree(ty, v, path)
        },
        HostType::Named(name) => if (v is Struct || v is Enum || v is Resource)
            && crate::value::kind_of(v) == name@ {
            None
        } else {
            disagree(ty, v, path)
        },
        HostType::Option(inner) => match v {
            Datum::Enum(kind, case, payload) => if kind == "Option"@ && case == "None"@
                && payload.len() == 0 {
                None
            } else if kind == "Option"@ && case == "Some"@ && payload.len() == 1 {
                disagreement(*inner, payload[0], path + "Some(_)"@)
            } else {
                disagree(ty, v, path)
            },
            _ => disagree(ty, v, path),
        },
        HostType::Result(ok, err) => match v {
            Datum::Enum(kind, case, payload) => if kind == "Result"@ && case == "Ok"@
                && payload.len() == 1 {
                disagreement(*ok, payload[0], path + "Ok(_)"@)
            } else if kind == "Result"@ && case == "Err"@ && payload.len() == 1 {
                disagreement(*err, payload[0], path + "Err(_)"@)
            } else {
                disagree(ty, v, path)
            },
            _ => disagree(ty, v, path),
        },
        HostType::Array(inner) => match v {
            Datum::Array(items) => first_disagreement(*inner, items, 0, path),
            _ => disagree(ty, v, path),
        },
        HostType::SetOf(inner) => match v {
            Datum::SetOf(items) => first_disagreement(*inner, items, 0, path),
            _ => disagree(ty, v, path),
        },
        HostType::MapOf(key, entry) => match v {
            Datum::MapOf(entries) => match first_disagreement(
                *key,
                entries.map_values(|e: (Datum, Datum)| e.0),
                0,
                path + ".keys"@,
            ) {
                Some(found) => Some(found),
                None => first_disagreement(
                    *entry,
                    entries.map_values(|e: (Datum, Datum)| e.1),
                    0,
                    path,
                ),
            },
            _ => disagree(ty, v, path),
        },
    }
}

/// Where the first element from `i` on that disagrees with the type does so.
pub open spec fn first_disagreement(
    ty: HostType,
    items: Seq<Datum>,
    i: int,
    path: Seq<char>,
) -> Option<Disagreement>
    decreases ty, items.len() - i + 1,
{
    if i < 0 || i >= items.len() {
        None
    } else {
        match disagreement(ty, items[i], element_path(path, i)) {
            Some(found) => Some(found),
            None => first_disagreement(ty, items, i + 1, path),
        }
    }
}

/// Where a value stopped agreeing with its declared type.
#[derive(Debug)]
pub struct Mismatch {
    /// The way to the part that disagrees, and empty where the whole value
    /// does.
    pub path: String,
    /// The type that part is.
    pub found: String,
    /// The type that was declared there.
    pub declared: String,
}

impl View for Mismatch {
    type V = Disagreement;

    open spec fn view(&self) -> Disagreement {
        Disagreement { path: self.path@, found: self.found@, declared: self.declared@ }
    }
}

/// Which side of a call a disagreement is on.
#[derive(Clone, Copy, Debug, PartialEq, Eq, Structural)]
pub enum Part {
    Argument(usize),
    Result,
}

/// The sentence that reports a disagreement.
pub open spec fn complaint(what: Disagreement, shown: Seq<char>, part: Part) -> Seq<char> {
    match part {
        Part::Argument(position) => if what.path.len() == 0 {
            "`"@ + shown + "` was given `"@ + what.found + "` as argument "@
                + crate::text::digits(position as nat) + ", but its schema declares `"@
                + what.declared + "` there"@
        } else {
            "`"@ + shown + "` was given `"@ + what.found + "` at `"@ + what.path
                + "` of argument "@ + crate::text::digits(position as nat)
                + ", but its schema declares `"@ + what.declared + "` there"@
        },
        Part::Result => if what.path.len() == 0 {
            "`"@ + shown + "` answered `"@ + what.found + "`, but its schema declares `"@
                + what.declared + "`"@
        } else {
            "`"@ + shown + "` answered `"@ + what.found + "` at `"@ + what.path
                + "` of its result, but its schema declares `"@ + what.declared + "` there"@
        },
    }
}

impl Mismatch {
    /// The sentence that reports this disagreement.
    pub fn describe(&self, shown: &str, part: Part) -> (text: String)
        ensures
            text@ == complaint(self@, shown@, part),
    {
        let mut text: String = "`".to_owned();
        text.append(shown);
        let whole: bool = self.path.as_str().is_empty();
        match part {
            Part::Argument(position) => {
                text.append("` was given `");
                text.append(self.found.as_str());
                if whole {
                    text.append("` as argument ");
                } else {
                    text.append("` at `");
                    text.append(self.path.as_str());
                    text.append("` of argument ");
                }
                text.append(decimal(position as u64).as_str());
                text.append(", but its schema declares `");
                text.append(self.declared.as_str());
                text.append("` there");
            },
            Part::Result => {
                text.append("` answered `");
                text.append(self.found.as_str());
                if whole {
                    text.append("`, but its schema declares `");
                    text.append(self.declared.as_str());
                    text.append("`");
                } else {
                    text.append("` at `");
                    text.append(self.path.as_str());
                    text.append("` of its result, but its schema declares `");
                    text.append(self.declared.as_str());
                    text.append("` there");
                }
            },
        }
        text
    }
}

impl HostType {
    fn mismatch(&self, value: &Value, path: String) -> (found: Option<Mismatch>)
        ensures
            found matches Some(m) && Some(m@) == disagree(*self, value@, path@),
    {
        Some(Mismatch { path, found: value.type_text(), declared: self.text() })
    }

    /// Where, under `path`, the value first disagrees with the type, if it
    /// does.
    fn check(&self, value: &Value, path: String) -> (found: Option<Mismatch>)
        ensures
            match found {
                Some(m) => disagreement(*self, value@, path@) == Some(m@),
                None => disagreement(*self, value@, path@) is None,
            },
        decreases self, 0int,
    {
        match self {
            HostType::Any => None,
            HostType::Unit => match value {
                Value::Unit => None,
                _ => self.mismatch(value, path),
            },
            HostType::Bool => match value {
                Value::Bool(_) => None,
                _ => self.mismatch(value, path),
            },
            HostType::Int => match value {
                Value::Int(_) => None,
                _ => self.mismatch(value, path),
            },
            HostType::String => match value {
                Value::Str(_) => None,
                _ => self.mismatch(value, path),
            },
            HostType::Duration => match value {
                Value::Duration(_) => None,
                _ => self.mismatch(value, path),
            },
            HostType::Error => {
                if let Value::Struct { kind_name, .. } = value {
                    if same(kind_name.as_str(), "Error") {
                        return None;
                    }
                }
                self.mismatch(value, path)
            },
            HostType::Named(name) => {
                let named: bool = match value {
                    Value::Struct { .. } => true,
                    Value::Enum { .. } => true,
                    Value::Resource(_) => true,
                    _ => false,
                };
                if named && same(value.type_text().as_str(), name.as_str()) {
                    None
                } else {
                    self.mismatch(value, path)
                }
            },
            HostType::Option(inner) => {
                if let Value::Enum { kind_name, case, payload } = value {
                    proof {
                        crate::value::lemma_items(*value, *payload);
                    }
                    if same(kind_name.as_str(), "Option") {
                        if payload.len() == 0 && same(case.as_str(), "None") {
                            return None;
                        }
                        if payload.len() == 1 && same(case.as_str(), "Some") {
                            let mut at: String = path;
                            at.append("Some(_)");
                            proof {
                                reveal_strlit("None");
                                reveal_strlit("Some");
                                assert("None"@[0] != "Some"@[0]);
                            }
                            return inner.check(&payload[0], at);
                        }
                    }
                }
                self.mismatch(value, path)
            },
            HostType::Result(ok, err) => {
                if let Value::Enum { kind_name, case, payload } = value {
                    proof {
                        crate::value::lemma_items(*value, *payload);
                    }
                    if payload.len() == 1 && same(kind_name.as_str(), "Result") {
                        if same(case.as_str(), "Ok") {
                            let mut at: String = path;
                            at.append("Ok(_)");
                            return ok.check(&payload[0], at);
                        }
                        if same(case.as_str(), "Err") {
                            let mut at: String = path;
                            at.append("Err(_)");
                            return err.check(&payload[0], at);
                        }
                    }
                }
                self.mismatch(value, path)
            },
            HostType::Array(inner) => match value {
                Value::Array(items) => {
                    proof {
                        crate::value::lemma_items(*value, *items);
                    }
                    inner.check_items(items, path)
                },
                _ => self.mismatch(value, path),
            },
            HostType::SetOf(inner) => match value {
                Value::SetOf(items) => {
                    proof {
                        crate::value::lemma_items(*value, *items);
                    }
                    inner.check_items(items, path)
                },
                _ => self.mismatch(value, path),
            },
            HostType::MapOf(key, entry) => match value {
                Value::MapOf(entries) => {
                    let mut keys_path: String = path.clone();
                    keys_path.append(".keys");
                    let ghost all = value@->MapOf_0;
                    proof {
                        assert forall|i: int| 0 <= i < entries@.len() implies #[trigger] all[i] == (
                            entries@[i].0@,
                            entries@[i].1@,
                        ) by {}
                        assert(all.map_values(|e: (Datum, Datum)| e.0) =~= Seq::new(
                            entries@.len(),
                            |i: int| entries@[i].0@,
                        ));
                        assert(all.map_values(|e: (Datum, Datum)| e.1) =~= Seq::new(
                            entries@.len(),
                            |i: int| entries@[i].1@,
                        ));
                    }
                    match key.check_side(entries, true, keys_path) {
                        Some(found) => Some(found),
                        None => entry.check_side(entries, false, path),
                    }
                },
                _ => self.mismatch(value, path),
            },
        }
    }

    /// The same over every element of a list, in order.
    fn check_items(&self, items: &Vec<Value>, path: String) -> (found: Option<Mismatch>)
        ensures
            match found {
                Some(m) => first_disagreement(*self, crate::value::data(items@), 0, path@) == Some(
                    m@,
                ),
                None => first_disagreement(*self, crate::value::data(items@), 0, path@) is None,
            },
        decreases self, 1int,
    {
        let ghost all = crate::value::data(items@);
        let ghost whole = first_disagreement(*self, all, 0, path@);
        let mut i: usize = 0;
        while i < items.len()
            invariant
                i <= items@.len(),
                all == crate::value::data(items@),
                whole == first_disagreement(*self, all, i as int, path@),
                whole == first_disagreement(*self, all, 0, path@),
            decreases items@.len() - i,
        {
            let mut at: String = path.clone();
            at.append("[");
            at.append(decimal(i as u64).as_str());
            at.append("]");
            let found = self.check(&items[i], at);
            if found.is_some() {
                return found;
            }
            i = i + 1;
        }
        None
    }

    /// The same over every key, or every value, of a map.
    fn check_side(&self, entries: &Vec<(Value, Value)>, keys: bool, path: String) -> (found: Option<
        Mismatch,
    >)
        ensures
            ({
                let side = if keys {
                    Seq::new(entries@.len(), |i: int| entries@[i].0@)
                } else {
                    Seq::new(entries@.len(), |i: int| entries@[i].1@)
                };
                match found {
                    Some(m) => first_disagreement(*self, side, 0, path@) == Some(m@),
                    None => first_disagreement(*self, side, 0, path@) is None,
                }
            }),
        decreases self, 1int,
    {
        let ghost side = if keys {
            Seq::new(entries@.len(), |i: int| entries@[i].0@)
        } else {
            Seq::new(entries@.len(), |i: int| entries@[i].1@)
        };
        let ghost whole = first_disagreement(*self, side, 0, path@);
        let mut i: usize = 0;
        while i < entries.len()
            invariant
                i <= entries@.len(),
                side == if keys {
                    Seq::new(entries@.len(), |i: int| entries@[i].0@)
                } else {
                    Seq::new(entries@.len(), |i: int| entries@[i].1@)
                },
                whole == first_disagreement(*self, side, i as int, path@),
                whole == first_disagreement(*self, side, 0, path@),
            decreases entries@.len() - i,
        {
            let mut at: String = path.clone();
            at.append("[");
            at.append(decimal(i as u64).as_str());
            at.append("]");
            let found = if keys {
                self.check(&entries[i].0, at)
            } else {
                self.check(&entries[i].1, at)
            };
            if found.is_some() {
                return found;
            }
            i = i + 1;
        }
        None
    }

    /// Whether the value keeps to the type, and where it first does not.
    pub fn admits(&self, value: &Value) -> (answer: Result<(), Mismatch>)
        ensures
            match answer {
                Ok(_) => disagreement(*self, value@, Seq::empty()) is None,
                Err(m) => disagreement(*self, value@, Seq::empty()) == Some(m@),
            },
    {
        proof {
            reveal_strlit("");
            assert(""@ =~= Seq::<char>::empty());
        }
        match self.check(value, "".to_owned()) {
            Some(found) => Err(found),
            None => Ok(()),
        }
    }
}

/// The declared parameters, shown with commas between them.
pub open spec fn params_text(params: Seq<HostType>, n: int) -> Seq<char>
    decreases n,
{
    if n <= 0 {
        Seq::empty()
    } else if n == 1 {
        type_text(params[0])
    } else {
        params_text(params, n - 1) + ", "@ + type_text(params[n - 1])
    }
}

impl OperationSchema {
    /// How many arguments the operation takes, if it takes a fixed number, and
    /// the fewest it takes if it does not.
    pub open spec fn fewest(self) -> int {
        if self.variadic && self.params@.len() > 0 {
            self.params@.len() - 1
        } else {
            self.params@.len() as int
        }
    }

    /// The operation takes `argc` arguments.
    pub open spec fn takes(self, argc: int) -> bool {
        if self.variadic {
            argc >= self.fewest()
        } else {
            argc == self.params@.len()
        }
    }

    /// Whether the operation takes `argc` arguments.
    pub fn accepts(&self, argc: usize) -> (yes: bool)
        ensures
            yes == self.takes(argc as int),
    {
        let declared: usize = self.params.len();
        if self.variadic {
            declared == 0 || argc >= declared - 1
        } else {
            argc == declared
        }
    }

    /// The type declared for the argument at `index`: its own parameter's, or
    /// the last parameter's where the operation is variadic.
    pub open spec fn declared_param(self, index: int) -> Option<HostType> {
        if 0 <= index < self.params@.len() {
            Some(self.params@[index])
        } else if self.variadic && self.params@.len() > 0 && index >= 0 {
            Some(self.params@[self.params@.len() - 1])
        } else {
            None
        }
    }

    /// The type declared for the argument at `index`.
    pub fn param(&self, index: usize) -> (declared: Option<&HostType>)
        ensures
            match declared {
                Some(ty) => self.declared_param(index as int) == Some(*ty),
                None => self.declared_param(index as int) is None,
            },
    {
        if index < self.params.len() {
            Some(&self.params[index])
        } else if self.variadic && self.params.len() > 0 {
            Some(&self.params[self.params.len() - 1])
        } else {
            None
        }
    }

    /// How many arguments the operation takes, in words.
    pub open spec fn arity_text(self) -> Seq<char> {
        (if self.variadic {
            "at least "@
        } else {
            Seq::empty()
        }) + crate::text::digits(self.fewest() as nat) + (if self.fewest() == 1 {
            " argument"@
        } else {
            " arguments"@
        })
    }

    /// How many arguments the operation takes, in words.
    pub fn expected_arity(&self) -> (text: String)
        ensures
            text@ == self.arity_text(),
    {
        let declared: usize = self.params.len();
        let fewest: usize = if self.variadic && declared > 0 {
            declared - 1
        } else {
            declared
        };
        proof {
            reveal_strlit("");
            assert(""@ =~= Seq::<char>::empty());
        }
        let mut text: String = if self.variadic {
            "at least ".to_owned()
        } else {
            "".to_owned()
        };
        text.append(decimal(fewest as u64).as_str());
        if fewest == 1 {
            text.append(" argument");
        } else {
            text.append(" arguments");
        }
        text
    }

    /// The operation as source writes it.
    pub open spec fn signature_text(self) -> Seq<char> {
        self.name@ + "("@ + params_text(self.params@, self.params@.len() as int) + (
        if self.variadic {
            "...) -> "@
        } else {
            ") -> "@
        }) + type_text(self.result)
    }

    /// The operation as source writes it.
    pub fn signature(&self) -> (text: String)
        ensures
            text@ == self.signature_text(),
    {
        let mut text: String = self.name.clone();
        text.append("(");
        let ghost open = text@;
        let mut at: usize = 0;
        while at < self.params.len()
            invariant
                at <= self.params@.len(),
                text@ == open + params_text(self.params@, at as int),
            decreases self.params@.len() - at,
        {
            if at > 0 {
                text.append(", ");
            }
            text.append(self.params[at].text().as_str());
            at = at + 1;
            proof {
                assert(text@ =~= open + params_text(self.params@, at as int));
            }
        }
        if self.variadic {
            text.append("...) -> ");
        } else {
            text.append(") -> ");
        }
        text.append(self.result.text().as_str());
        text
    }
}

/// Where the first operation called `name` stands in a list.
pub open spec fn operation_at(operations: Seq<OperationSchema>, name: Seq<char>, at: int) -> bool {
    &&& 0 <= at < operations.len()
    &&& operations[at].name@ == name
    &&& forall|j: int| 0 <= j < at ==> #[trigger] operations[j].name@ != name
}

/// No operation is called `name`.
pub open spec fn no_operation(operations: Seq<OperationSchema>, name: Seq<char>) -> bool {
    forall|j: int| 0 <= j < operations.len() ==> #[trigger] operations[j].name@ != name
}

/// The first operation called `name`, if there is one.
pub fn find_operation(operations: &Vec<OperationSchema>, name: &str) -> (found: Option<usize>)
    ensures
        match found {
            Some(at) => operation_at(operations@, name@, at as int),
            None => no_operation(operations@, name@),
        },
{
    let mut at: usize = 0;
    while at < operations.len()
        invariant
            at <= operations@.len(),
            forall|j: int| 0 <= j < at ==> #[trigger] operations@[j].name@ != name@,
        decreases operations@.len() - at,
    {
        if same(operations[at].name.as_str(), name) {
            return Some(at);
        }
        at = at + 1;
    }
    None
}

/// Where the first module called `name` stands in a list.
pub open spec fn module_at(modules: Seq<ModuleSchema>, name: Seq<char>, at: int) -> bool {
    &&& 0 <= at < modules.len()
    &&& modules[at].name@ == name
    &&& forall|j: int| 0 <= j < at ==> #[trigger] modules[j].name@ != name
}

/// No module is called `name`.
pub open spec fn no_module(modules: Seq<ModuleSchema>, name: Seq<char>) -> bool {
    forall|j: int| 0 <= j < modules.len() ==> #[trigger] modules[j].name@ != name
}

/// The first module called `name`, if there is one.
pub fn find_module(modules: &Vec<ModuleSchema>, name: &str) -> (found: Option<usize>)
    ensures
        match found {
            Some(at) => module_at(modules@, name@, at as int),
            None => no_module(modules@, name@),
        },
{
    let mut at: usize = 0;
    while at < modules.len()
        invariant
            at <= modules@.len(),
            forall|j: int| 0 <= j < at ==> #[trigger] modules@[j].name@ != name@,
        decreases modules@.len() - at,
    {
        if same(modules[at].name.as_str(), name) {
            return Some(at);
        }
        at = at + 1;
    }
    None
}

/// Whether a value keeps to a type does not depend on where it stands.
pub proof fn a_value_keeps_to_a_type_wherever_it_stands(
    ty: HostType,
    v: Datum,
    here: Seq<char>,
    there: Seq<char>,
)
    ensures
        disagreement(ty, v, here) is None <==> disagreement(ty, v, there) is None,
    decreases ty, 0int,
{
    match ty {
        HostType::Option(inner) => {
            if let Datum::Enum(_, _, payload) = v {
                if payload.len() == 1 {
                    a_value_keeps_to_a_type_wherever_it_stands(
                        *inner,
                        payload[0],
                        here + "Some(_)"@,
                        there + "Some(_)"@,
                    );
                }
            }
        },
        HostType::Result(ok, err) => {
            if let Datum::Enum(_, _, payload) = v {
                if payload.len() == 1 {
                    a_value_keeps_to_a_type_wherever_it_stands(
                        *ok,
                        payload[0],
                        here + "Ok(_)"@,
                        there + "Ok(_)"@,
                    );
                    a_value_keeps_to_a_type_wherever_it_stands(
                        *err,
                        payload[0],
                        here + "Err(_)"@,
                        there + "Err(_)"@,
                    );
                }
            }
        },
        HostType::Array(inner) => {
            if let Datum::Array(items) = v {
                lemma_items_keep_wherever(*inner, items, 0, here, there);
            }
        },
        HostType::SetOf(inner) => {
            if let Datum::SetOf(items) = v {
                lemma_items_keep_wherever(*inner, items, 0, here, there);
            }
        },
        HostType::MapOf(key, entry) => {
            if let Datum::MapOf(entries) = v {
                lemma_items_keep_wherever(
                    *key,
                    entries.map_values(|e: (Datum, Datum)| e.0),
                    0,
                    here + ".keys"@,
                    there + ".keys"@,
                );
                lemma_items_keep_wherever(
                    *entry,
                    entries.map_values(|e: (Datum, Datum)| e.1),
                    0,
                    here,
                    there,
                );
            }
        },
        _ => {},
    }
}

proof fn lemma_items_keep_wherever(
    ty: HostType,
    items: Seq<Datum>,
    i: int,
    here: Seq<char>,
    there: Seq<char>,
)
    ensures
        first_disagreement(ty, items, i, here) is None <==> first_disagreement(ty, items, i, there) is None,
    decreases ty, items.len() - i + 1,
{
    if 0 <= i < items.len() {
        a_value_keeps_to_a_type_wherever_it_stands(
            ty,
            items[i],
            element_path(here, i),
            element_path(there, i),
        );
        lemma_items_keep_wherever(ty, items, i + 1, here, there);
    }
}

proof fn lemma_items_keep(ty: HostType, items: Seq<Datum>, i: int, path: Seq<char>)
    requires
        0 <= i <= items.len(),
    ensures
        first_disagreement(ty, items, i, path) is None <==> forall|j: int|
            i <= j < items.len() ==> disagreement(ty, #[trigger] items[j], Seq::empty()) is None,
    decreases items.len() - i,
{
    if i < items.len() {
        a_value_keeps_to_a_type_wherever_it_stands(
            ty,
            items[i],
            element_path(path, i),
            Seq::empty(),
        );
        lemma_items_keep(ty, items, i + 1, path);
    }
}

/// What keeps to a type that has no parts: a value of that type, or any value
/// for `Any`.
pub proof fn what_keeps_to_a_type_without_parts(v: Datum, path: Seq<char>)
    ensures
        disagreement(HostType::Any, v, path) is None,
        disagreement(HostType::Unit, v, path) is None <==> v == Datum::Unit,
        disagreement(HostType::Bool, v, path) is None <==> v is Bool,
        disagreement(HostType::Int, v, path) is None <==> v is Int,
        disagreement(HostType::String, v, path) is None <==> v is Str,
        disagreement(HostType::Duration, v, path) is None <==> v is Duration,
        disagreement(HostType::Error, v, path) is None <==> (v matches Datum::Struct(name, _)
            && name == "Error"@),
{
}

/// What keeps to a named type: a struct, a case or a handle of that name.
pub proof fn what_keeps_to_a_named_type(name: String, v: Datum, path: Seq<char>)
    ensures
        disagreement(HostType::Named(name), v, path) is None <==> match v {
            Datum::Struct(kind, _) => kind == name@,
            Datum::Enum(kind, _, _) => kind == name@,
            Datum::Resource(module, kind, _, _) => module + "."@ + kind == name@,
            _ => false,
        },
{
}

/// What keeps to an `Option` or a `Result`: a case of it whose payload keeps to
/// what it may hold.
pub proof fn what_keeps_to_a_type_of_cases(a: HostType, b: HostType, v: Datum, path: Seq<char>)
    ensures
        disagreement(HostType::Option(Box::new(a)), v, path) is None <==> match v {
            Datum::Enum(kind, case, payload) => kind == "Option"@ && (case == "None"@
                && payload.len() == 0 || case == "Some"@ && payload.len() == 1 && disagreement(
                a,
                payload[0],
                Seq::empty(),
            ) is None),
            _ => false,
        },
        disagreement(HostType::Result(Box::new(a), Box::new(b)), v, path) is None <==> match v {
            Datum::Enum(kind, case, payload) => kind == "Result"@ && payload.len() == 1 && (case
                == "Ok"@ && disagreement(a, payload[0], Seq::empty()) is None || case == "Err"@
                && disagreement(b, payload[0], Seq::empty()) is None),
            _ => false,
        },
{
    reveal_strlit("Ok");
    reveal_strlit("Err");
    reveal_strlit("Some");
    reveal_strlit("None");
    assert("Ok"@.len() != "Err"@.len());
    assert("Some"@[0] != "None"@[0]);
    if let Datum::Enum(_, _, payload) = v {
        if payload.len() == 1 {
            a_value_keeps_to_a_type_wherever_it_stands(
                a,
                payload[0],
                path + "Some(_)"@,
                Seq::empty(),
            );
            a_value_keeps_to_a_type_wherever_it_stands(
                a,
                payload[0],
                path + "Ok(_)"@,
                Seq::empty(),
            );
            a_value_keeps_to_a_type_wherever_it_stands(
                b,
                payload[0],
                path + "Err(_)"@,
                Seq::empty(),
            );
        }
    }
}

/// What keeps to a collection: one of that sort each of whose elements keeps to
/// what it holds, and each of whose keys to what it is kept under.
pub proof fn what_keeps_to_a_collection(a: HostType, b: HostType, v: Datum, path: Seq<char>)
    ensures
        disagreement(HostType::Array(Box::new(a)), v, path) is None <==> (v matches Datum::Array(
            items,
        ) && forall|i: int|
            0 <= i < items.len() ==> disagreement(a, #[trigger] items[i], Seq::empty()) is None),
        disagreement(HostType::SetOf(Box::new(a)), v, path) is None <==> (v matches Datum::SetOf(
            items,
        ) && forall|i: int|
            0 <= i < items.len() ==> disagreement(a, #[trigger] items[i], Seq::empty()) is None),
        disagreement(HostType::MapOf(Box::new(a), Box::new(b)), v, path) is None <==> (v matches
        Datum::MapOf(entries) && forall|i: int|
            0 <= i < entries.len() ==> disagreement(
                a,
                (#[trigger] entries[i]).0,
                Seq::empty(),
            ) is None && disagreement(b, entries[i].1, Seq::empty()) is None),
{
    match v {
        Datum::Array(items) => {
            lemma_items_keep(a, items, 0, path);
        },
        Datum::SetOf(items) => {
            lemma_items_keep(a, items, 0, path);
        },
        Datum::MapOf(entries) => {
            let keys = entries.map_values(|e: (Datum, Datum)| e.0);
            let held = entries.map_values(|e: (Datum, Datum)| e.1);
            lemma_items_keep(a, keys, 0, path + ".keys"@);
            lemma_items_keep(b, held, 0, path);
            assert forall|i: int| 0 <= i < entries.len() implies keys[i] == (
            #[trigger] entries[i]).0 && held[i] == entries[i].1 by {}
            if disagreement(HostType::MapOf(Box::new(a), Box::new(b)), v, path) is None {
                assert forall|i: int| 0 <= i < entries.len() implies disagreement(
                    a,
                    (#[trigger] entries[i]).0,
                    Seq::empty(),
                ) is None && disagreement(b, entries[i].1, Seq::empty()) is None by {
                    assert(disagreement(a, keys[i], Seq::empty()) is None);
                    assert(disagreement(b, held[i], Seq::empty()) is None);
                }
            } else if forall|i: int|
                0 <= i < entries.len() ==> disagreement(
                    a,
                    (#[trigger] entries[i]).0,
                    Seq::empty(),
                ) is None && disagreement(b, entries[i].1, Seq::empty()) is None {
                assert forall|j: int| 0 <= j < keys.len() implies disagreement(
                    a,
                    #[trigger] keys[j],
                    Seq::empty(),
                ) is None by {
                    assert(keys[j] == entries[j].0);
                }
                assert forall|j: int| 0 <= j < held.len() implies disagreement(
                    b,
                    #[trigger] held[j],
                    Seq::empty(),
                ) is None by {
                    assert(held[j] == entries[j].1);
                }
            }
        },
        _ => {},
    }
}

/// A list is reported by the first of its elements that does not keep to its
/// type, under that element's place, counted from zero.
pub proof fn a_list_is_reported_by_its_first_wrong_element(
    ty: HostType,
    items: Seq<Datum>,
    i: int,
    path: Seq<char>,
)
    requires
        0 <= i < items.len(),
        disagreement(ty, items[i], Seq::empty()) is Some,
        forall|j: int| 0 <= j < i ==> disagreement(ty, #[trigger] items[j], Seq::empty()) is None,
    ensures
        disagreement(HostType::Array(Box::new(ty)), Datum::Array(items), path) == disagreement(
            ty,
            items[i],
            path + "["@ + crate::text::shown_int(i) + "]"@,
        ),
        disagreement(HostType::SetOf(Box::new(ty)), Datum::SetOf(items), path) == disagreement(
            ty,
            items[i],
            path + "["@ + crate::text::shown_int(i) + "]"@,
        ),
{
    lemma_the_first_wrong_element(ty, items, 0, i, path);
}

proof fn lemma_the_first_wrong_element(
    ty: HostType,
    items: Seq<Datum>,
    from: int,
    i: int,
    path: Seq<char>,
)
    requires
        0 <= from <= i < items.len(),
        disagreement(ty, items[i], Seq::empty()) is Some,
        forall|j: int| 0 <= j < i ==> disagreement(ty, #[trigger] items[j], Seq::empty()) is None,
    ensures
        first_disagreement(ty, items, from, path) == disagreement(
            ty,
            items[i],
            element_path(path, i),
        ),
    decreases i - from,
{
    a_value_keeps_to_a_type_wherever_it_stands(
        ty,
        items[from],
        element_path(path, from),
        Seq::empty(),
    );
    if from < i {
        lemma_the_first_wrong_element(ty, items, from + 1, i, path);
    }
}

/// What does not keep to a type without parts is reported where it stands,
/// under its own type and the declared one.
pub proof fn what_is_wrong_is_reported_where_it_stands(ty: HostType, v: Datum, path: Seq<char>)
    requires
        ty is Unit || ty is Bool || ty is Int || ty is String || ty is Error || ty is Duration
            || ty is Named,
    ensures
        disagreement(ty, v, path) matches Some(found) ==> found.path == path && found.found
            == crate::value::kind_of(v) && found.declared == type_text(ty),
        disagreement(ty, v, path) is None ==> crate::value::kind_of(v) == type_text(ty),
{
}

/// An operation takes as many arguments as it declares; a variadic one as many
/// as it declares but for the last, or more.
pub proof fn an_operation_takes_what_it_declares(op: OperationSchema, argc: int)
    requires
        argc >= 0,
    ensures
        !op.variadic ==> (op.takes(argc) <==> argc == op.params@.len()),
        op.variadic && op.params@.len() > 0 ==> (op.takes(argc) <==> argc + 1 >= op.params@.len()),
        op.variadic && op.params@.len() == 0 ==> op.takes(argc),
{
}

/// An argument is declared by the parameter in its place, and by the last one
/// beyond them where the operation is variadic.
pub proof fn an_argument_is_declared_by_its_place(op: OperationSchema, at: int)
    requires
        at >= 0,
    ensures
        at < op.params@.len() ==> op.declared_param(at) == Some(op.params@[at]),
        at >= op.params@.len() && op.variadic && op.params@.len() > 0 ==> op.declared_param(at)
            == Some(op.params@.last()),
        at >= op.params@.len() && !op.variadic ==> op.declared_param(at) is None,
{
}

/// A type is shown as source writes it, and what it is made of inside it.
pub proof fn a_type_is_shown_as_source_writes_it(a: HostType, b: HostType, name: String)
    ensures
        type_text(HostType::Unit) == "Unit"@,
        type_text(HostType::Bool) == "Bool"@,
        type_text(HostType::Int) == "Int"@,
        type_text(HostType::String) == "String"@,
        type_text(HostType::Error) == "Error"@,
        type_text(HostType::Duration) == "Duration"@,
        type_text(HostType::Any) == "Any"@,
        type_text(HostType::Named(name)) == name@,
        type_text(HostType::Option(Box::new(a))) == "Option<"@ + type_text(a) + ">"@,
        type_text(HostType::Array(Box::new(a))) == "Array<"@ + type_text(a) + ">"@,
        type_text(HostType::SetOf(Box::new(a))) == "Set<"@ + type_text(a) + ">"@,
        type_text(HostType::Result(Box::new(a), Box::new(b))) == "Result<"@ + type_text(a) + ", "@
            + type_text(b) + ">"@,
        type_text(HostType::MapOf(Box::new(a), Box::new(b))) == "Map<"@ + type_text(a) + ", "@
            + type_text(b) + ">"@,
{
}

/// Parameters are shown in order, with a comma and a space between them; and
/// of how many arguments there are, one is singular and any other number is
/// not, and a variadic operation takes at least as many.
pub proof fn a_signature_is_shown_in_order(op: OperationSchema)
    ensures
        op.params@.len() == 0 ==> params_text(op.params@, 0) == Seq::<char>::empty(),
        op.params@.len() == 1 ==> params_text(op.params@, 1) == type_text(op.params@[0]),
        op.params@.len() > 1 ==> params_text(op.params@, op.params@.len() as int) == params_text(
            op.params@,
            op.params@.len() - 1,
        ) + ", "@ + type_text(op.params@.last()),
        !op.variadic ==> op.signature_text() == op.name@ + "("@ + params_text(
            op.params@,
            op.params@.len() as int,
        ) + ") -> "@ + type_text(op.result),
        op.variadic ==> op.signature_text() == op.name@ + "("@ + params_text(
            op.params@,
            op.params@.len() as int,
        ) + "...) -> "@ + type_text(op.result),
        !op.variadic && op.params@.len() == 1 ==> op.arity_text() == crate::text::digits(1)
            + " argument"@,
        !op.variadic && op.params@.len() != 1 ==> op.arity_text() == crate::text::digits(
            op.params@.len(),
        ) + " arguments"@,
        op.variadic && op.params@.len() == 2 ==> op.arity_text() == "at least "@
            + crate::text::digits(1) + " argument"@,
        op.variadic && op.params@.len() > 0 && op.params@.len() != 2 ==> op.arity_text()
            == "at least "@ + crate::text::digits((op.params@.len() - 1) as nat) + " arguments"@,
{
    assert(Seq::<char>::empty() + crate::text::digits(1) =~= crate::text::digits(1));
    assert(Seq::<char>::empty() + crate::text::digits(op.params@.len()) =~= crate::text::digits(
        op.params@.len(),
    ));
}

/// What is wrong inside a case is reported under the case, and inside a map
/// under its keys first and then under its places.
pub proof fn what_is_wrong_inside_is_reported_under_the_way_to_it(
    a: HostType,
    b: HostType,
    v: Datum,
    entries: Seq<(Datum, Datum)>,
    i: int,
    path: Seq<char>,
)
    ensures
        disagreement(
            HostType::Option(Box::new(a)),
            Datum::Enum("Option"@, "Some"@, seq![v]),
            path,
        ) == disagreement(a, v, path + "Some(_)"@),
        disagreement(
            HostType::Result(Box::new(a), Box::new(b)),
            Datum::Enum("Result"@, "Ok"@, seq![v]),
            path,
        ) == disagreement(a, v, path + "Ok(_)"@),
        disagreement(
            HostType::Result(Box::new(a), Box::new(b)),
            Datum::Enum("Result"@, "Err"@, seq![v]),
            path,
        ) == disagreement(b, v, path + "Err(_)"@),
        0 <= i < entries.len() && disagreement(a, entries[i].0, Seq::empty()) is Some && (forall|
            j: int,
        |
            0 <= j < i ==> disagreement(a, (#[trigger] entries[j]).0, Seq::empty()) is None)
            ==> disagreement(
            HostType::MapOf(Box::new(a), Box::new(b)),
            Datum::MapOf(entries),
            path,
        ) == disagreement(
            a,
            entries[i].0,
            path + ".keys"@ + "["@ + crate::text::shown_int(i) + "]"@,
        ),
        0 <= i < entries.len() && disagreement(b, entries[i].1, Seq::empty()) is Some && (forall|
            j: int,
        |
            0 <= j < entries.len() ==> disagreement(
                a,
                (#[trigger] entries[j]).0,
                Seq::empty(),
            ) is None) && (forall|j: int|
            0 <= j < i ==> disagreement(b, (#[trigger] entries[j]).1, Seq::empty()) is None)
            ==> disagreement(
            HostType::MapOf(Box::new(a), Box::new(b)),
            Datum::MapOf(entries),
            path,
        ) == disagreement(b, entries[i].1, path + "["@ + crate::text::shown_int(i) + "]"@),
{
    reveal_strlit("Ok");
    reveal_strlit("Err");
    reveal_strlit("Some");
    reveal_strlit("None");
    assert("Ok"@.len() != "Err"@.len());
    assert("Some"@[0] != "None"@[0]);
    let keys = entries.map_values(|e: (Datum, Datum)| e.0);
    let held = entries.map_values(|e: (Datum, Datum)| e.1);
    if 0 <= i < entries.len() && disagreement(a, entries[i].0, Seq::empty()) is Some && (forall|
        j: int,
    |
        0 <= j < i ==> disagreement(a, (#[trigger] entries[j]).0, Seq::empty()) is None) {
        assert forall|j: int| 0 <= j < i implies disagreement(
            a,
            #[trigger] keys[j],
            Seq::empty(),
        ) is None by {
            assert(keys[j] == entries[j].0);
        }
        lemma_the_first_wrong_element(a, keys, 0, i, path + ".keys"@);
        a_value_keeps_to_a_type_wherever_it_stands(
            a,
            keys[i],
            element_path(path + ".keys"@, i),
            Seq::empty(),
        );
    }
    if 0 <= i < entries.len() && disagreement(b, entries[i].1, Seq::empty()) is Some && (forall|
        j: int,
    |
        0 <= j < entries.len() ==> disagreement(a, (#[trigger] entries[j]).0, Seq::empty()) is None)
        && (forall|j: int|
        0 <= j < i ==> disagreement(b, (#[trigger] entries[j]).1, Seq::empty()) is None) {
        assert forall|j: int| 0 <= j < keys.len() implies disagreement(
            a,
            #[trigger] keys[j],
            Seq::empty(),
        ) is None by {
            assert(keys[j] == entries[j].0);
        }
        lemma_items_keep(a, keys, 0, path + ".keys"@);
        assert forall|j: int| 0 <= j < i implies disagreement(
            b,
            #[trigger] held[j],
            Seq::empty(),
        ) is None by {
            assert(held[j] == entries[j].1);
        }
        lemma_the_first_wrong_element(b, held, 0, i, path);
    }
}

/// A disagreement is reported with what stands there, where, and what was
/// declared: of an argument by its position, and of an answer as such.
pub proof fn a_disagreement_says_what_stands_where(
    what: Disagreement,
    shown: Seq<char>,
    position: usize,
)
    ensures
        what.path.len() == 0 ==> complaint(what, shown, Part::Argument(position)) == "`"@ + shown
            + "` was given `"@ + what.found + "` as argument "@ + crate::text::digits(
            position as nat,
        ) + ", but its schema declares `"@ + what.declared + "` there"@,
        what.path.len() > 0 ==> complaint(what, shown, Part::Argument(position)) == "`"@ + shown
            + "` was given `"@ + what.found + "` at `"@ + what.path + "` of argument "@
            + crate::text::digits(position as nat) + ", but its schema declares `"@ + what.declared
            + "` there"@,
        what.path.len() == 0 ==> complaint(what, shown, Part::Result) == "`"@ + shown
            + "` answered `"@ + what.found + "`, but its schema declares `"@ + what.declared + "`"@,
        what.path.len() > 0 ==> complaint(what, shown, Part::Result) == "`"@ + shown
            + "` answered `"@ + what.found + "` at `"@ + what.path
            + "` of its result, but its schema declares `"@ + what.declared + "` there"@,
{
}

} // verus!
