//! Cove values as they stand outside a frame.
use crate::schema::ResourceSchema;
use crate::text::signed_decimal;
use vstd::prelude::*;
use vstd::string::*;

verus! {

/// The identity of one resource a host owns: a name, and no state.
///
/// `module` and `kind_name` say what kind of thing is named, `id` says which
/// one, and `task_safe` is the schema's answer copied onto the handle.
#[derive(Debug)]
pub struct ResourceHandle {
    /// The host module that issued this handle, such as `database`.
    pub module: String,
    /// The resource kind, such as `Connection`.
    pub kind_name: String,
    /// Which resource of that kind, unique among the ones this host issued.
    pub id: u64,
    /// Whether this handle may cross a task boundary.
    pub task_safe: bool,
}

/// A value that has left a frame, or has not entered one yet.
///
/// A float is its bit pattern and the text it shows as. A value that no
/// boundary may carry, such as a closure or a task, is known only by its type.
#[derive(Debug)]
pub enum Value {
    Unit,
    Bool(bool),
    Int(i64),
    Float { bits: u64, shown: String },
    Str(String),
    Duration(i64),
    Array(Vec<Value>),
    SetOf(Vec<Value>),
    MapOf(Vec<(Value, Value)>),
    Struct { kind_name: String, fields: Vec<(String, Value)> },
    Enum { kind_name: String, case: String, payload: Vec<Value> },
    Resource(ResourceHandle),
    Opaque(String),
}

/// A value, mathematically.
pub ghost enum Datum {
    Unit,
    Bool(bool),
    Int(int),
    Float(u64, Seq<char>),
    Str(Seq<char>),
    Duration(int),
    Array(Seq<Datum>),
    SetOf(Seq<Datum>),
    MapOf(Seq<(Datum, Datum)>),
    Struct(Seq<char>, Seq<(Seq<char>, Datum)>),
    Enum(Seq<char>, Seq<char>, Seq<Datum>),
    Resource(Seq<char>, Seq<char>, u64, bool),
    Opaque(Seq<char>),
}

/// The values of a list, mathematically.
pub open spec fn data(items: Seq<Value>) -> Seq<Datum> {
    Seq::new(items.len(), |i: int| items[i]@)
}

/// What a value is, mathematically.
pub open spec fn datum_of(value: Value) -> Datum
    decreases value,
{
    match value {
        Value::Unit => Datum::Unit,
        Value::Bool(b) => Datum::Bool(b),
        Value::Int(n) => Datum::Int(n as int),
        Value::Float { bits, shown } => Datum::Float(bits, shown@),
        Value::Str(text) => Datum::Str(text@),
        Value::Duration(n) => Datum::Duration(n as int),
        Value::Array(items) => Datum::Array(
            Seq::new(
                items@.len(),
                |i: int|
                    if 0 <= i < items@.len() {
                        datum_of(items@[i])
                    } else {
                        Datum::Unit
                    },
            ),
        ),
        Value::SetOf(items) => Datum::SetOf(
            Seq::new(
                items@.len(),
                |i: int|
                    if 0 <= i < items@.len() {
                        datum_of(items@[i])
                    } else {
                        Datum::Unit
                    },
            ),
        ),
        Value::MapOf(entries) => Datum::MapOf(
            Seq::new(
                entries@.len(),
                |i: int|
                    if 0 <= i < entries@.len() {
                        (datum_of(entries@[i].0), datum_of(entries@[i].1))
                    } else {
                        (Datum::Unit, Datum::Unit)
                    },
            ),
        ),
        Value::Struct { kind_name, fields } => Datum::Struct(
            kind_name@,
            Seq::new(
                fields@.len(),
                |i: int|
                    if 0 <= i < fields@.len() {
                        (fields@[i].0@, datum_of(fields@[i].1))
                    } else {
                        (Seq::empty(), Datum::Unit)
                    },
            ),
        ),
        Value::Enum { kind_name, case, payload } => Datum::Enum(
            kind_name@,
            case@,
            Seq::new(
                payload@.len(),
                |i: int|
                    if 0 <= i < payload@.len() {
                        datum_of(payload@[i])
                    } else {
                        Datum::Unit
                    },
            ),
        ),
        Value::Resource(handle) => Datum::Resource(
            handle.module@,
            handle.kind_name@,
            handle.id,
            handle.task_safe,
        ),
        Value::Opaque(name) => Datum::Opaque(name@),
    }
}

impl View for Value {
    type V = Datum;

    open spec fn view(&self) -> Datum {
        datum_of(*self)
    }
}

/// `Ok` of a value.
pub open spec fn ok_of(v: Datum) -> Datum {
    Datum::Enum("Result"@, "Ok"@, seq![v])
}

/// `Err` of a value.
pub open spec fn err_of(v: Datum) -> Datum {
    Datum::Enum("Result"@, "Err"@, seq![v])
}

/// `Some` of a value.
pub open spec fn some_of(v: Datum) -> Datum {
    Datum::Enum("Option"@, "Some"@, seq![v])
}

/// `None`.
pub open spec fn none_of() -> Datum {
    Datum::Enum("Option"@, "None"@, Seq::empty())
}

/// The builtin `Error` carrying a message.
pub open spec fn error_of(message: Seq<char>) -> Datum {
    Datum::Struct("Error"@, seq![("message"@, Datum::Str(message))])
}

/// The type of a value, as a diagnostic names it.
pub open spec fn kind_of(v: Datum) -> Seq<char> {
    match v {
        Datum::Unit => "Unit"@,
        Datum::Bool(_) => "Bool"@,
        Datum::Int(_) => "Int"@,
        Datum::Float(_, _) => "Float"@,
        Datum::Str(_) => "String"@,
        Datum::Duration(_) => "Duration"@,
        Datum::Array(_) => "Array"@,
        Datum::SetOf(_) => "Set"@,
        Datum::MapOf(_) => "Map"@,
        Datum::Struct(name, _) => name,
        Datum::Enum(name, _, _) => name,
        Datum::Resource(module, kind, _, _) => module + "."@ + kind,
        Datum::Opaque(name) => name,
    }
}

/// What a value shows as.
pub open spec fn shown(v: Datum) -> Seq<char>
    decreases v, 0int,
{
    match v {
        Datum::Unit => "()"@,
        Datum::Bool(b) => if b {
            "true"@
        } else {
            "false"@
        },
        Datum::Int(n) => crate::text::shown_int(n),
        Datum::Float(_, text) => text,
        Datum::Str(text) => text,
        Datum::Duration(n) => crate::text::shown_int(n) + "ns"@,
        Datum::Array(items) => "["@ + shown_items(items, items.len() as int) + "]"@,
        Datum::SetOf(items) => "{"@ + shown_items(items, items.len() as int) + "}"@,
        Datum::MapOf(entries) => "{"@ + shown_entries(entries, entries.len() as int) + "}"@,
        Datum::Struct(name, fields) => if name == "Error"@ && fields.len() == 1 && fields[0].1 is Str {
            fields[0].1->Str_0
        } else {
            name + "("@ + shown_fields(fields, fields.len() as int) + ")"@
        },
        Datum::Enum(_, case, payload) => if payload.len() == 0 {
            case
        } else {
            case + "("@ + shown_items(payload, payload.len() as int) + ")"@
        },
        Datum::Resource(_, _, id, _) => kind_of(v) + "#"@ + crate::text::shown_int(id as int),
        Datum::Opaque(name) => name,
    }
}

/// The first `n` values of a list, shown with commas between them.
pub open spec fn shown_items(items: Seq<Datum>, n: int) -> Seq<char>
    decreases items, n,
{
    if n <= 0 || n > items.len() {
        Seq::empty()
    } else if n == 1 {
        shown(items[0])
    } else {
        shown_items(items, n - 1) + ", "@ + shown(items[n - 1])
    }
}

/// The first `n` entries of a map, shown with commas between them.
pub open spec fn shown_entries(entries: Seq<(Datum, Datum)>, n: int) -> Seq<char>
    decreases entries, n,
{
    if n <= 0 || n > entries.len() {
        Seq::empty()
    } else {
        let entry = entries[n - 1];
        let text = shown(entry.0) + ": "@ + shown(entry.1);
        if n == 1 {
            text
        } else {
            shown_entries(entries, n - 1) + ", "@ + text
        }
    }
}

/// The first `n` fields of a struct, shown with commas between them.
pub open spec fn shown_fields(fields: Seq<(Seq<char>, Datum)>, n: int) -> Seq<char>
    decreases fields, n,
{
    if n <= 0 || n > fields.len() {
        Seq::empty()
    } else {
        let field = fields[n - 1];
        let text = field.0 + ": "@ + shown(field.1);
        if n == 1 {
            text
        } else {
            shown_fields(fields, n - 1) + ", "@ + text
        }
    }
}

/// The parts of a list, a set or an enum case are its items' own values.
pub proof fn lemma_items(v: Value, items: Vec<Value>)
    ensures
        v == Value::Array(items) ==> v@ == Datum::Array(data(items@)),
        v == Value::SetOf(items) ==> v@ == Datum::SetOf(data(items@)),
        v is Enum && v->payload == items ==> v@ == Datum::Enum(
            v->Enum_kind_name@,
            v->case@,
            data(items@),
        ),
{
    if v == Value::Array(items) {
        assert(v@->Array_0 =~= data(items@));
    }
    if v == Value::SetOf(items) {
        assert(v@->SetOf_0 =~= data(items@));
    }
    if v is Enum && v->payload == items {
        assert(v@->Enum_2 =~= data(items@));
    }
}

impl ResourceHandle {
    /// Issues a handle for resource `id` of kind `resource` in `module`.
    pub fn new(module: &str, resource: &ResourceSchema, id: u64) -> (handle: ResourceHandle)
        ensures
            handle.module@ == module@,
            handle.kind_name@ == resource.name@,
            handle.id == id,
            handle.task_safe == resource.task_safe,
    {
        ResourceHandle {
            module: module.to_owned(),
            kind_name: resource.name.clone(),
            id,
            task_safe: resource.task_safe,
        }
    }

    /// The type as Cove source writes it: `database.Connection`.
    pub fn qualified_type(&self) -> (text: String)
        ensures
            text@ == self.module@ + "."@ + self.kind_name@,
    {
        crate::text::joined(self.module.as_str(), ".", self.kind_name.as_str())
    }

    /// Whether two handles name the same resource.
    pub fn names_same(&self, other: &ResourceHandle) -> (yes: bool)
        ensures
            yes == (self.module@ == other.module@ && self.kind_name@ == other.kind_name@ && self.id
                == other.id),
    {
        self.module == other.module && self.kind_name == other.kind_name && self.id == other.id
    }

    /// A handle shows as the name it is: the type, and which one.
    pub fn show(&self) -> (text: String)
        ensures
            text@ == self.module@ + "."@ + self.kind_name@ + "#"@ + crate::text::shown_int(self.id as int),
    {
        let mut text: String = self.qualified_type();
        text.append("#");
        text.append(crate::text::decimal(self.id).as_str());
        text
    }

    /// The same name again.
    pub fn copy(&self) -> (handle: ResourceHandle)
        ensures
            handle.module@ == self.module@,
            handle.kind_name@ == self.kind_name@,
            handle.id == self.id,
            handle.task_safe == self.task_safe,
    {
        ResourceHandle {
            module: self.module.clone(),
            kind_name: self.kind_name.clone(),
            id: self.id,
            task_safe: self.task_safe,
        }
    }
}

impl Value {
    /// `Ok` of a value.
    pub fn ok(value: Value) -> (r: Value)
        ensures
            r@ == ok_of(value@),
    {
        let mut payload: Vec<Value> = Vec::new();
        payload.push(value);
        let r = Value::Enum { kind_name: "Result".to_owned(), case: "Ok".to_owned(), payload };
        proof {
            assert(r@->Enum_2 =~= seq![value@]);
        }
        r
    }

    /// `Err` of a value.
    pub fn err(value: Value) -> (r: Value)
        ensures
            r@ == err_of(value@),
    {
        let mut payload: Vec<Value> = Vec::new();
        payload.push(value);
        let r = Value::Enum { kind_name: "Result".to_owned(), case: "Err".to_owned(), payload };
        proof {
            assert(r@->Enum_2 =~= seq![value@]);
        }
        r
    }

    /// `Some` of a value.
    pub fn some(value: Value) -> (r: Value)
        ensures
            r@ == some_of(value@),
    {
        let mut payload: Vec<Value> = Vec::new();
        payload.push(value);
        let r = Value::Enum { kind_name: "Option".to_owned(), case: "Some".to_owned(), payload };
        proof {
            assert(r@->Enum_2 =~= seq![value@]);
        }
        r
    }

    /// `None`.
    pub fn none() -> (r: Value)
        ensures
            r@ == none_of(),
    {
        let payload: Vec<Value> = Vec::new();
        let r = Value::Enum { kind_name: "Option".to_owned(), case: "None".to_owned(), payload };
        proof {
            assert(r@->Enum_2 =~= Seq::<Datum>::empty());
        }
        r
    }

    /// The builtin `Error` carrying a message.
    pub fn error(message: String) -> (r: Value)
        ensures
            r@ == error_of(message@),
    {
        let mut fields: Vec<(String, Value)> = Vec::new();
        let ghost said = message@;
        let field = Value::Str(message);
        proof {
            assert(field@ == Datum::Str(said));
        }
        fields.push(("message".to_owned(), field));
        let r = Value::Struct { kind_name: "Error".to_owned(), fields };
        proof {
            assert(r@->Struct_1 =~= seq![("message"@, Datum::Str(said))]);
        }
        r
    }

    /// The same value again.
    pub fn copy(&self) -> (value: Value)
        ensures
            value@ == self@,
        decreases self,
    {
        match self {
            Value::Unit => Value::Unit,
            Value::Bool(b) => Value::Bool(*b),
            Value::Int(n) => Value::Int(*n),
            Value::Float { bits, shown } => Value::Float { bits: *bits, shown: shown.clone() },
            Value::Str(text) => Value::Str(text.clone()),
            Value::Duration(n) => Value::Duration(*n),
            Value::Array(items) => {
                let copies: Vec<Value> = copy_all(items);
                let value = Value::Array(copies);
                proof {
                    lemma_items(*self, *items);
                    lemma_items(value, copies);
                }
                value
            },
            Value::SetOf(items) => {
                let copies: Vec<Value> = copy_all(items);
                let value = Value::SetOf(copies);
                proof {
                    lemma_items(*self, *items);
                    lemma_items(value, copies);
                }
                value
            },
            Value::MapOf(entries) => {
                let mut copies: Vec<(Value, Value)> = Vec::new();
                let mut i: usize = 0;
                while i < entries.len()
                    invariant
                        i <= entries@.len(),
                        *self == Value::MapOf(*entries),
                        copies@.len() == i,
                        forall|j: int|
                            0 <= j < i ==> (#[trigger] copies@[j]).0@ == entries@[j].0@
                                && copies@[j].1@ == entries@[j].1@,
                    decreases entries@.len() - i,
                {
                    proof {
                        assert(self->MapOf_0 == *entries);
                        assert(decreases_to!(self => self->MapOf_0@[i as int].0));
                        assert(decreases_to!(self => self->MapOf_0@[i as int].1));
                    }
                    let key = entries[i].0.copy();
                    let entry = entries[i].1.copy();
                    copies.push((key, entry));
                    i = i + 1;
                }
                let value = Value::MapOf(copies);
                proof {
                    assert(value@->MapOf_0 =~= self@->MapOf_0);
                }
                value
            },
            Value::Struct { kind_name, fields } => {
                let mut copies: Vec<(String, Value)> = Vec::new();
                let mut i: usize = 0;
                while i < fields.len()
                    invariant
                        i <= fields@.len(),
                        *self == (Value::Struct { kind_name: *kind_name, fields: *fields }),
                        copies@.len() == i,
                        forall|j: int|
                            0 <= j < i ==> (#[trigger] copies@[j]).0@ == fields@[j].0@
                                && copies@[j].1@ == fields@[j].1@,
                    decreases fields@.len() - i,
                {
                    proof {
                        assert(self->fields == *fields);
                        assert(decreases_to!(self => self->fields@[i as int].1));
                    }
                    let name = fields[i].0.clone();
                    let field = fields[i].1.copy();
                    copies.push((name, field));
                    i = i + 1;
                }
                let value = Value::Struct { kind_name: kind_name.clone(), fields: copies };
                proof {
                    assert(value@->Struct_1 =~= self@->Struct_1);
                }
                value
            },
            Value::Enum { kind_name, case, payload } => {
                let copies: Vec<Value> = copy_all(payload);
                let value = Value::Enum {
                    kind_name: kind_name.clone(),
                    case: case.clone(),
                    payload: copies,
                };
                proof {
                    lemma_items(*self, *payload);
                    lemma_items(value, copies);
                }
                value
            },
            Value::Resource(handle) => Value::Resource(handle.copy()),
            Value::Opaque(name) => Value::Opaque(name.clone()),
        }
    }

    /// The type of a value, as a diagnostic names it.
    pub fn type_text(&self) -> (text: String)
        ensures
            text@ == kind_of(self@),
    {
        match self {
            Value::Unit => "Unit".to_owned(),
            Value::Bool(_) => "Bool".to_owned(),
            Value::Int(_) => "Int".to_owned(),
            Value::Float { .. } => "Float".to_owned(),
            Value::Str(_) => "String".to_owned(),
            Value::Duration(_) => "Duration".to_owned(),
            Value::Array(_) => "Array".to_owned(),
            Value::SetOf(_) => "Set".to_owned(),
            Value::MapOf(_) => "Map".to_owned(),
            Value::Struct { kind_name, .. } => kind_name.clone(),
            Value::Enum { kind_name, .. } => kind_name.clone(),
            Value::Resource(handle) => handle.qualified_type(),
            Value::Opaque(name) => name.clone(),
        }
    }

    /// What a value shows as.
    pub fn show(&self) -> (text: String)
        ensures
            text@ == shown(self@),
        decreases self,
    {
        match self {
            Value::Unit => "()".to_owned(),
            Value::Bool(b) => if *b {
                "true".to_owned()
            } else {
                "false".to_owned()
            },
            Value::Int(n) => signed_decimal(*n),
            Value::Float { bits: _, shown } => shown.clone(),
            Value::Str(text) => text.clone(),
            Value::Duration(n) => {
                let mut text: String = signed_decimal(*n);
                text.append("ns");
                text
            },
            Value::Array(items) => {
                let mut text: String = "[".to_owned();
                text.append(Self::show_items(items).as_str());
                text.append("]");
                proof {
                    lemma_items(*self, *items);
                }
                text
            },
            Value::SetOf(items) => {
                let mut text: String = "{".to_owned();
                text.append(Self::show_items(items).as_str());
                text.append("}");
                proof {
                    lemma_items(*self, *items);
                }
                text
            },
            Value::MapOf(entries) => {
                let mut text: String = "{".to_owned();
                let ghost all = self@->MapOf_0;
                let mut at: usize = 0;
                while at < entries.len()
                    invariant
                        at <= entries@.len(),
                        all.len() == entries@.len(),
                        forall|i: int|
                            0 <= i < all.len() ==> #[trigger] all[i] == (
                                entries@[i].0@,
                                entries@[i].1@,
                            ),
                        text@ == "{"@ + shown_entries(all, at as int),
                        decreases_to!(self => entries@),
                    decreases entries@.len() - at,
                {
                    let ghost before = text@;
                    if at > 0 {
                        text.append(", ");
                    }
                    text.append(entries[at].0.show().as_str());
                    text.append(": ");
                    text.append(entries[at].1.show().as_str());
                    at = at + 1;
                    proof {
                        assert(all[at - 1] == (entries@[at - 1].0@, entries@[at - 1].1@));
                        if at == 1 {
                            assert(text@ =~= "{"@ + shown_entries(all, at as int));
                        } else {
                            assert(text@ =~= "{"@ + shown_entries(all, at as int));
                        }
                    }
                }
                text.append("}");
                text
            },
            Value::Struct { kind_name, fields } => {
                let ghost all = self@->Struct_1;
                if fields.len() == 1 && crate::text::same(kind_name.as_str(), "Error") {
                    if let Value::Str(message) = &fields[0].1 {
                        proof {
                            assert(fields@[0].1@ == Datum::Str(message@));
                            assert(all[0] == (fields@[0].0@, fields@[0].1@));
                        }
                        return message.clone();
                    }
                }
                let mut text: String = kind_name.clone();
                text.append("(");
                let ghost open = text@;
                let mut at: usize = 0;
                while at < fields.len()
                    invariant
                        at <= fields@.len(),
                        all.len() == fields@.len(),
                        forall|i: int|
                            0 <= i < all.len() ==> #[trigger] all[i] == (
                                fields@[i].0@,
                                fields@[i].1@,
                            ),
                        text@ == open + shown_fields(all, at as int),
                        decreases_to!(self => fields@),
                    decreases fields@.len() - at,
                {
                    if at > 0 {
                        text.append(", ");
                    }
                    text.append(fields[at].0.as_str());
                    text.append(": ");
                    text.append(fields[at].1.show().as_str());
                    at = at + 1;
                    proof {
                        assert(all[at - 1] == (fields@[at - 1].0@, fields@[at - 1].1@));
                        assert(text@ =~= open + shown_fields(all, at as int));
                    }
                }
                text.append(")");
                text
            },
            Value::Enum { kind_name: _, case, payload } => {
                proof {
                    lemma_items(*self, *payload);
                }
                if payload.len() == 0 {
                    case.clone()
                } else {
                    let mut text: String = case.clone();
                    text.append("(");
                    text.append(Self::show_items(payload).as_str());
                    text.append(")");
                    text
                }
            },
            Value::Resource(handle) => handle.show(),
            Value::Opaque(name) => name.clone(),
        }
    }

    /// A list of values, shown with commas between them.
    fn show_items(items: &Vec<Value>) -> (text: String)
        ensures
            text@ == shown_items(data(items@), items@.len() as int),
        decreases items,
    {
        let mut text: String = "".to_owned();
        let ghost all = data(items@);
        proof {
            reveal_strlit("");
            assert(text@ =~= Seq::<char>::empty());
        }
        let mut at: usize = 0;
        while at < items.len()
            invariant
                at <= items@.len(),
                all == data(items@),
                text@ == shown_items(all, at as int),
            decreases items@.len() - at,
        {
            if at > 0 {
                text.append(", ");
            }
            text.append(items[at].show().as_str());
            at = at + 1;
            proof {
                assert(all[at - 1] == items@[at - 1]@);
                assert(text@ =~= shown_items(all, at as int));
            }
        }
        text
    }
}

/// The same values again.
pub fn copy_all(items: &Vec<Value>) -> (copies: Vec<Value>)
    ensures
        data(copies@) == data(items@),
    decreases items,
{
    let mut copies: Vec<Value> = Vec::new();
    let mut i: usize = 0;
    while i < items.len()
        invariant
            i <= items@.len(),
            copies@.len() == i,
            forall|j: int| 0 <= j < i ==> (#[trigger] copies@[j])@ == items@[j]@,
        decreases items@.len() - i,
    {
        proof {
            assert(decreases_to!(items => items@));
            assert(decreases_to!(items@ => items@[i as int]));
        }
        let item = items[i].copy();
        copies.push(item);
        i = i + 1;
    }
    proof {
        assert(data(copies@) =~= data(items@));
    }
    copies
}

/// What has no parts shows as itself.
pub proof fn what_has_no_parts_shows_as_itself(
    n: int,
    bits: u64,
    text: Seq<char>,
    module: Seq<char>,
    kind: Seq<char>,
    id: u64,
    safe: bool,
)
    ensures
        shown(Datum::Unit) == "()"@,
        shown(Datum::Bool(true)) == "true"@,
        shown(Datum::Bool(false)) == "false"@,
        shown(Datum::Int(n)) == crate::text::shown_int(n),
        shown(Datum::Float(bits, text)) == text,
        shown(Datum::Str(text)) == text,
        shown(Datum::Duration(n)) == crate::text::shown_int(n) + "ns"@,
        shown(Datum::Opaque(text)) == text,
        shown(Datum::Resource(module, kind, id, safe)) == module + "."@ + kind + "#"@
            + crate::text::shown_int(id as int),
{
}

proof fn lemma_items_before(a: Seq<Datum>, b: Seq<Datum>, n: int)
    requires
        n <= a.len(),
        n <= b.len(),
        forall|i: int| 0 <= i < n ==> #[trigger] a[i] == b[i],
    ensures
        shown_items(a, n) == shown_items(b, n),
    decreases n,
{
    if n > 0 {
        assert(a[n - 1] == b[n - 1]);
        assert(a[0] == b[0]);
        lemma_items_before(a, b, n - 1);
    }
}

proof fn lemma_entries_before(a: Seq<(Datum, Datum)>, b: Seq<(Datum, Datum)>, n: int)
    requires
        n <= a.len(),
        n <= b.len(),
        forall|i: int| 0 <= i < n ==> #[trigger] a[i] == b[i],
    ensures
        shown_entries(a, n) == shown_entries(b, n),
    decreases n,
{
    if n > 0 {
        assert(a[n - 1] == b[n - 1]);
        lemma_entries_before(a, b, n - 1);
    }
}

proof fn lemma_fields_before(a: Seq<(Seq<char>, Datum)>, b: Seq<(Seq<char>, Datum)>, n: int)
    requires
        n <= a.len(),
        n <= b.len(),
        forall|i: int| 0 <= i < n ==> #[trigger] a[i] == b[i],
    ensures
        shown_fields(a, n) == shown_fields(b, n),
    decreases n,
{
    if n > 0 {
        assert(a[n - 1] == b[n - 1]);
        lemma_fields_before(a, b, n - 1);
    }
}

/// A list shows each of its values in order, with a comma and a space between
/// each and the next, and so do a set and the payload of a case, each between
/// its own marks; a case without a payload shows as its name.
pub proof fn what_is_listed_shows_in_order(
    items: Seq<Datum>,
    last: Datum,
    ty: Seq<char>,
    case: Seq<char>,
)
    ensures
        shown(Datum::Array(Seq::empty())) == "[]"@,
        shown(Datum::SetOf(Seq::empty())) == "{}"@,
        shown(Datum::Enum(ty, case, Seq::empty())) == case,
        shown(Datum::Array(seq![last])) == "["@ + shown(last) + "]"@,
        shown(Datum::SetOf(seq![last])) == "{"@ + shown(last) + "}"@,
        shown(Datum::Enum(ty, case, seq![last])) == case + "("@ + shown(last) + ")"@,
        items.len() > 0 ==> {
            let inside = shown_items(items, items.len() as int) + ", "@ + shown(last);
            &&& shown(Datum::Array(items.push(last))) == "["@ + inside + "]"@
            &&& shown(Datum::SetOf(items.push(last))) == "{"@ + inside + "}"@
            &&& shown(Datum::Enum(ty, case, items.push(last))) == case + "("@ + inside + ")"@
            &&& shown(Datum::Array(items)) == "["@ + shown_items(items, items.len() as int) + "]"@
        },
{
    reveal_strlit("[]");
    reveal_strlit("{}");
    reveal_strlit("[");
    reveal_strlit("]");
    reveal_strlit("{");
    reveal_strlit("}");
    assert("["@ + Seq::<char>::empty() + "]"@ =~= "[]"@);
    assert("{"@ + Seq::<char>::empty() + "}"@ =~= "{}"@);
    let more = items.push(last);
    lemma_items_before(items, more, items.len() as int);
    if items.len() > 0 {
        assert(shown_items(more, more.len() as int) == shown_items(items, items.len() as int)
            + ", "@ + shown(last));
    }
}

/// A map shows each key, a colon and what it holds, and a struct each field the
/// same way after its name, with commas between them; an `Error` of one text
/// shows as that text.
pub proof fn what_is_named_shows_with_its_name(
    entries: Seq<(Datum, Datum)>,
    entry: (Datum, Datum),
    fields: Seq<(Seq<char>, Datum)>,
    field: (Seq<char>, Datum),
    ty: Seq<char>,
    message: Seq<char>,
)
    ensures
        shown(Datum::MapOf(Seq::empty())) == "{}"@,
        shown(Datum::MapOf(seq![entry])) == "{"@ + (shown(entry.0) + ": "@ + shown(entry.1)) + "}"@,
        entries.len() > 0 ==> shown(Datum::MapOf(entries.push(entry))) == "{"@ + (shown_entries(
            entries,
            entries.len() as int,
        ) + ", "@ + (shown(entry.0) + ": "@ + shown(entry.1))) + "}"@,
        ty != "Error"@ ==> shown(Datum::Struct(ty, seq![field])) == ty + "("@ + (field.0 + ": "@
            + shown(field.1)) + ")"@,
        fields.len() > 0 ==> shown(Datum::Struct(ty, fields.push(field))) == ty + "("@ + (
        shown_fields(fields, fields.len() as int) + ", "@ + (field.0 + ": "@ + shown(field.1)))
            + ")"@,
        shown(Datum::Struct("Error"@, seq![(ty, Datum::Str(message))])) == message,
        shown(Datum::Struct(ty, Seq::empty())) == ty + "("@ + ")"@,
{
    assert(ty + "("@ + Seq::<char>::empty() + ")"@ =~= ty + "("@ + ")"@);
    reveal_strlit("{}");
    reveal_strlit("{");
    reveal_strlit("}");
    assert("{"@ + Seq::<char>::empty() + "}"@ =~= "{}"@);
    lemma_entries_before(entries, entries.push(entry), entries.len() as int);
    lemma_fields_before(fields, fields.push(field), fields.len() as int);
    if entries.len() > 0 {
        let more = entries.push(entry);
        assert(more[more.len() - 1] == entry);
        assert(shown_entries(more, more.len() as int) == shown_entries(
            entries,
            entries.len() as int,
        ) + ", "@ + (shown(entry.0) + ": "@ + shown(entry.1)));
    }
    if fields.len() > 0 {
        let more = fields.push(field);
        assert(more[more.len() - 1] == field);
        assert(shown_fields(more, more.len() as int) == shown_fields(fields, fields.len() as int)
            + ", "@ + (field.0 + ": "@ + shown(field.1)));
    }
}

/// A success and a failure are cases of `Result`, what is there and what is not
/// cases of `Option`, and an error a struct of its message.
pub proof fn the_builtin_values_are_what_they_are_called(v: Datum, message: Seq<char>)
    ensures
        ok_of(v) == Datum::Enum("Result"@, "Ok"@, seq![v]),
        err_of(v) == Datum::Enum("Result"@, "Err"@, seq![v]),
        some_of(v) == Datum::Enum("Option"@, "Some"@, seq![v]),
        none_of() == Datum::Enum("Option"@, "None"@, Seq::empty()),
        error_of(message) == Datum::Struct("Error"@, seq![("message"@, Datum::Str(message))]),
        shown(error_of(message)) == message,
{
}

/// A value is called what its type is called.
pub proof fn a_value_is_called_what_its_type_is(
    b: bool,
    n: int,
    bits: u64,
    text: Seq<char>,
    other: Seq<char>,
    items: Seq<Datum>,
    entries: Seq<(Datum, Datum)>,
    fields: Seq<(Seq<char>, Datum)>,
    id: u64,
)
    ensures
        kind_of(Datum::Unit) == "Unit"@,
        kind_of(Datum::Bool(b)) == "Bool"@,
        kind_of(Datum::Int(n)) == "Int"@,
        kind_of(Datum::Float(bits, text)) == "Float"@,
        kind_of(Datum::Str(text)) == "String"@,
        kind_of(Datum::Duration(n)) == "Duration"@,
        kind_of(Datum::Array(items)) == "Array"@,
        kind_of(Datum::SetOf(items)) == "Set"@,
        kind_of(Datum::MapOf(entries)) == "Map"@,
        kind_of(Datum::Struct(text, fields)) == text,
        kind_of(Datum::Enum(text, other, items)) == text,
        kind_of(Datum::Resource(text, other, id, b)) == text + "."@ + other,
        kind_of(Datum::Opaque(text)) == text,
{
}

} // verus!
