//! `documents`: a fixed set of named texts, to be read and nothing else.
//!
//! Granting it never grants a disk. Where the documents are files below a
//! root, only a plain name is looked up, so no name leads anywhere else.
use crate::error::RuntimeError;
use crate::host::{Asked, HostApi};
use crate::names::Table;
use crate::paths::holds;
use crate::schema::ModuleSchema;
use crate::text::{joined, same};
use crate::value::{Datum, Value};
use vstd::prelude::*;
use vstd::string::*;

verus! {

#[derive(Debug)]
enum DocumentsSource {
    InMemory(Table),
    Rooted(String),
}

/// `documents`: a fixed set of named texts.
pub struct Documents {
    source: DocumentsSource,
    history: Ghost<Seq<Asked>>,
}

/// Where the documents are, mathematically.
pub ghost enum Shelf {
    InMemory(Map<Seq<char>, Seq<char>>),
    Rooted(Seq<char>),
}

impl View for Documents {
    type V = Shelf;

    closed spec fn view(&self) -> Shelf {
        match self.source {
            DocumentsSource::InMemory(table) => Shelf::InMemory(table@),
            DocumentsSource::Rooted(root) => Shelf::Rooted(root@),
        }
    }
}

/// Where a document is.
#[derive(Debug)]
pub enum Lookup {
    /// Its text.
    Text(String),
    /// There is none of that name.
    Missing,
    /// It is what the file of this name holds, below the root, if that can be
    /// read.
    File(String),
}

/// What is said of a name no document has.
pub open spec fn no_document(name: Seq<char>) -> Seq<char> {
    "no document named `"@ + name + "`"@
}

/// What a program is answered about a document.
pub open spec fn told(name: Seq<char>, text: Option<Seq<char>>) -> Datum {
    match text {
        Some(t) => crate::value::ok_of(Datum::Str(t)),
        None => crate::value::err_of(crate::value::error_of(no_document(name))),
    }
}

/// Whether a name is a single plain component, never a path that could lead
/// elsewhere.
pub fn is_plain_document_name(name: &str) -> (yes: bool)
    ensures
        yes == crate::paths::plain(name@),
{
    name.unicode_len() > 0 && !same(name, ".") && !same(name, "..") && !holds(name, '/') && !holds(
        name,
        '\\',
    ) && !holds(name, '\0')
}

/// What a program is answered about a document.
pub fn answer(name: &str, text: Option<String>) -> (value: Value)
    ensures
        value@ == told(
            name@,
            match text {
                Some(t) => Some(t@),
                None => None,
            },
        ),
{
    match text {
        Some(t) => Value::ok(Value::Str(t)),
        None => Value::err(Value::error(joined("no document named `", name, "`"))),
    }
}

impl Documents {
    /// Documents kept here, each under its name.
    pub fn in_memory(documents: Table) -> (it: Documents)
        ensures
            it@ == Shelf::InMemory(documents@),
            it.asked() == Some(Seq::<Asked>::empty()),
    {
        Documents { source: DocumentsSource::InMemory(documents), history: Ghost(Seq::empty()) }
    }

    /// Documents that are the files `<root>/<name>.txt`.
    pub fn rooted(root: String) -> (it: Documents)
        ensures
            it@ == Shelf::Rooted(root@),
            it.asked() == Some(Seq::<Asked>::empty()),
    {
        Documents { source: DocumentsSource::Rooted(root), history: Ghost(Seq::empty()) }
    }

    /// Where a document is. No file is named for a name that is not plain.
    pub fn read(&self, name: &str) -> (found: Lookup)
        ensures
            match self@ {
                Shelf::InMemory(table) => if table.contains_key(name@) {
                    found is Text && found->Text_0@ == table[name@]
                } else {
                    found is Missing
                },
                Shelf::Rooted(_) => if crate::paths::plain(name@) {
                    found is File && found->File_0@ == name@ + ".txt"@
                } else {
                    found is Missing
                },
            },
    {
        match &self.source {
            DocumentsSource::InMemory(table) => match table.get(name) {
                Some(text) => Lookup::Text(text.clone()),
                None => Lookup::Missing,
            },
            DocumentsSource::Rooted(_) => if is_plain_document_name(name) {
                let mut file: String = name.to_owned();
                file.append(".txt");
                Lookup::File(file)
            } else {
                Lookup::Missing
            },
        }
    }
}

/// What `documents` answers: the document, if there is one; or why it is not a
/// call `documents` takes; or that it takes a disk.
pub open spec fn answered(
    shelf: Shelf,
    op: Seq<char>,
    args: Seq<Value>,
    result: Result<Value, RuntimeError>,
) -> bool {
    if op != "read"@ {
        result is Err && result->Err_0@ == crate::error::failure(
            "`documents` has no operation `"@ + op + "`"@,
        )
    } else if args.len() == 1 && args[0] is Str {
        let name = args[0]->Str_0@;
        match shelf {
            Shelf::InMemory(table) => result is Ok && result->Ok_0@ == told(
                name,
                if table.contains_key(name) {
                    Some(table[name])
                } else {
                    None
                },
            ),
            Shelf::Rooted(_) => if crate::paths::plain(name) {
                result is Err && result->Err_0@ == crate::error::failure(
                    "`documents.read` needs the disk its documents are on"@,
                )
            } else {
                result is Ok && result->Ok_0@ == told(name, None)
            },
        }
    } else {
        result is Err && result->Err_0@ == crate::error::failure(
            "`documents.read` takes one `String` argument"@,
        )
    }
}

impl Documents {
    fn reply(&self, op: &str, args: &Vec<Value>) -> (result: Result<Value, RuntimeError>)
        ensures
            answered(self@, op@, args@, result),
    {
        if !same(op, "read") {
            return Err(RuntimeError::new(joined("`documents` has no operation `", op, "`")));
        }
        if args.len() == 1 {
            if let Value::Str(name) = &args[0] {
                let text: Option<String> = match self.read(name.as_str()) {
                    Lookup::Text(text) => Some(text),
                    Lookup::Missing => None,
                    Lookup::File(_) => {
                        return Err(
                            RuntimeError::new(
                                "`documents.read` needs the disk its documents are on".to_owned(),
                            ),
                        );
                    },
                };
                return Ok(answer(name.as_str(), text));
            }
        }
        Err(RuntimeError::new("`documents.read` takes one `String` argument".to_owned()))
    }
}

impl HostApi for Documents {
    closed spec fn asked(&self) -> Option<Seq<Asked>> {
        Some(self.history@)
    }

    open spec fn declares(&self, schema: ModuleSchema) -> bool {
        crate::shipped::is_documents(schema)
    }

    fn module_schema(&self) -> (schema: ModuleSchema) {
        crate::shipped::documents_schema()
    }

    /// Answers for documents kept here. A disk is not looked at here: what
    /// would need one is refused.
    fn call(&mut self, op: &str, args: Vec<Value>) -> (result: Result<Value, RuntimeError>)
        ensures
            final(self)@ == old(self)@,
            answered(old(self)@, op@, args@, result),
    {
        let result = self.reply(op, &args);
        self.history = Ghost(
            self.history@.push(
                Asked { handle: None, op: op@, args: crate::value::data(args@), answer: result },
            ),
        );
        result
    }
}

/// A document that is kept is answered with its text and any other with an
/// error that names it; and a name that is a path is no document on a disk.
pub proof fn a_document_is_answered_if_there_is_one(
    shelf: Shelf,
    name: String,
    result: Result<Value, RuntimeError>,
)
    requires
        answered(shelf, "read"@, seq![Value::Str(name)], result),
    ensures
        shelf matches Shelf::InMemory(table) ==> {
            &&& result is Ok
            &&& table.contains_key(name@) ==> result->Ok_0@ == Datum::Enum(
                "Result"@,
                "Ok"@,
                seq![Datum::Str(table[name@])],
            )
            &&& !table.contains_key(name@) ==> result->Ok_0@ == Datum::Enum(
                "Result"@,
                "Err"@,
                seq![
                    Datum::Struct(
                        "Error"@,
                        seq![("message"@, Datum::Str("no document named `"@ + name@ + "`"@))],
                    ),
                ],
            )
        },
        shelf is Rooted && (name@.contains('/') || name@.contains('\\') || name@.contains('\0')
            || name@.len() == 0 || name@ == "."@ || name@ == ".."@) ==> result is Ok
            && result->Ok_0@ == Datum::Enum(
            "Result"@,
            "Err"@,
            seq![
                Datum::Struct(
                    "Error"@,
                    seq![("message"@, Datum::Str("no document named `"@ + name@ + "`"@))],
                ),
            ],
        ),
{
}

} // verus!
