//! `console`: lines of text on two streams.
use crate::error::RuntimeError;
use crate::host::{Asked, HostApi};
use crate::schema::ModuleSchema;
use crate::text::{joined, same};
use crate::value::Value;
use vstd::prelude::*;
use vstd::string::*;

verus! {

/// One text a sink was given, and what it answered.
pub ghost struct Put {
    pub text: Seq<char>,
    pub result: Result<(), String>,
}

/// What a sink was given, if it keeps that, and one thing more.
pub open spec fn one_more(given: Option<Seq<Put>>, put: Put) -> Option<Seq<Put>> {
    match given {
        Some(before) => Some(before.push(put)),
        None => None,
    }
}

/// Where a stream's text goes. It is written whole and at once, or not, for a
/// reason.
///
/// A sink may keep what is written to it, and what it was given and answered,
/// where proofs can read it.
pub trait Sink {
    /// Everything written so far, if the sink keeps it.
    open spec fn holds(&self) -> Option<Seq<char>> {
        None
    }

    /// Every text the sink was given, and what it answered, if it keeps that.
    open spec fn given(&self) -> Option<Seq<Put>> {
        None
    }

    /// The sink takes whatever it is given.
    open spec fn takes_all(&self) -> bool {
        false
    }

    /// Writes a text, behind what is there.
    fn put(&mut self, text: &str) -> (result: Result<(), String>)
        ensures
            old(self).takes_all() ==> result is Ok && final(self).takes_all(),
            result is Ok ==> final(self).holds() == behind(old(self).holds(), text@),
            final(self).given() == one_more(old(self).given(), Put { text: text@, result }),
    ;
}

/// A text behind what is there, if that is kept.
pub open spec fn behind(kept: Option<Seq<char>>, text: Seq<char>) -> Option<Seq<char>> {
    match kept {
        Some(before) => Some(before + text),
        None => None,
    }
}

/// A sink that keeps what is written to it.
pub struct Buffer {
    text: String,
    given: Ghost<Seq<Put>>,
}

impl Buffer {
    /// A buffer with nothing in it.
    pub fn new() -> (buffer: Buffer)
        ensures
            buffer.holds() == Some(Seq::<char>::empty()),
            buffer.given() == Some(Seq::<Put>::empty()),
            buffer.takes_all(),
    {
        proof {
            reveal_strlit("");
            assert(""@ =~= Seq::<char>::empty());
        }
        Buffer { text: "".to_owned(), given: Ghost(Seq::empty()) }
    }

    /// What was written.
    pub fn text(&self) -> (text: &String)
        ensures
            self.holds() == Some(text@),
    {
        &self.text
    }
}

impl Sink for Buffer {
    closed spec fn holds(&self) -> Option<Seq<char>> {
        Some(self.text@)
    }

    closed spec fn given(&self) -> Option<Seq<Put>> {
        Some(self.given@)
    }

    open spec fn takes_all(&self) -> bool {
        true
    }

    /// Writes a text. There is always room for it.
    fn put(&mut self, text: &str) -> (result: Result<(), String>)
        ensures
            result is Ok,
    {
        self.text.append(text);
        let result: Result<(), String> = Ok(());
        self.given = Ghost(self.given@.push(Put { text: text@, result }));
        result
    }
}

/// `console`: what a program produces goes to one stream, and what it says
/// about that to another.
pub struct Console<O: Sink, E: Sink> {
    out: O,
    err: E,
    history: Ghost<Seq<Asked>>,
}

/// Which of the two streams.
#[derive(Clone, Copy, Debug, PartialEq, Eq, Structural)]
pub enum Stream {
    Output,
    Diagnostics,
}

/// What some values show as, with spaces between them.
pub open spec fn spaced(args: Seq<Value>, n: int) -> Seq<char>
    decreases n,
{
    if n <= 0 {
        Seq::empty()
    } else if n == 1 {
        crate::value::shown(args[0]@)
    } else {
        spaced(args, n - 1) + " "@ + crate::value::shown(args[n - 1]@)
    }
}

/// What an operation writes, and to which stream; and nothing where there is
/// no such operation.
pub open spec fn written(op: Seq<char>, args: Seq<Value>) -> Option<(Stream, Seq<char>)> {
    let text = spaced(args, args.len() as int);
    if op == "println"@ {
        Some((Stream::Output, text + "\n"@))
    } else if op == "print"@ {
        Some((Stream::Output, text))
    } else if op == "eprintln"@ {
        Some((Stream::Diagnostics, text + "\n"@))
    } else if op == "eprint"@ {
        Some((Stream::Diagnostics, text))
    } else {
        None
    }
}

/// What an operation writes, and to which stream.
pub fn wording(op: &str, args: &Vec<Value>) -> (write: Option<(Stream, String)>)
    ensures
        match write {
            Some((stream, text)) => written(op@, args@) == Some((stream, text@)),
            None => written(op@, args@) is None,
        },
{
    proof {
        reveal_strlit("");
        assert(""@ =~= Seq::<char>::empty());
        reveal_strlit("println");
        reveal_strlit("print");
        reveal_strlit("eprintln");
        reveal_strlit("eprint");
    }
    let mut text: String = "".to_owned();
    let mut i: usize = 0;
    while i < args.len()
        invariant
            i <= args@.len(),
            text@ == spaced(args@, i as int),
        decreases args@.len() - i,
    {
        if i > 0 {
            text.append(" ");
        }
        text.append(args[i].show().as_str());
        proof {
            assert(text@ =~= spaced(args@, i + 1));
        }
        i = i + 1;
    }
    if same(op, "println") {
        text.append("\n");
        Some((Stream::Output, text))
    } else if same(op, "print") {
        Some((Stream::Output, text))
    } else if same(op, "eprintln") {
        text.append("\n");
        Some((Stream::Diagnostics, text))
    } else if same(op, "eprint") {
        Some((Stream::Diagnostics, text))
    } else {
        None
    }
}

/// What a program is answered about a write.
pub fn answer(result: Result<(), String>) -> (value: Value)
    ensures
        value@ == (match result {
            Ok(_) => crate::value::ok_of(crate::value::Datum::Unit),
            Err(why) => crate::value::err_of(
                crate::value::error_of("console: "@ + why@),
            ),
        }),
{
    match result {
        Ok(_) => Value::ok(Value::Unit),
        Err(why) => {
            let mut message: String = "console: ".to_owned();
            message.append(why.as_str());
            Value::err(Value::error(message))
        },
    }
}

impl<O: Sink, E: Sink> Console<O, E> {
    /// The stream of what a program produces.
    pub closed spec fn out(self) -> O {
        self.out
    }

    /// The stream of what a program says about it.
    pub closed spec fn err(self) -> E {
        self.err
    }

    /// A console whose output goes to `out` and whose diagnostics go to `err`.
    pub fn new(out: O, err: E) -> (console: Console<O, E>)
        ensures
            console.out() == out,
            console.err() == err,
            console.asked() == Some(Seq::<Asked>::empty()),
    {
        Console { out, err, history: Ghost(Seq::empty()) }
    }
}

impl<O: Sink, E: Sink> HostApi for Console<O, E> {
    closed spec fn asked(&self) -> Option<Seq<Asked>> {
        Some(self.history@)
    }

    open spec fn declares(&self, schema: ModuleSchema) -> bool {
        crate::shipped::is_console(schema)
    }

    fn module_schema(&self) -> (schema: ModuleSchema) {
        crate::shipped::console_schema()
    }

    fn call(&mut self, op: &str, args: Vec<Value>) -> (result: Result<Value, RuntimeError>)
        ensures
            match written(op@, args@) {
                None => result is Err && result->Err_0@ == crate::error::failure(
                    "`console` has no operation `"@ + op@ + "`"@,
                ) && final(self).out() == old(self).out() && final(self).err() == old(self).err(),
                Some((stream, text)) => result is Ok && (exists|put: Result<(), String>|
                    result->Ok_0@ == #[trigger] told(put) && match stream {
                        Stream::Output => took(old(self).out(), final(self).out(), text, put),
                        Stream::Diagnostics => took(old(self).err(), final(self).err(), text, put),
                    }) && (stream == Stream::Output ==> final(self).err() == old(self).err())
                    && (stream == Stream::Diagnostics ==> final(self).out() == old(self).out()),
            },
    {
        let result = match wording(op, &args) {
            None => Err(RuntimeError::new(joined("`console` has no operation `", op, "`"))),
            Some((stream, text)) => {
                let put = match stream {
                    Stream::Output => self.out.put(text.as_str()),
                    Stream::Diagnostics => self.err.put(text.as_str()),
                };
                let ghost said = told(put);
                let value = answer(put);
                proof {
                    assert(value@ == said);
                }
                Ok(value)
            },
        };
        self.history = Ghost(
            self.history@.push(
                Asked { handle: None, op: op@, args: crate::value::data(args@), answer: result },
            ),
        );
        result
    }
}

/// The sink was given the text, once, and answered this; where it took it, what
/// it holds grew by it; and one that takes whatever it is given took it.
pub open spec fn took<S: Sink>(
    before: S,
    after: S,
    text: Seq<char>,
    result: Result<(), String>,
) -> bool {
    &&& after.given() == one_more(before.given(), Put { text, result })
    &&& result is Ok ==> after.holds() == behind(before.holds(), text)
    &&& before.takes_all() ==> result is Ok && after.takes_all()
}

/// What a program is answered about a write.
pub open spec fn told(result: Result<(), String>) -> crate::value::Datum {
    match result {
        Ok(_) => crate::value::ok_of(crate::value::Datum::Unit),
        Err(why) => crate::value::err_of(crate::value::error_of("console: "@ + why@)),
    }
}

/// A line is what would be written without one, and a line end; and what goes
/// to the one stream and to the other is the same text.
pub proof fn a_line_is_the_text_and_its_end(args: Seq<Value>)
    ensures
        written("print"@, args) matches Some(plain) && plain.0 == Stream::Output && {
            &&& written("println"@, args) == Some((Stream::Output, plain.1.push('\n')))
            &&& written("eprint"@, args) == Some((Stream::Diagnostics, plain.1))
            &&& written("eprintln"@, args) == Some((Stream::Diagnostics, plain.1.push('\n')))
        },
{
    reveal_strlit("println");
    reveal_strlit("print");
    reveal_strlit("eprintln");
    reveal_strlit("eprint");
    reveal_strlit("\n");
    assert("println"@.len() != "print"@.len());
    assert("eprintln"@.len() != "eprint"@.len());
    assert("eprint"@[0] != "print"@[0]);
    assert("eprint"@[0] != "println"@[0]);
    assert("eprintln"@[0] != "print"@[0]);
    assert("eprintln"@[0] != "println"@[0]);
    let text = spaced(args, args.len() as int);
    assert(text + "\n"@ =~= text.push('\n'));
}

/// Nothing else is written.
pub proof fn nothing_else_is_written(op: Seq<char>, args: Seq<Value>)
    requires
        op != "print"@,
        op != "println"@,
        op != "eprint"@,
        op != "eprintln"@,
    ensures
        written(op, args) is None,
{
}

/// What is written is what each value shows as, in order, with a space between
/// each and the next.
pub proof fn values_are_written_with_a_space_between_them(args: Seq<Value>, last: Value)
    ensures
        written("print"@, Seq::<Value>::empty()) == Some((Stream::Output, Seq::<char>::empty())),
        written("print"@, seq![last]) == Some((Stream::Output, crate::value::shown(last@))),
        args.len() > 0 ==> written("print"@, args.push(last)) == Some(
            (
                Stream::Output,
                (written("print"@, args)->0).1 + seq![' '] + crate::value::shown(last@),
            ),
        ),
{
    reveal_strlit("println");
    reveal_strlit("print");
    reveal_strlit(" ");
    assert("println"@.len() != "print"@.len());
    assert(" "@ =~= seq![' ']);
    lemma_spaced(args, args.push(last), args.len() as int);
}

proof fn lemma_spaced(a: Seq<Value>, b: Seq<Value>, n: int)
    requires
        n <= a.len(),
        n <= b.len(),
        forall|i: int| 0 <= i < n ==> #[trigger] a[i] == b[i],
    ensures
        spaced(a, n) == spaced(b, n),
    decreases n,
{
    if n > 0 {
        assert(a[n - 1] == b[n - 1]);
        assert(a[0] == b[0]);
        lemma_spaced(a, b, n - 1);
    }
}

/// What a stream takes stands behind what it took before, and nothing else of
/// it changes; a stream that takes whatever it is given took it.
pub proof fn what_is_written_stands_behind_what_was_there<S: Sink>(
    before: S,
    after: S,
    text: Seq<char>,
    result: Result<(), String>,
    kept: Seq<char>,
    puts: Seq<Put>,
)
    requires
        took(before, after, text, result),
    ensures
        result is Ok && before.holds() == Some(kept) ==> after.holds() == Some(kept + text),
        before.given() == Some(puts) ==> after.given() == Some(puts.push(Put { text, result })),
        before.takes_all() ==> result is Ok,
{
}

/// A write that was taken is answered with success, and one that was not with
/// an error that says why.
pub proof fn a_write_is_answered_as_it_went(why: String)
    ensures
        told(Ok(())) == crate::value::Datum::Enum(
            "Result"@,
            "Ok"@,
            seq![crate::value::Datum::Unit],
        ),
        told(Err(why)) == crate::value::Datum::Enum(
            "Result"@,
            "Err"@,
            seq![
                crate::value::Datum::Struct(
                    "Error"@,
                    seq![("message"@, crate::value::Datum::Str("console: "@ + why@))],
                ),
            ],
        ),
{
}

} // verus!
