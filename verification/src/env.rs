//! `env`: the variables a host chooses to show.
use crate::error::RuntimeError;
use crate::host::{Asked, HostApi};
use crate::names::Table;
use crate::schema::ModuleSchema;
use crate::text::{joined, same};
use crate::value::{Datum, Value};
use vstd::prelude::*;
use vstd::string::*;

verus! {

/// `env`: the variables a host chooses to show, and no others.
pub struct Env {
    vars: Table,
    history: Ghost<Seq<Asked>>,
}

impl View for Env {
    type V = Map<Seq<char>, Seq<char>>;

    closed spec fn view(&self) -> Map<Seq<char>, Seq<char>> {
        self.vars@
    }
}

/// What `env` answers: the variable's value, if it has one; or why it is not a
/// call `env` takes.
pub open spec fn answered(
    vars: Map<Seq<char>, Seq<char>>,
    op: Seq<char>,
    args: Seq<Datum>,
) -> Result<Datum, Seq<char>> {
    if op != "get"@ {
        Err("`env` has no operation `"@ + op + "`"@)
    } else if args.len() == 1 && args[0] is Str {
        Ok(
            if vars.contains_key(args[0]->Str_0) {
                crate::value::some_of(Datum::Str(vars[args[0]->Str_0]))
            } else {
                crate::value::none_of()
            },
        )
    } else {
        Err("`env.get` takes one `String` argument"@)
    }
}

impl Env {
    /// An environment of the variables a host chooses to show.
    pub fn new(vars: Table) -> (env: Env)
        ensures
            env@ == vars@,
            env.asked() == Some(Seq::<Asked>::empty()),
    {
        Env { vars, history: Ghost(Seq::empty()) }
    }

    /// What the environment answers.
    fn answer(&self, op: &str, args: &Vec<Value>) -> (result: Result<Value, RuntimeError>)
        ensures
            match answered(self@, op@, crate::value::data(args@)) {
                Ok(value) => result is Ok && result->Ok_0@ == value,
                Err(message) => result is Err && result->Err_0@ == crate::error::failure(message),
            },
    {
        if !same(op, "get") {
            return Err(RuntimeError::new(joined("`env` has no operation `", op, "`")));
        }
        if args.len() == 1 {
            proof {
                assert(crate::value::data(args@)[0] == args@[0]@);
            }
            if let Value::Str(name) = &args[0] {
                return Ok(
                    match self.vars.get(name.as_str()) {
                        Some(value) => Value::some(Value::Str(value.clone())),
                        None => Value::none(),
                    },
                );
            }
        }
        Err(RuntimeError::new("`env.get` takes one `String` argument".to_owned()))
    }
}

impl HostApi for Env {
    closed spec fn asked(&self) -> Option<Seq<Asked>> {
        Some(self.history@)
    }

    open spec fn declares(&self, schema: ModuleSchema) -> bool {
        crate::shipped::is_env(schema)
    }

    fn module_schema(&self) -> (schema: ModuleSchema) {
        crate::shipped::env_schema()
    }

    fn call(&mut self, op: &str, args: Vec<Value>) -> (result: Result<Value, RuntimeError>)
        ensures
            final(self)@ == old(self)@,
            match answered(old(self)@, op@, crate::value::data(args@)) {
                Ok(value) => result is Ok && result->Ok_0@ == value,
                Err(message) => result is Err && result->Err_0@ == crate::error::failure(message),
            },
    {
        let result = self.answer(op, &args);
        self.history = Ghost(
            self.history@.push(
                Asked { handle: None, op: op@, args: crate::value::data(args@), answer: result },
            ),
        );
        result
    }
}

/// A variable that is shown is answered with its value, and any other with
/// nothing; and no other operation or argument is taken.
pub proof fn a_variable_is_answered_if_it_is_shown(
    vars: Map<Seq<char>, Seq<char>>,
    name: Seq<char>,
    op: Seq<char>,
    args: Seq<Datum>,
)
    ensures
        vars.contains_key(name) ==> answered(vars, "get"@, seq![Datum::Str(name)]) == Ok::<
            Datum,
            Seq<char>,
        >(Datum::Enum("Option"@, "Some"@, seq![Datum::Str(vars[name])])),
        !vars.contains_key(name) ==> answered(vars, "get"@, seq![Datum::Str(name)]) == Ok::<
            Datum,
            Seq<char>,
        >(Datum::Enum("Option"@, "None"@, Seq::empty())),
        answered(vars, op, args) is Ok <==> op == "get"@ && args.len() == 1 && args[0] is Str,
{
}

} // verus!
