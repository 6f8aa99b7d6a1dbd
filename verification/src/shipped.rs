//! What each host module of this library declares about itself.
use crate::schema::{Effect, HostType, ModuleSchema, OperationSchema};
use vstd::prelude::*;
use vstd::string::*;

verus! {

/// An operation declares just this. Whatever it answers is written down and
/// may cross a task boundary.
pub open spec fn declares(
    op: OperationSchema,
    name: Seq<char>,
    params: Seq<HostType>,
    variadic: bool,
    result: HostType,
    capability: Seq<char>,
    effect: Effect,
    cancellable: bool,
) -> bool {
    &&& op.name@ == name
    &&& op.params@ == params
    &&& op.variadic == variadic
    &&& op.result == result
    &&& op.capability@ == capability
    &&& op.effect == effect
    &&& op.cancellable == cancellable
    &&& op.recordable
    &&& op.result_is_task_safe
}

/// A module of this name and capability, with no types and no resources.
pub open spec fn plainly(schema: ModuleSchema, name: Seq<char>, capability: Seq<char>) -> bool {
    &&& schema.name@ == name
    &&& schema.capability@ == capability
    &&& schema.types@.len() == 0
    &&& schema.resources@.len() == 0
}

/// `Result` of a type, or an error.
pub open spec fn fallible(ok: HostType) -> HostType {
    HostType::Result(Box::new(ok), Box::new(HostType::Error))
}

/// What `console` declares: a line or a part of one, on either stream.
pub open spec fn is_console(schema: ModuleSchema) -> bool {
    let params = seq![HostType::Any];
    let result = fallible(HostType::Unit);
    let effect = Effect::IrreversibleWrite;
    &&& plainly(schema, "console"@, "console"@)
    &&& schema.operations@.len() == 4
    &&& declares(
        schema.operations@[0],
        "println"@,
        params,
        true,
        result,
        "console"@,
        effect,
        false,
    )
    &&& declares(schema.operations@[1], "print"@, params, true, result, "console"@, effect, false)
    &&& declares(
        schema.operations@[2],
        "eprintln"@,
        params,
        true,
        result,
        "console"@,
        effect,
        false,
    )
    &&& declares(schema.operations@[3], "eprint"@, params, true, result, "console"@, effect, false)
}

/// What `env` declares: the value of a variable.
pub open spec fn is_env(schema: ModuleSchema) -> bool {
    &&& plainly(schema, "env"@, "env"@)
    &&& schema.operations@.len() == 1
    &&& declares(
        schema.operations@[0],
        "get"@,
        seq![HostType::String],
        false,
        HostType::Option(Box::new(HostType::String)),
        "env"@,
        Effect::Read,
        true,
    )
}

/// What `documents` declares: the text of a document.
pub open spec fn is_documents(schema: ModuleSchema) -> bool {
    &&& plainly(schema, "documents"@, "documents"@)
    &&& schema.operations@.len() == 1
    &&& declares(
        schema.operations@[0],
        "read"@,
        seq![HostType::String],
        false,
        fallible(HostType::String),
        "documents"@,
        Effect::Read,
        true,
    )
}

/// What `files` declares. What only reads may be cancelled, and what writes
/// cannot be undone.
pub open spec fn is_files(schema: ModuleSchema) -> bool {
    let one = seq![HostType::String];
    let unit = fallible(HostType::Unit);
    &&& plainly(schema, "files"@, "files"@)
    &&& schema.operations@.len() == 5
    &&& declares(
        schema.operations@[0],
        "read"@,
        one,
        false,
        fallible(HostType::String),
        "files"@,
        Effect::Read,
        true,
    )
    &&& declares(
        schema.operations@[1],
        "write"@,
        seq![HostType::String, HostType::String],
        false,
        unit,
        "files"@,
        Effect::IrreversibleWrite,
        false,
    )
    &&& declares(
        schema.operations@[2],
        "exists"@,
        one,
        false,
        HostType::Bool,
        "files"@,
        Effect::Read,
        true,
    )
    &&& declares(
        schema.operations@[3],
        "list"@,
        one,
        false,
        fallible(HostType::Array(Box::new(HostType::String))),
        "files"@,
        Effect::Read,
        true,
    )
    &&& declares(
        schema.operations@[4],
        "delete"@,
        one,
        false,
        unit,
        "files"@,
        Effect::IrreversibleWrite,
        false,
    )
}

/// One operation.
fn operation(
    name: &str,
    params: Vec<HostType>,
    variadic: bool,
    result: HostType,
    capability: &str,
    effect: Effect,
) -> (op: OperationSchema)
    ensures
        declares(
            op,
            name@,
            params@,
            variadic,
            result,
            capability@,
            effect,
            effect == Effect::Read,
        ),
{
    let cancellable: bool = match effect {
        Effect::Read => true,
        _ => false,
    };
    OperationSchema {
        name: name.to_owned(),
        params,
        variadic,
        result,
        capability: capability.to_owned(),
        effect,
        cancellable,
        recordable: true,
        result_is_task_safe: true,
    }
}

/// One parameter.
fn one(ty: HostType) -> (params: Vec<HostType>)
    ensures
        params@ == seq![ty],
{
    let mut params: Vec<HostType> = Vec::new();
    params.push(ty);
    proof {
        assert(params@ =~= seq![ty]);
    }
    params
}

/// `Result` of a type, or an error.
fn or_error(ok: HostType) -> (ty: HostType)
    ensures
        ty == fallible(ok),
{
    HostType::Result(Box::new(ok), Box::new(HostType::Error))
}

/// What `console` declares.
pub fn console_schema() -> (schema: ModuleSchema)
    ensures
        is_console(schema),
{
    let effect = Effect::IrreversibleWrite;
    let mut operations: Vec<OperationSchema> = Vec::new();
    operations.push(
        operation(
            "println",
            one(HostType::Any),
            true,
            or_error(HostType::Unit),
            "console",
            effect,
        ),
    );
    operations.push(
        operation("print", one(HostType::Any), true, or_error(HostType::Unit), "console", effect),
    );
    operations.push(
        operation(
            "eprintln",
            one(HostType::Any),
            true,
            or_error(HostType::Unit),
            "console",
            effect,
        ),
    );
    operations.push(
        operation("eprint", one(HostType::Any), true, or_error(HostType::Unit), "console", effect),
    );
    ModuleSchema {
        name: "console".to_owned(),
        capability: "console".to_owned(),
        operations,
        types: Vec::new(),
        resources: Vec::new(),
    }
}

/// What `env` declares.
pub fn env_schema() -> (schema: ModuleSchema)
    ensures
        is_env(schema),
{
    let mut operations: Vec<OperationSchema> = Vec::new();
    operations.push(
        operation(
            "get",
            one(HostType::String),
            false,
            HostType::Option(Box::new(HostType::String)),
            "env",
            Effect::Read,
        ),
    );
    ModuleSchema {
        name: "env".to_owned(),
        capability: "env".to_owned(),
        operations,
        types: Vec::new(),
        resources: Vec::new(),
    }
}

/// What `documents` declares.
pub fn documents_schema() -> (schema: ModuleSchema)
    ensures
        is_documents(schema),
{
    let mut operations: Vec<OperationSchema> = Vec::new();
    operations.push(
        operation(
            "read",
            one(HostType::String),
            false,
            or_error(HostType::String),
            "documents",
            Effect::Read,
        ),
    );
    ModuleSchema {
        name: "documents".to_owned(),
        capability: "documents".to_owned(),
        operations,
        types: Vec::new(),
        resources: Vec::new(),
    }
}

/// What `files` declares.
pub fn files_schema() -> (schema: ModuleSchema)
    ensures
        is_files(schema),
{
    let mut two: Vec<HostType> = one(HostType::String);
    two.push(HostType::String);
    proof {
        assert(two@ =~= seq![HostType::String, HostType::String]);
    }
    let mut operations: Vec<OperationSchema> = Vec::new();
    operations.push(
        operation(
            "read",
            one(HostType::String),
            false,
            or_error(HostType::String),
            "files",
            Effect::Read,
        ),
    );
    operations.push(
        operation(
            "write",
            two,
            false,
            or_error(HostType::Unit),
            "files",
            Effect::IrreversibleWrite,
        ),
    );
    operations.push(
        operation("exists", one(HostType::String), false, HostType::Bool, "files", Effect::Read),
    );
    operations.push(
        operation(
            "list",
            one(HostType::String),
            false,
            or_error(HostType::Array(Box::new(HostType::String))),
            "files",
            Effect::Read,
        ),
    );
    operations.push(
        operation(
            "delete",
            one(HostType::String),
            false,
            or_error(HostType::Unit),
            "files",
            Effect::IrreversibleWrite,
        ),
    );
    ModuleSchema {
        name: "files".to_owned(),
        capability: "files".to_owned(),
        operations,
        types: Vec::new(),
        resources: Vec::new(),
    }
}

/// What every host module of this library declares.
pub fn shipped_schema() -> (schemas: Vec<ModuleSchema>)
    ensures
        schemas@.len() == 4,
        is_console(schemas@[0]),
        is_env(schemas@[1]),
        is_documents(schemas@[2]),
        is_files(schemas@[3]),
{
    let mut schemas: Vec<ModuleSchema> = Vec::new();
    schemas.push(console_schema());
    schemas.push(env_schema());
    schemas.push(documents_schema());
    schemas.push(files_schema());
    schemas
}

/// What a program may do with `files`, and at what cost: reading, asking and
/// listing only read and may be cancelled; writing and deleting cannot be
/// undone and may not be; and all of it takes one capability.
pub proof fn files_reads_and_writes_as_it_declares(schema: ModuleSchema, i: int)
    requires
        is_files(schema),
        0 <= i < schema.operations@.len(),
    ensures
        schema.name@ == "files"@,
        schema.operations@[i].capability@ == "files"@,
        !schema.operations@[i].variadic,
        schema.operations@[i].name@ == "read"@ || schema.operations@[i].name@ == "exists"@
            || schema.operations@[i].name@ == "list"@ ==> schema.operations@[i].effect
            == Effect::Read && schema.operations@[i].cancellable
            && schema.operations@[i].params@.len() == 1,
        schema.operations@[i].name@ == "write"@ ==> schema.operations@[i].effect
            == Effect::IrreversibleWrite && !schema.operations@[i].cancellable
            && schema.operations@[i].params@.len() == 2,
        schema.operations@[i].name@ == "delete"@ ==> schema.operations@[i].effect
            == Effect::IrreversibleWrite && !schema.operations@[i].cancellable
            && schema.operations@[i].params@.len() == 1,
        schema.operations@[i].name@ == "exists"@ ==> schema.operations@[i].result is Bool,
        forall|p: int|
            0 <= p < schema.operations@[i].params@.len() ==> (
            #[trigger] schema.operations@[i].params@[p]) is String,
{
    reveal_strlit("read");
    reveal_strlit("write");
    reveal_strlit("exists");
    reveal_strlit("list");
    reveal_strlit("delete");
    assert("read"@[0] == 'r' && "write"@[0] == 'w' && "exists"@[0] == 'e' && "list"@[0] == 'l'
        && "delete"@[0] == 'd');
}

/// What a program may do with `console`, `env` and `documents`: whatever is
/// written to a stream cannot be undone and takes any values; a variable and a
/// document are only read, by one text.
pub proof fn the_others_do_as_they_declare(schema: ModuleSchema, i: int)
    requires
        0 <= i < schema.operations@.len(),
    ensures
        is_console(schema) ==> schema.name@ == "console"@ && schema.operations@[i].capability@
            == "console"@ && schema.operations@[i].variadic && schema.operations@[i].effect
            == Effect::IrreversibleWrite && !schema.operations@[i].cancellable
            && schema.operations@[i].params@.len() == 1 && schema.operations@[i].params@[0] is Any,
        is_env(schema) ==> schema.name@ == "env"@ && schema.operations@[i].capability@ == "env"@
            && !schema.operations@[i].variadic && schema.operations@[i].effect == Effect::Read
            && schema.operations@[i].cancellable && schema.operations@[i].params@.len() == 1
            && schema.operations@[i].params@[0] is String && schema.operations@[i].name@ == "get"@,
        is_documents(schema) ==> schema.name@ == "documents"@
            && schema.operations@[i].capability@ == "documents"@ && !schema.operations@[i].variadic
            && schema.operations@[i].effect == Effect::Read && schema.operations@[i].cancellable
            && schema.operations@[i].params@.len() == 1 && schema.operations@[i].params@[0] is String
            && schema.operations@[i].name@ == "read"@,
{
}

/// What each operation answers: what may fail a `Result` of what it answers and
/// an `Error`, and a variable an `Option` of its text.
pub proof fn what_each_operation_answers(schema: ModuleSchema)
    ensures
        is_files(schema) ==> {
            &&& schema.operations@.len() == 5
            &&& schema.operations@[0].name@ == "read"@
            &&& schema.operations@[0].result == HostType::Result(
                Box::new(HostType::String),
                Box::new(HostType::Error),
            )
            &&& schema.operations@[1].name@ == "write"@
            &&& schema.operations@[1].result == HostType::Result(
                Box::new(HostType::Unit),
                Box::new(HostType::Error),
            )
            &&& schema.operations@[2].name@ == "exists"@
            &&& schema.operations@[2].result == HostType::Bool
            &&& schema.operations@[3].name@ == "list"@
            &&& schema.operations@[3].result == HostType::Result(
                Box::new(HostType::Array(Box::new(HostType::String))),
                Box::new(HostType::Error),
            )
            &&& schema.operations@[4].name@ == "delete"@
            &&& schema.operations@[4].result == HostType::Result(
                Box::new(HostType::Unit),
                Box::new(HostType::Error),
            )
        },
        is_console(schema) ==> schema.operations@.len() == 4 && forall|i: int|
            0 <= i < 4 ==> (#[trigger] schema.operations@[i]).result == HostType::Result(
                Box::new(HostType::Unit),
                Box::new(HostType::Error),
            ),
        is_env(schema) ==> schema.operations@.len() == 1 && schema.operations@[0].result
            == HostType::Option(Box::new(HostType::String)),
        is_documents(schema) ==> schema.operations@.len() == 1 && schema.operations@[0].result
            == HostType::Result(Box::new(HostType::String), Box::new(HostType::Error)),
{
}

} // verus!
