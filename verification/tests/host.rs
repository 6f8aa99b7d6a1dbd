//! Calls made through the registry, and the hosts a run is given.
use std::cell::{Cell, RefCell};
use std::rc::Rc;

use cove_runtime::budget::{Budget, Cancellation, Limits};
use cove_runtime::console::{answer as console_answer, wording, Buffer, Console, Sink, Stream};
use cove_runtime::documents::{answer as document_answer, is_plain_document_name, Documents, Lookup};
use cove_runtime::env::Env;
use cove_runtime::error::RuntimeError;
use cove_runtime::files::Files;
use cove_runtime::host::{
    GrantSource, Grants, HostApi, HostCall, HostOutcome, HostRegistry, NoReentry, Reentry, Reply,
    ENTRY_TASK,
};
use cove_runtime::names::Table;
use cove_runtime::schema::{
    Effect, HostType, ModuleSchema, OperationSchema, ResourceSchema, TypeSchema,
};
use cove_runtime::shipped::shipped_schema;
use cove_runtime::value::{ResourceHandle, Value};

/// The way back of a call that no program made.
fn outside() -> Box<dyn Reentry> {
    Box::new(NoReentry)
}

fn text(text: &str) -> Value {
    Value::Str(text.to_string())
}

fn table(entries: &[(&str, &str)]) -> Table {
    let mut table = Table::new();
    for (name, held) in entries {
        table.insert(name.to_string(), held.to_string());
    }
    table
}

fn grants(names: &[&str]) -> Grants {
    Grants::new(names.iter().map(|name| name.to_string()).collect())
}

fn ok_str(value: &Value) -> String {
    match value {
        Value::Enum { case, payload, .. } if case == "Ok" => match &payload[0] {
            Value::Str(text) => text.clone(),
            other => panic!("expected `Ok(String)`, found {other:?}"),
        },
        other => panic!("expected `Ok(String)`, found {other:?}"),
    }
}

fn err_message(value: &Value) -> String {
    match value {
        Value::Enum { case, payload, .. } if case == "Err" => payload[0].show(),
        other => panic!("expected `Err(...)`, found {other:?}"),
    }
}

fn read(host: &mut dyn HostApi, name: &str) -> Value {
    match host.call("read", vec![text(name)]) {
        Ok(value) => value,
        Err(error) => panic!("no runtime error, but {}", error.message),
    }
}

fn allowed(reply: Reply) -> Value {
    match reply.result {
        Ok(value) => value,
        Err(error) => panic!("the call should be allowed: {}", error.message),
    }
}

fn refused(reply: Reply) -> RuntimeError {
    match reply.result {
        Ok(value) => panic!("the call should be rejected, and it answered {}", value.show()),
        Err(error) => error,
    }
}

fn limits() -> Limits {
    Limits { fuel: None, max_call_depth: None, max_host_calls: None }
}

// ---------------------------------------------------------------- documents

#[test]
fn in_memory_read_hits_and_misses() {
    let mut documents = Documents::in_memory(table(&[("input", "hello world")]));
    assert_eq!(ok_str(&read(&mut documents, "input")), "hello world");
    assert_eq!(err_message(&read(&mut documents, "missing")), "no document named `missing`");
}

#[test]
fn rooted_rejects_a_missing_document() {
    let documents = Documents::rooted("root".to_string());
    match documents.read("absent") {
        Lookup::File(name) => assert_eq!(name, "absent.txt"),
        other => panic!("the file below the root is asked for, not {other:?}"),
    }
    let answered = document_answer("absent", None);
    assert_eq!(err_message(&answered), "no document named `absent`");
}

#[test]
fn rooted_rejects_path_traversal() {
    let mut documents = Documents::rooted("root".to_string());
    assert_eq!(err_message(&read(&mut documents, "..")), "no document named `..`");
}

#[test]
fn rooted_rejects_a_nested_path() {
    let mut documents = Documents::rooted("root".to_string());
    assert_eq!(err_message(&read(&mut documents, "a/b")), "no document named `a/b`");
}

#[test]
fn rooted_rejects_an_empty_name() {
    let mut documents = Documents::rooted("root".to_string());
    assert_eq!(err_message(&read(&mut documents, "")), "no document named ``");
}

#[test]
fn a_plain_document_name_names_one_file_below_the_root() {
    for plain in ["input", "a.b", "...", "..a", "a b"] {
        assert!(is_plain_document_name(plain), "{plain}");
    }
    for other in ["", ".", "..", "a/b", "a\\b", "/", "a\0b"] {
        assert!(!is_plain_document_name(other), "{other}");
    }
}

#[test]
fn rooted_answers_what_the_file_holds() {
    let documents = Documents::rooted("root".to_string());
    assert!(matches!(documents.read("input"), Lookup::File(name) if name == "input.txt"));
    let answered = document_answer("input", Some("five little words here".to_string()));
    assert_eq!(ok_str(&answered), "five little words here");
}

#[test]
fn registry_without_the_documents_grant_rejects_the_call() {
    let mut hosts = HostRegistry::new(grants(&[]));
    hosts.register(Box::new(Documents::in_memory(Table::new())));
    let error = refused(hosts.call("documents", "read", vec![text("input")]));
    assert!(error.message.contains("documents"), "{}", error.message);
}

#[test]
fn registry_with_the_documents_grant_allows_the_call() {
    let mut hosts = registry_with_documents();
    let value = allowed(hosts.call("documents", "read", vec![text("input")]));
    assert_eq!(ok_str(&value), "hello world");
}

fn registry_with_documents() -> HostRegistry {
    let mut hosts = HostRegistry::new(grants(&["documents"]));
    hosts.register(Box::new(Documents::in_memory(table(&[("input", "hello world")]))));
    hosts
}

// ------------------------------------------------------------------- traces

#[test]
fn budget_stops_a_call_before_it_dispatches() {
    let mut hosts = registry_with_documents();
    hosts.set_budget(Budget::new(Limits { max_host_calls: Some(0), ..limits() }));
    hosts.set_trace(true);

    let reply = hosts.call("documents", "read", vec![text("input")]);
    let event = reply.event.expect("one event is recorded");
    assert!(!event.granted);
    let error = match reply.result {
        Ok(value) => panic!("the call should be stopped by the budget, not {}", value.show()),
        Err(error) => error,
    };
    assert!(error.rule.is_some(), "{error:?}");
    let budget = hosts.with_budget().expect("a budget was installed");
    assert_eq!(budget.host_calls, 1);
}

#[test]
fn a_granted_call_produces_one_event_with_a_plausible_wait() {
    let mut hosts = registry_with_documents();
    hosts.set_trace(true);

    let reply = hosts.call("documents", "read", vec![text("input")]);
    assert!(reply.result.is_ok(), "the call should be allowed");
    let HostCall { task, module, op, capability, wait, granted, args, outcome } =
        reply.event.expect("one event is recorded");
    assert_eq!(task, ENTRY_TASK);
    assert_eq!(module, "documents");
    assert_eq!(op, "read");
    assert_eq!(capability, "documents");
    assert!(granted);
    assert!(wait < 1_000_000_000, "{wait:?}");
    assert_eq!(args.len(), 1);
    assert_eq!(args[0].show(), "input");
    match outcome {
        Some(HostOutcome::Value(value)) => assert_eq!(ok_str(&value), "hello world"),
        other => panic!("expected a recorded value, found {other:?}"),
    }
}

/// Answers its arguments, and an exit that is not written down.
struct Process;

impl HostApi for Process {
    fn module_schema(&self) -> ModuleSchema {
        ModuleSchema {
            name: "process".to_string(),
            capability: "process".to_string(),
            operations: vec![
                OperationSchema {
                    name: "args".to_string(),
                    params: vec![],
                    variadic: false,
                    result: HostType::Array(Box::new(HostType::String)),
                    capability: "process".to_string(),
                    effect: Effect::Read,
                    cancellable: true,
                    recordable: true,
                    result_is_task_safe: true,
                },
                OperationSchema {
                    name: "exit".to_string(),
                    params: vec![HostType::Int],
                    variadic: false,
                    result: HostType::Unit,
                    capability: "process".to_string(),
                    effect: Effect::IrreversibleWrite,
                    cancellable: false,
                    recordable: false,
                    result_is_task_safe: true,
                },
            ],
            types: vec![],
            resources: vec![],
        }
    }

    fn call(&mut self, op: &str, _args: Vec<Value>) -> Result<Value, RuntimeError> {
        match op {
            "args" => Ok(Value::Array(vec![text("one")])),
            _ => Ok(Value::Unit),
        }
    }
}

#[test]
fn a_result_is_recorded_only_when_the_schema_says_it_may_be() {
    let mut hosts = HostRegistry::new(grants(&["process"]));
    hosts.register(Box::new(Process));
    hosts.set_trace(true);

    let first = hosts.call("process", "args", Vec::new()).event.expect("granted");
    let second = hosts.call("process", "exit", vec![Value::Int(2)]).event.expect("granted");

    match first.outcome {
        Some(HostOutcome::Value(value)) => assert_eq!(value.show(), "[one]"),
        other => panic!("expected a recorded value, found {other:?}"),
    }
    assert_eq!(second.op, "exit");
    assert_eq!(second.args.len(), 1);
    assert_eq!(second.args[0].show(), "2");
    assert!(matches!(second.outcome, Some(HostOutcome::NotRecordable)));
}

#[test]
fn a_sink_that_is_not_recording_is_given_no_events() {
    let mut hosts = registry_with_documents();
    hosts.set_trace(false);
    let reply = hosts.call("documents", "read", vec![text("input")]);
    assert!(reply.result.is_ok(), "the call should be allowed");
    assert!(reply.event.is_none(), "{:?}", reply.event);
}

#[test]
fn a_refused_call_records_its_arguments_and_no_result() {
    let mut hosts = HostRegistry::new(grants(&[]));
    hosts.register(Box::new(Documents::in_memory(Table::new())));
    hosts.set_trace(true);

    let reply = hosts.call("documents", "read", vec![text("input")]);
    assert!(reply.result.is_err(), "the call should be rejected");
    let event = reply.event.expect("the refusal is recorded");
    assert!(!event.granted);
    assert_eq!(event.args.len(), 1);
    assert!(event.outcome.is_none(), "{:?}", event.outcome);
}

#[test]
fn a_denied_call_produces_an_event_with_granted_false() {
    let mut hosts = HostRegistry::new(grants(&[]));
    hosts.register(Box::new(Documents::in_memory(Table::new())));
    hosts.set_trace(true);

    let reply = hosts.call("documents", "read", vec![text("input")]);
    assert!(reply.result.is_err(), "the call should be rejected for the missing grant");
    let event = reply.event.expect("the refusal is recorded");
    assert_eq!(event.capability, "documents");
    assert!(!event.granted);
}

// ------------------------------------------------------------------- schema

#[test]
fn an_unknown_operation_lists_the_operations_that_exist() {
    let mut hosts = registry_with_documents();
    let error = refused(hosts.call("documents", "write", Vec::new()));
    assert_eq!(error.message, "host module `documents` has no operation `write`");
    assert_eq!(error.help.as_deref(), Some("host module `documents` exposes `read`"));
}

#[test]
fn too_many_arguments_are_rejected_before_the_host_sees_them() {
    let mut hosts = registry_with_documents();
    let error = refused(hosts.call("documents", "read", vec![text("input"), text("extra")]));
    assert_eq!(error.message, "`documents.read` takes 1 argument, but 2 were given");
    assert_eq!(
        error.help.as_deref(),
        Some("the Host API schema declares `documents.read(String) -> Result<String, Error>`")
    );
}

#[test]
fn too_few_arguments_are_rejected_too() {
    let mut hosts = registry_with_documents();
    let error = refused(hosts.call("documents", "read", Vec::new()));
    assert_eq!(error.message, "`documents.read` takes 1 argument, but 0 were given");
}

#[test]
fn a_module_that_is_not_registered_is_refused() {
    let mut hosts = registry_with_documents();
    let error = refused(hosts.call("network", "read", Vec::new()));
    assert!(error.message.contains("network"), "{}", error.message);
    assert!(!hosts.contains("network"));
    assert!(hosts.contains("documents"));
}

#[derive(Clone, Default)]
struct Shared(Rc<RefCell<String>>);

impl Shared {
    fn written(&self) -> String {
        self.0.borrow().clone()
    }
}

impl Sink for Shared {
    fn put(&mut self, text: &str) -> Result<(), String> {
        self.0.borrow_mut().push_str(text);
        Ok(())
    }
}

/// A stream that can no longer be written to.
struct Closed;

impl Sink for Closed {
    fn put(&mut self, _text: &str) -> Result<(), String> {
        Err("broken pipe".to_string())
    }
}

fn registry_with_console(out: Shared, err: Shared) -> HostRegistry {
    let mut hosts = HostRegistry::new(grants(&["console"]));
    hosts.register(Box::new(Console::new(out, err)));
    hosts
}

#[test]
fn a_variadic_operation_accepts_any_number_of_arguments() {
    let mut hosts = registry_with_console(Shared::default(), Shared::default());
    for arity in 0..3 {
        let parts: Vec<Value> = (0..arity).map(|_| text("part")).collect();
        let reply = hosts.call("console", "println", parts);
        if let Err(error) = reply.result {
            panic!("arity {arity} should be accepted: {}", error.message);
        }
    }
}

#[test]
fn what_the_diagnostic_stream_is_given_stays_out_of_the_output_stream() {
    let out = Shared::default();
    let err = Shared::default();
    let mut hosts = registry_with_console(out.clone(), err.clone());
    for (op, line) in [
        ("println", "id,name"),
        ("eprintln", "line 2 is malformed, skipping"),
        ("println", "1,ada"),
    ] {
        allowed(hosts.call("console", op, vec![text(line)]));
    }
    assert_eq!(out.written(), "id,name\n1,ada\n");
    assert_eq!(err.written(), "line 2 is malformed, skipping\n");
}

#[test]
fn the_unterminated_form_writes_the_same_way_on_either_stream() {
    let out = Shared::default();
    let err = Shared::default();
    let mut hosts = registry_with_console(out.clone(), err.clone());
    for op in ["print", "eprint"] {
        allowed(hosts.call("console", op, vec![text("two"), text("parts")]));
    }
    assert_eq!(out.written(), "two parts");
    assert_eq!(err.written(), "two parts");
}

#[test]
fn one_grant_covers_both_streams() {
    let out = Shared::default();
    let err = Shared::default();
    let mut granted = registry_with_console(out.clone(), err.clone());
    allowed(granted.call("console", "println", vec![text("record")]));
    allowed(granted.call("console", "eprintln", vec![text("warning")]));
    assert_eq!(out.written(), "record\n");
    assert_eq!(err.written(), "warning\n");

    let mut ungranted = HostRegistry::new(grants(&[]));
    ungranted.register(Box::new(Console::new(Shared::default(), Shared::default())));
    for op in ["println", "print", "eprintln", "eprint"] {
        let error = refused(ungranted.call("console", op, vec![text("anything")]));
        assert_eq!(
            error.denied_capability.as_deref(),
            Some("console"),
            "`console.{op}`: {}",
            error.message
        );
    }
}

#[test]
fn a_stream_that_cannot_be_written_answers_an_error() {
    let mut console = Console::new(Closed, Shared::default());
    let answered = match console.call("println", vec![text("lost")]) {
        Ok(value) => value,
        Err(error) => panic!("no runtime error, but {}", error.message),
    };
    assert!(err_message(&answered).contains("broken pipe"));
    assert_eq!(console_answer(Ok(())).show(), "Ok(())");
}

#[test]
fn the_words_of_a_line_are_parted_by_one_space() {
    let parts = vec![text("n"), Value::Int(-3), Value::Bool(true)];
    let (stream, line) = wording("eprintln", &parts).expect("it writes");
    assert_eq!(stream, Stream::Diagnostics);
    assert_eq!(line, "n -3 true\n");
    let (stream, line) = wording("print", &Vec::new()).expect("it writes");
    assert_eq!(stream, Stream::Output);
    assert_eq!(line, "");
    assert!(wording("shout", &Vec::new()).is_none());
}

#[test]
fn task_safety_of_a_host_result_comes_from_the_schema() {
    let hosts = registry_with_documents();
    assert_eq!(hosts.result_is_task_safe("documents", "read"), Some(true));
    assert_eq!(hosts.result_is_task_safe("documents", "write"), None);
    assert_eq!(hosts.result_is_task_safe("network", "read"), None);
}

struct DuplicateNamed {
    capability: &'static str,
    answer: &'static str,
}

fn duplicate(capability: &str) -> ModuleSchema {
    ModuleSchema {
        name: "duplicate".to_string(),
        capability: capability.to_string(),
        operations: vec![OperationSchema {
            name: "ping".to_string(),
            params: vec![],
            variadic: false,
            result: HostType::String,
            capability: capability.to_string(),
            effect: Effect::Read,
            cancellable: false,
            recordable: true,
            result_is_task_safe: true,
        }],
        types: vec![],
        resources: vec![],
    }
}

impl HostApi for DuplicateNamed {
    fn module_schema(&self) -> ModuleSchema {
        duplicate(self.capability)
    }

    fn call(&mut self, _op: &str, _args: Vec<Value>) -> Result<Value, RuntimeError> {
        Ok(text(self.answer))
    }
}

#[test]
fn module_schemas_describes_the_module_dispatch_will_actually_reach() {
    let mut hosts = HostRegistry::new(grants(&["duplicate-first", "duplicate-second"]));
    hosts.register(Box::new(DuplicateNamed { capability: "duplicate-first", answer: "first" }));
    hosts.register(Box::new(DuplicateNamed { capability: "duplicate-second", answer: "second" }));

    let listed = hosts.module_schemas();
    assert_eq!(listed.len(), 1);
    assert_eq!(format!("{:?}", listed[0]), format!("{:?}", duplicate("duplicate-first")));
    assert_eq!(hosts.module_for_operation("ping").map(String::as_str), Some("duplicate"));
    assert_eq!(hosts.module_for_operation("pong"), None);
    assert_eq!(allowed(hosts.call("duplicate", "ping", Vec::new())).show(), "first");
}

#[test]
fn every_module_a_run_registers_declares_itself_out_of_the_shared_schema() {
    let modules: Vec<Box<dyn HostApi>> = vec![
        Box::new(Console::new(Shared::default(), Shared::default())),
        Box::new(Env::new(Table::new())),
        Box::new(Documents::in_memory(Table::new())),
        Box::new(Files::in_memory(Table::new())),
    ];
    assert_eq!(
        modules.len(),
        shipped_schema().len(),
        "a module the schema describes is one a run registers, and the reverse"
    );
    for (module, declared) in modules.iter().zip(shipped_schema()) {
        let name = declared.name.clone();
        assert_eq!(format!("{:?}", module.module_schema()), format!("{declared:?}"), "`{name}`");
    }

    let mut hosts = HostRegistry::new(grants(&[]));
    for module in modules {
        hosts.register(module);
    }
    for declared in shipped_schema() {
        let name = declared.name.as_str();
        assert!(hosts.contains(name), "`{name}`");
        for op in &declared.operations {
            let found = hosts.schema_for(name, &op.name).expect("the operation is declared");
            assert_eq!(format!("{found:?}"), format!("{op:?}"), "`{name}.{}`", op.name);
        }
        for ty in &declared.types {
            let found = hosts.host_type(name, &ty.name).expect("the type is declared");
            assert_eq!(format!("{found:?}"), format!("{ty:?}"), "`{name}.{}`", ty.name);
        }
    }
}

#[test]
fn a_host_type_is_found_under_the_module_that_declares_it() {
    let mut schema = duplicate("duplicate-first");
    schema.types.push(TypeSchema {
        name: "Level".to_string(),
        cases: vec!["Low".to_string(), "High".to_string()],
    });
    let mut hosts = HostRegistry::new(grants(&[]));
    let module = DuplicateNamed { capability: "duplicate-first", answer: "first" };
    hosts.register_as(schema, Box::new(module));
    let level = hosts.host_type("duplicate", "Level").expect("it is declared");
    assert_eq!(level.cases, vec!["Low".to_string(), "High".to_string()]);
    assert!(hosts.host_type("duplicate", "Depth").is_none());
    assert!(hosts.host_type("network", "Level").is_none());
}

#[test]
fn only_the_calls_the_schema_calls_irreversible_are_counted() {
    let mut hosts = HostRegistry::new(grants(&["console", "files"]));
    hosts.register(Box::new(Console::new(Shared::default(), Shared::default())));
    hosts.register(Box::new(Files::in_memory(Table::new())));
    assert_eq!(hosts.irreversible_writes(), 0);

    allowed(hosts.call("files", "exists", vec![text("a.txt")]));
    assert_eq!(hosts.irreversible_writes(), 0);

    allowed(hosts.call("files", "write", vec![text("a.txt"), text("x")]));
    allowed(hosts.call("console", "println", vec![text("a")]));
    assert_eq!(hosts.irreversible_writes(), 2);
}

#[test]
fn an_ungranted_irreversible_call_is_not_counted() {
    let mut hosts = HostRegistry::new(grants(&[]));
    hosts.register(Box::new(Files::in_memory(Table::new())));
    refused(hosts.call("files", "write", vec![text("a.txt"), text("x")]));
    assert_eq!(hosts.irreversible_writes(), 0);
}

#[test]
fn a_refusal_says_where_the_grant_would_come_from() {
    let mut hosts = HostRegistry::new(grants(&[]));
    hosts.register(Box::new(Files::in_memory(Table::new())));
    let config = refused(hosts.call("files", "read", vec![text("a.txt")]));
    hosts.set_grant_source(GrantSource::Sealed);
    let sealed = refused(hosts.call("files", "read", vec![text("a.txt")]));
    assert_eq!(config.message, sealed.message);
    assert_ne!(config.help, sealed.help);
    assert!(config.help.is_some() && sealed.help.is_some());
}

#[test]
fn grants_are_kept_once_and_in_order() {
    let granted = grants(&["files", "console", "files", "clock"]);
    assert_eq!(granted.iter(), &vec!["clock", "console", "files"]);
    assert!(granted.allows("clock") && granted.allows("files"));
    assert!(!granted.allows("Clock") && !granted.allows("") && !granted.allows("clock "));
    assert!(grants(&[]).iter().is_empty());
}

#[test]
fn an_environment_answers_the_variables_it_was_given() {
    let mut env = Env::new(table(&[("HOME", "/home/ada"), ("LANG", "C")]));
    let mut get = |name: &str| match env.call("get", vec![text(name)]) {
        Ok(value) => value.show(),
        Err(error) => panic!("no runtime error, but {}", error.message),
    };
    assert_eq!(get("HOME"), "Some(/home/ada)");
    assert_eq!(get("LANG"), "Some(C)");
    assert_eq!(get("home"), "None");
}

// ------------------------------------------------------------------ wayward

fn wayward_op(name: &str, params: Vec<HostType>, variadic: bool, result: HostType) -> OperationSchema {
    OperationSchema {
        name: name.to_string(),
        params,
        variadic,
        result,
        capability: "wayward".to_string(),
        effect: Effect::Read,
        cancellable: false,
        recordable: true,
        result_is_task_safe: true,
    }
}

fn or_error(answer: HostType) -> HostType {
    HostType::Result(Box::new(answer), Box::new(HostType::Error))
}

fn wayward_resource() -> ResourceSchema {
    ResourceSchema {
        name: "Handle".to_string(),
        task_safe: true,
        operations: vec![OperationSchema {
            effect: Effect::ReversibleWrite,
            ..wayward_op("close", vec![], false, or_error(HostType::Unit))
        }],
    }
}

fn undeclared_resource() -> ResourceSchema {
    ResourceSchema { name: "Ghost".to_string(), task_safe: true, operations: vec![] }
}

fn wayward() -> ModuleSchema {
    let strings = || HostType::Array(Box::new(HostType::String));
    let handle = HostType::Named("wayward.Handle".to_string());
    ModuleSchema {
        name: "wayward".to_string(),
        capability: "wayward".to_string(),
        operations: vec![
            wayward_op("read", vec![HostType::String], false, or_error(HostType::String)),
            wayward_op("open", vec![], false, handle),
            wayward_op("list", vec![], false, or_error(strings())),
            wayward_op("anything", vec![], false, HostType::Any),
            wayward_op("send", vec![strings()], false, or_error(HostType::String)),
            wayward_op("say", vec![HostType::String], true, or_error(HostType::String)),
            wayward_op("bound", vec![HostType::Any], false, or_error(HostType::String)),
        ],
        types: vec![],
        resources: vec![wayward_resource()],
    }
}

#[derive(Clone, Copy)]
enum Answer {
    Declared,
    Undeclared,
}

struct Wayward {
    answer: Answer,
    calls: Rc<Cell<u64>>,
}

impl HostApi for Wayward {
    fn module_schema(&self) -> ModuleSchema {
        wayward()
    }

    fn call(&mut self, op: &str, _args: Vec<Value>) -> Result<Value, RuntimeError> {
        self.calls.set(self.calls.get() + 1);
        let declared = matches!(self.answer, Answer::Declared);
        Ok(match op {
            "open" => {
                let kind = if declared { wayward_resource() } else { undeclared_resource() };
                Value::Resource(ResourceHandle::new("wayward", &kind, 1))
            }
            "list" if declared => Value::ok(Value::Array(vec![text("what was declared")])),
            "list" => Value::ok(Value::Array(vec![text("what was declared"), Value::Int(3)])),
            "anything" => Value::Int(3),
            _ if declared => Value::ok(text("what was declared")),
            _ => Value::Int(3),
        })
    }

    fn call_resource(
        &mut self,
        _handle: &ResourceHandle,
        _op: &str,
        _args: Vec<Value>,
        _back: &mut Box<dyn Reentry + '_>,
    ) -> Result<Value, RuntimeError> {
        self.calls.set(self.calls.get() + 1);
        Ok(match self.answer {
            Answer::Declared => Value::ok(Value::Unit),
            Answer::Undeclared => Value::ok(text("not the declared `Unit`")),
        })
    }
}

fn registry_with_wayward(answer: Answer) -> (HostRegistry, Rc<Cell<u64>>) {
    let calls = Rc::new(Cell::new(0));
    let mut hosts = HostRegistry::new(grants(&["wayward"]));
    hosts.register(Box::new(Wayward { answer, calls: calls.clone() }));
    hosts.set_trace(true);
    (hosts, calls)
}

#[test]
fn a_host_that_answers_what_its_schema_declares_is_dispatched_and_recorded() {
    let (mut hosts, calls) = registry_with_wayward(Answer::Declared);
    let reply = hosts.call("wayward", "read", vec![text("input")]);
    let event = reply.event.expect("one event is recorded");
    assert_eq!(event.op, "read");
    assert!(event.granted);
    match event.outcome {
        Some(HostOutcome::Value(recorded)) => {
            assert_eq!(recorded.show(), "Ok(what was declared)")
        }
        other => panic!("expected a recorded value, found {other:?}"),
    }
    let value = match reply.result {
        Ok(value) => value,
        Err(error) => panic!("a conforming call is dispatched: {}", error.message),
    };
    assert_eq!(ok_str(&value), "what was declared");
    assert_eq!(calls.get(), 1);
}

#[test]
fn a_handle_naming_a_resource_the_module_never_declared_is_refused() {
    let (mut hosts, calls) = registry_with_wayward(Answer::Declared);
    let ghost = ResourceHandle::new("wayward", &undeclared_resource(), 1);
    let error = refused(hosts.call_resource(&ghost, "close", Vec::new(), &mut outside()));
    assert_eq!(error.message, "host module `wayward` issues no `Ghost` handles");
    assert_eq!(calls.get(), 0, "the host was not asked to act on a handle its schema disowns");
}

#[test]
fn a_handle_of_the_kind_the_operation_declared_is_admitted() {
    let (mut hosts, _) = registry_with_wayward(Answer::Declared);
    let opened = allowed(hosts.call("wayward", "open", Vec::new()));
    let Value::Resource(handle) = opened else {
        panic!("expected a resource handle, found {}", opened.show());
    };
    assert_eq!(handle.qualified_type(), "wayward.Handle");
    let closed = allowed(hosts.call_resource(&handle, "close", Vec::new(), &mut outside()));
    assert!(matches!(closed, Value::Enum { .. }), "{}", closed.show());
}

#[test]
fn an_operation_the_schema_does_not_declare_is_refused_before_the_host_sees_it() {
    let (mut hosts, calls) = registry_with_wayward(Answer::Declared);
    let error = refused(hosts.call("wayward", "write", vec![text("input")]));
    assert_eq!(error.message, "host module `wayward` has no operation `write`");
    let help = error.help.expect("the diagnostic lists what does exist");
    assert!(help.contains("`read`"), "{help}");
    assert!(help.contains("`open`"), "{help}");
    assert_eq!(calls.get(), 0);
}

#[test]
fn arguments_the_schema_does_not_accept_are_refused_before_the_host_sees_them() {
    let (mut hosts, calls) = registry_with_wayward(Answer::Declared);
    let error = refused(hosts.call("wayward", "read", Vec::new()));
    assert_eq!(error.message, "`wayward.read` takes 1 argument, but 0 were given");
    let help = error.help.expect("the diagnostic quotes the schema");
    assert!(help.contains("wayward.read(String) -> Result<String, Error>"), "{help}");
    assert_eq!(calls.get(), 0);
}

#[test]
fn an_argument_the_schema_does_not_admit_is_refused_before_the_host_sees_it() {
    let (mut hosts, calls) = registry_with_wayward(Answer::Declared);
    let reply = hosts.call("wayward", "read", vec![Value::Int(3)]);
    assert!(
        reply.event.is_none(),
        "a call the boundary refused never reached the host to be recorded"
    );
    let error = refused(reply);
    assert_eq!(
        error.message,
        "`wayward.read` was given `Int` as argument 1, but its schema declares `String` there"
    );
    let help = error.help.expect("the diagnostic quotes the schema");
    assert!(help.contains("wayward.read(String) -> Result<String, Error>"), "{help}");
    assert_eq!(calls.get(), 0);
}

#[test]
fn a_violation_inside_an_argument_says_where_it_is() {
    let (mut hosts, calls) = registry_with_wayward(Answer::Declared);
    let list = Value::Array(vec![text("one"), Value::Int(2)]);
    let error = refused(hosts.call("wayward", "send", vec![list]));
    assert_eq!(
        error.message,
        "`wayward.send` was given `Int` at `[1]` of argument 1, but its schema declares `String` there"
    );
    assert_eq!(calls.get(), 0);
}

#[test]
fn a_variadic_operation_checks_every_argument_against_its_declared_type() {
    let (mut hosts, _) = registry_with_wayward(Answer::Declared);
    allowed(hosts.call("wayward", "say", vec![text("a"), text("b")]));
    let error = refused(hosts.call("wayward", "say", vec![text("a"), Value::Int(2)]));
    assert_eq!(
        error.message,
        "`wayward.say` was given `Int` as argument 2, but its schema declares `String` there"
    );
}

#[test]
fn an_argument_declared_any_admits_whatever_it_is_given() {
    let (mut hosts, calls) = registry_with_wayward(Answer::Declared);
    for argument in [Value::Int(3), Value::Unit, text("text")] {
        allowed(hosts.call("wayward", "bound", vec![argument]));
    }
    assert_eq!(calls.get(), 3);
}

#[test]
fn a_result_that_violates_its_declared_type_is_refused() {
    let (mut hosts, calls) = registry_with_wayward(Answer::Undeclared);
    let reply = hosts.call("wayward", "read", vec![text("input")]);
    assert_eq!(calls.get(), 1, "the host was reached: this is a check on what it answered");
    let event = reply.event.expect("one event is recorded");
    assert!(event.granted);
    match event.outcome {
        Some(HostOutcome::Value(recorded)) => assert_eq!(recorded.show(), "3"),
        other => panic!("expected the answer on the record, found {other:?}"),
    }
    let error = match reply.result {
        Ok(value) => panic!("a host that breaks its own schema is refused, not {}", value.show()),
        Err(error) => error,
    };
    assert_eq!(
        error.message,
        "`wayward.read` answered `Int`, but its schema declares `Result<String, Error>`"
    );
    let help = error.help.expect("the diagnostic quotes the schema");
    assert!(help.contains("wayward.read(String) -> Result<String, Error>"), "{help}");
}

#[test]
fn a_violation_inside_a_declared_result_says_where_it_is() {
    let (mut hosts, _) = registry_with_wayward(Answer::Undeclared);
    let error = refused(hosts.call("wayward", "list", Vec::new()));
    assert_eq!(
        error.message,
        "`wayward.list` answered `Int` at `Ok(_)[1]` of its result, but its schema declares `String` there"
    );
}

#[test]
fn a_result_declared_any_admits_whatever_the_host_answers() {
    for answer in [Answer::Declared, Answer::Undeclared] {
        let (mut hosts, _) = registry_with_wayward(answer);
        let value = allowed(hosts.call("wayward", "anything", Vec::new()));
        assert!(matches!(value, Value::Int(3)), "{}", value.show());
    }
}

#[test]
fn a_handle_naming_a_kind_the_operation_did_not_declare_is_refused() {
    let (mut hosts, _) = registry_with_wayward(Answer::Undeclared);
    let error = refused(hosts.call("wayward", "open", Vec::new()));
    assert_eq!(
        error.message,
        "`wayward.open` answered `wayward.Ghost`, but its schema declares `wayward.Handle`"
    );
}

#[test]
fn a_resource_operation_is_held_to_its_declaration_too() {
    let (mut hosts, _) = registry_with_wayward(Answer::Undeclared);
    let handle = ResourceHandle::new("wayward", &wayward_resource(), 1);
    let error = refused(hosts.call_resource(&handle, "close", Vec::new(), &mut outside()));
    assert_eq!(
        error.message,
        "`wayward.Handle.close` answered `String` at `Ok(_)` of its result, but its schema declares `Unit` there"
    );
    let help = error.help.expect("the diagnostic quotes the schema");
    assert!(help.contains("wayward.Handle.close() -> Result<Unit, Error>"), "{help}");
}

// ---------------------------------------------------------- the two halves

#[test]
fn a_call_taken_in_two_halves_is_the_call_taken_at_once() {
    let (mut hosts, calls) = registry_with_wayward(Answer::Declared);
    let args = vec![text("input")];
    let ticket = match hosts.begin(7, "wayward", "read", &args) {
        Ok(ticket) => ticket,
        Err(reply) => panic!("the call is let through, not {:?}", reply.result),
    };
    assert_eq!(ticket.module(), 0);
    let reply = hosts.finish(ticket, Ok(Value::ok(text("from elsewhere"))), 12);
    let event = reply.event.expect("one event is recorded");
    assert_eq!((event.task, event.wait), (7, 12));
    match reply.result {
        Ok(value) => assert_eq!(ok_str(&value), "from elsewhere"),
        Err(error) => panic!("it answers: {}", error.message),
    }
    assert_eq!(calls.get(), 0, "the answer came from outside");

    let ticket = match hosts.begin(7, "wayward", "read", &args) {
        Ok(ticket) => ticket,
        Err(reply) => panic!("the call is let through, not {:?}", reply.result),
    };
    let failed = RuntimeError::new("the line dropped".to_string());
    let reply = hosts.finish(ticket, Err(failed), 0);
    match reply.event.expect("one event is recorded").outcome {
        Some(HostOutcome::Error(message)) => assert_eq!(message, "the line dropped"),
        other => panic!("expected the failure on the record, found {other:?}"),
    }
    assert!(reply.result.is_err());
}

#[test]
fn a_handles_operation_can_be_taken_in_two_halves() {
    let (mut hosts, calls) = registry_with_wayward(Answer::Declared);
    let handle = ResourceHandle::new("wayward", &wayward_resource(), 1);
    let ticket = match hosts.begin_resource(3, &handle, "close", &Vec::new()) {
        Ok(ticket) => ticket,
        Err(reply) => panic!("the call is let through, not {:?}", reply.result),
    };
    let reply = hosts.finish(ticket, Ok(Value::ok(Value::Unit)), 1);
    let event = reply.event.expect("one event is recorded");
    assert_eq!(event.op, "Handle.close");
    assert_eq!(event.args.len(), 1, "the receiver is recorded before the arguments");
    assert!(reply.result.is_ok());
    assert_eq!(calls.get(), 0);
    assert!(hosts.begin_resource(3, &handle, "open", &Vec::new()).is_err());
}

#[test]
fn a_module_without_resources_says_so_when_it_is_asked_about_one() {
    let mut documents = Documents::in_memory(Table::new());
    let handle = ResourceHandle::new("wayward", &wayward_resource(), 1);
    let error = match documents.call_resource(&handle, "close", Vec::new(), &mut outside()) {
        Ok(value) => panic!("it does not answer, and it answered {}", value.show()),
        Err(error) => error,
    };
    assert_eq!(
        error.message,
        "host module `documents` issues no resource handles, so `wayward.Handle.close` cannot be called"
    );
}

#[test]
fn two_handles_name_one_resource_when_module_kind_and_number_agree() {
    let one = ResourceHandle::new("wayward", &wayward_resource(), 1);
    assert!(one.names_same(&ResourceHandle::new("wayward", &wayward_resource(), 1)));
    assert!(one.names_same(&one.copy()));
    assert!(!one.names_same(&ResourceHandle::new("wayward", &wayward_resource(), 2)));
    assert_eq!(one.show(), "wayward.Handle#1");
}

#[test]
fn a_call_from_outside_a_run_has_no_way_back() {
    let mut back = NoReentry;
    let error = match back.call(&Value::Int(1), Vec::new()) {
        Ok(value) => panic!("it does not answer, and it answered {}", value.show()),
        Err(error) => error,
    };
    assert_eq!(
        error.message,
        "this host call cannot run Int, because it was not made from a running program"
    );
    assert!(!back.is_cancelled());
    assert_eq!(back.time_left(), None);
    assert_eq!(back.task(), ENTRY_TASK);
}

#[test]
fn a_call_that_is_not_granted_reaches_no_host() {
    let calls = Rc::new(Cell::new(0));
    let mut hosts = HostRegistry::new(grants(&["console"]));
    hosts.register(Box::new(Wayward { answer: Answer::Declared, calls: calls.clone() }));
    let budget = Budget::new(Limits { max_host_calls: Some(1), ..limits() });
    hosts.set_budget(budget);
    for op in ["read", "no such operation"] {
        let error = refused(hosts.call("wayward", op, vec![text("input")]));
        assert_eq!(error.denied_capability.as_deref(), Some("wayward"));
    }
    let handle = ResourceHandle::new("wayward", &wayward_resource(), 1);
    refused(hosts.call_resource(&handle, "close", Vec::new(), &mut outside()));
    assert_eq!(calls.get(), 0, "nobody was asked");
    assert_eq!(hosts.budget(), Some(budget), "nothing was charged");
    assert_eq!(hosts.irreversible_writes(), 0);
}

#[test]
fn a_call_reaches_the_host_it_names_and_no_other_once() {
    let first = Rc::new(Cell::new(0));
    let calls = Rc::new(Cell::new(0));
    let mut hosts = HostRegistry::new(grants(&["wayward", "duplicate"]));
    hosts.register(Box::new(DuplicateNamed { capability: "duplicate", answer: "first" }));
    hosts.register(Box::new(Wayward { answer: Answer::Declared, calls: calls.clone() }));
    hosts.register(Box::new(Wayward { answer: Answer::Declared, calls: first.clone() }));
    allowed(hosts.call("wayward", "read", vec![text("input")]));
    assert_eq!((calls.get(), first.get()), (1, 0));
    refused(hosts.call("wayward", "read", Vec::new()));
    assert_eq!((calls.get(), first.get()), (1, 0), "what breaks the schema is not asked");
}

/// Runs a callback and says which task asked for it.
struct Caller;

impl HostApi for Caller {
    fn module_schema(&self) -> ModuleSchema {
        let mut schema = duplicate("caller");
        schema.name = "caller".to_string();
        schema.operations[0].name = "run".to_string();
        schema.operations[0].result = HostType::Any;
        schema.operations[0].params = vec![HostType::Any];
        schema
    }

    fn call(&mut self, _op: &str, _args: Vec<Value>) -> Result<Value, RuntimeError> {
        Err(RuntimeError::new("there is nothing to run".to_string()))
    }

    fn call_with(
        &mut self,
        _op: &str,
        mut args: Vec<Value>,
        back: &mut Box<dyn Reentry + '_>,
    ) -> Result<Value, RuntimeError> {
        let callee = args.pop().expect("one argument");
        let stop = Cancellation::new();
        back.call_until(&callee, vec![Value::Int(back.task() as i64)], &stop)
    }
}

/// A program of one task that answers what it is handed.
struct Running(u64);

impl Reentry for Running {
    fn call(&mut self, callee: &Value, mut args: Vec<Value>) -> Result<Value, RuntimeError> {
        args.insert(0, callee.copy());
        Ok(Value::Array(args))
    }

    fn call_until(
        &mut self,
        callee: &Value,
        args: Vec<Value>,
        stop: &Cancellation,
    ) -> Result<Value, RuntimeError> {
        assert!(!stop.is_cancelled());
        self.call(callee, args)
    }

    fn is_cancelled(&self) -> bool {
        false
    }

    fn time_left(&self) -> Option<u64> {
        None
    }

    fn task(&self) -> u64 {
        self.0
    }
}

#[test]
fn a_host_runs_a_callback_through_the_way_back() {
    let mut hosts = HostRegistry::new(grants(&["caller"]));
    hosts.register(Box::new(Caller));
    hosts.set_trace(true);
    let mut back: Box<dyn Reentry> = Box::new(Running(9));
    let reply = hosts.call_with("caller", "run", vec![text("callee")], &mut back);
    assert_eq!(reply.event.as_ref().expect("one event is recorded").task, 9);
    assert_eq!(allowed(reply).show(), Value::Array(vec![text("callee"), Value::Int(9)]).show());
    let error = refused(hosts.call("caller", "run", vec![text("callee")]));
    assert_eq!(
        error.message,
        "this host call cannot run String, because it was not made from a running program"
    );
}

#[test]
fn a_request_to_stop_is_seen_by_everyone_who_holds_it() {
    let stop = Cancellation::new();
    let held = stop.clone();
    assert!(!held.is_cancelled());
    stop.cancel();
    assert!(held.is_cancelled());
    let error = match NoReentry.call_until(&Value::Unit, Vec::new(), &stop) {
        Ok(value) => panic!("it does not answer, and it answered {}", value.show()),
        Err(error) => error,
    };
    assert!(error.message.starts_with("this host call cannot run Unit"), "{}", error.message);
}

#[test]
fn a_buffer_keeps_what_is_written_to_it_in_order() {
    let mut buffer = Buffer::new();
    assert_eq!(buffer.text(), "");
    assert!(buffer.put("one ").is_ok());
    assert!(buffer.put("two").is_ok());
    assert_eq!(buffer.text(), "one two");
}

#[test]
fn each_stream_holds_what_it_was_given_in_order() {
    let out = Shared::default();
    let err = Shared::default();
    let mut console = Console::new(out.clone(), err.clone());
    for (op, line) in [
        ("println", "id,name"),
        ("eprintln", "line 2 is malformed, skipping"),
        ("println", "1,ada"),
    ] {
        let told = console.call(op, vec![text(line)]).expect("the operation is declared");
        assert_eq!(told.show(), Value::ok(Value::Unit).show());
    }
    let parts = vec![text("two"), text("parts")];
    assert!(console.call("eprint", parts).is_ok());
    assert_eq!(out.written(), "id,name\n1,ada\n");
    assert_eq!(err.written(), "line 2 is malformed, skipping\ntwo parts");
}

#[test]
fn a_budget_is_put_in_place_of_another() {
    let mut hosts = HostRegistry::new(grants(&[]));
    assert_eq!(hosts.budget(), None);
    let mut budget = Budget::new(limits());
    budget.cancel();
    hosts.replace_budget(Some(budget));
    assert_eq!(hosts.budget(), Some(budget));
    hosts.replace_budget(None);
    assert!(hosts.with_budget().is_none());
}
