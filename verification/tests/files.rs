//! The `files` host, over a tree kept in memory and over a disk.
use std::collections::{BTreeMap, BTreeSet};

use cove_runtime::files::{Action, Files, Found, Request, Step};
use cove_runtime::host::{Grants, HostApi, HostRegistry};
use cove_runtime::names::Table;
use cove_runtime::schema::Effect;
use cove_runtime::value::Value;

/// A disk of plain values: a file's text under its parts, and the links that
/// lead out of the root.
#[derive(Default)]
struct Disk {
    root: bool,
    files: BTreeMap<Vec<String>, String>,
    links_out: BTreeSet<Vec<String>>,
    asked: usize,
}

impl Disk {
    fn perform(&mut self, request: &Request) -> Found {
        self.asked += 1;
        if !self.root {
            if request.action != Action::Write {
                return Found::NoRoot;
            }
            self.root = true;
        }
        let parts = &request.parts;
        if (1..=parts.len()).any(|n| self.links_out.contains(&parts[..n])) {
            return Found::Outside;
        }
        let below = |held: &Vec<String>| held.len() > parts.len() && held.starts_with(parts);
        match request.action {
            Action::Read => match self.files.get(parts) {
                Some(text) => Found::Text(text.clone()),
                None => Found::Missing,
            },
            Action::Write => {
                self.files.insert(parts.clone(), request.contents.clone());
                Found::Done
            }
            Action::Exists => Found::There(
                self.files.contains_key(parts) || self.files.keys().any(below),
            ),
            Action::List => {
                let names: BTreeSet<String> =
                    self.files.keys().filter(|held| below(held)).map(|h| h[parts.len()].clone()).collect();
                if names.is_empty() && !parts.is_empty() {
                    Found::Missing
                } else {
                    Found::Entries(names.into_iter().rev().collect())
                }
            }
            Action::Delete => match self.files.remove(parts) {
                Some(_) => Found::Done,
                None => Found::Missing,
            },
        }
    }
}

/// A tree of files, and the disk that stands behind it if it has one.
struct Backed {
    files: Files,
    disk: Disk,
}

impl Backed {
    fn call(&mut self, op: &str, args: Vec<Value>) -> Value {
        match self.files.begin(op, &args) {
            Ok(Step::Done(value)) => value,
            Ok(Step::Ask(request)) => {
                let found = self.disk.perform(&request);
                Files::finish(&request, found)
            }
            Err(error) => panic!("no runtime error, but {}", error.message),
        }
    }
}

fn both() -> Vec<Backed> {
    let disk = Disk { root: true, ..Disk::default() };
    vec![
        Backed { files: Files::rooted("root".to_string()), disk },
        Backed { files: Files::in_memory(Table::new()), disk: Disk::default() },
    ]
}

fn ok_value(value: Value) -> Value {
    match value {
        Value::Enum { case, mut payload, .. } if case == "Ok" => payload.remove(0),
        other => panic!("expected `Ok(...)`, found {}", other.show()),
    }
}

fn err_message(value: Value) -> String {
    match value {
        Value::Enum { case, payload, .. } if case == "Err" => payload[0].show(),
        other => panic!("expected `Err(...)`, found {}", other.show()),
    }
}

fn strings(value: Value) -> Vec<String> {
    match value {
        Value::Array(items) => items.iter().map(Value::show).collect(),
        other => panic!("expected an `Array`, found {}", other.show()),
    }
}

fn is_true(value: Value) -> bool {
    match value {
        Value::Bool(b) => b,
        other => panic!("expected a `Bool`, found {}", other.show()),
    }
}

fn str_arg(text: &str) -> Value {
    Value::Str(text.to_string())
}

#[test]
fn writing_then_reading_answers_what_was_written() {
    for mut files in both() {
        let written = files.call("write", vec![str_arg("notes.txt"), str_arg("five words")]);
        assert_eq!(ok_value(written).show(), "()");
        let read = files.call("read", vec![str_arg("notes.txt")]);
        assert_eq!(ok_value(read).show(), "five words");
    }
}

#[test]
fn writing_twice_keeps_only_the_second_contents() {
    for mut files in both() {
        files.call("write", vec![str_arg("notes.txt"), str_arg("first")]);
        files.call("write", vec![str_arg("notes.txt"), str_arg("second")]);
        let read = files.call("read", vec![str_arg("notes.txt")]);
        assert_eq!(ok_value(read).show(), "second");
    }
}

#[test]
fn a_nested_path_is_created_along_with_its_directories() {
    for mut files in both() {
        files.call("write", vec![str_arg("a/b/c.txt"), str_arg("deep")]);
        let read = files.call("read", vec![str_arg("a/b/c.txt")]);
        assert_eq!(ok_value(read).show(), "deep");
        assert!(is_true(files.call("exists", vec![str_arg("a/b")])));
        assert_eq!(strings(ok_value(files.call("list", vec![str_arg("a")]))), ["b"]);
    }
}

#[test]
fn reading_a_path_that_is_not_there_reports_it() {
    for mut files in both() {
        let read = files.call("read", vec![str_arg("absent.txt")]);
        assert_eq!(err_message(read), "files: `absent.txt` does not exist");
    }
}

#[test]
fn exists_answers_before_and_after_a_write() {
    for mut files in both() {
        assert!(!is_true(files.call("exists", vec![str_arg("notes.txt")])));
        files.call("write", vec![str_arg("notes.txt"), str_arg("here")]);
        assert!(is_true(files.call("exists", vec![str_arg("notes.txt")])));
    }
}

#[test]
fn listing_the_root_answers_its_entries_in_order() {
    for mut files in both() {
        for name in ["b.txt", "a.txt", "c.txt"] {
            files.call("write", vec![str_arg(name), str_arg("x")]);
        }
        let listed = files.call("list", vec![str_arg(".")]);
        assert_eq!(strings(ok_value(listed)), ["a.txt", "b.txt", "c.txt"]);
    }
}

#[test]
fn listing_a_directory_that_is_not_there_reports_it() {
    for mut files in both() {
        let listed = files.call("list", vec![str_arg("nowhere")]);
        assert_eq!(err_message(listed), "files: `nowhere` does not exist");
    }
}

#[test]
fn deleting_removes_the_file_and_then_reports_it_gone() {
    for mut files in both() {
        files.call("write", vec![str_arg("notes.txt"), str_arg("x")]);
        let deleted = files.call("delete", vec![str_arg("notes.txt")]);
        assert_eq!(ok_value(deleted).show(), "()");
        assert!(!is_true(files.call("exists", vec![str_arg("notes.txt")])));
        let again = files.call("delete", vec![str_arg("notes.txt")]);
        assert_eq!(err_message(again), "files: `notes.txt` does not exist");
    }
}

#[test]
fn every_path_that_could_escape_the_root_is_refused() {
    let cases = [
        ("", "files: a path must not be empty"),
        ("..", "files: `..` leaves the root this host grants"),
        ("../cove.toml", "files: `../cove.toml` leaves the root this host grants"),
        ("a/../../b.txt", "files: `a/../../b.txt` leaves the root this host grants"),
        (
            "/etc/passwd",
            "files: `/etc/passwd` is absolute, and a path is relative to the root this host grants",
        ),
        (
            "a\\b.txt",
            "files: `a\\b.txt` contains a backslash, and a path is `/`-separated and relative to the root this host grants",
        ),
        ("a\0b", "files: `a\0b` contains a NUL byte"),
    ];
    for (path, expected) in cases {
        for mut files in both() {
            for op in ["read", "list", "delete"] {
                let refused = files.call(op, vec![str_arg(path)]);
                assert_eq!(err_message(refused), expected, "`{op}` of `{path}`");
            }
            let refused = files.call("write", vec![str_arg(path), str_arg("payload")]);
            assert_eq!(err_message(refused), expected, "`write` of `{path}`");
            assert!(
                !is_true(files.call("exists", vec![str_arg(path)])),
                "`exists` of `{path}`"
            );
            assert_eq!(files.disk.asked, 0, "`{path}` reached the disk");
        }
    }
}

#[test]
fn a_refused_write_leaves_nothing_behind() {
    for mut files in both() {
        let refused = files.call("write", vec![str_arg("../outside.txt"), str_arg("payload")]);
        assert_eq!(
            err_message(refused),
            "files: `../outside.txt` leaves the root this host grants"
        );
        assert!(files.disk.files.is_empty());
        assert!(strings(ok_value(files.call("list", vec![str_arg(".")]))).is_empty());
    }
}

#[test]
fn a_symbolic_link_out_of_the_root_is_refused() {
    let mut files = both().remove(0);
    files.disk.links_out.insert(vec!["link.txt".to_string()]);
    files.disk.links_out.insert(vec!["up".to_string()]);
    for path in ["link.txt", "up/secret.txt"] {
        let refused = files.call("read", vec![str_arg(path)]);
        assert_eq!(
            err_message(refused),
            format!("files: `{path}` resolves outside the root this host grants")
        );
    }
    let refused = files.call("write", vec![str_arg("link.txt"), str_arg("payload")]);
    assert_eq!(
        err_message(refused),
        "files: `link.txt` resolves outside the root this host grants"
    );
    assert!(files.disk.files.is_empty());
}

#[test]
fn a_root_that_does_not_exist_yet_is_empty_until_the_first_write() {
    let mut files =
        Backed { files: Files::rooted("not-created-yet".to_string()), disk: Disk::default() };
    let read = files.call("read", vec![str_arg("notes.txt")]);
    assert_eq!(err_message(read), "files: `notes.txt` does not exist");
    assert!(!is_true(files.call("exists", vec![str_arg("notes.txt")])));
    assert!(!files.disk.root);

    files.call("write", vec![str_arg("notes.txt"), str_arg("now")]);
    let held = files.disk.files.get(&vec!["notes.txt".to_string()]);
    assert_eq!(held.map(String::as_str), Some("now"));
}

#[test]
fn a_disk_that_fails_says_why() {
    let request = |action| Request {
        action,
        path: "a.txt".to_string(),
        parts: vec!["a.txt".to_string()],
        contents: String::new(),
    };
    let why = || "no space".to_string();
    let said = |action, found| err_message(Files::finish(&request(action), found));
    assert_eq!(
        said(Action::Write, Found::RootFailed(why())),
        "files: cannot create the root directory: no space"
    );
    assert_eq!(said(Action::Write, Found::Failed(why())), "files: cannot write `a.txt`: no space");
    assert_eq!(said(Action::Read, Found::Failed(why())), "files: cannot read `a.txt`: no space");
    assert_eq!(said(Action::Read, Found::Outside), "files: `a.txt` resolves outside the root this host grants");
    assert_eq!(said(Action::List, Found::NoRoot), "files: `a.txt` does not exist");
    assert!(said(Action::List, Found::Broken(why())).contains("no space"));
    assert!(!is_true(Files::finish(&request(Action::Exists), Found::Outside)));
}

#[test]
fn a_tree_in_memory_cannot_write_over_its_root() {
    let mut files = both().remove(1);
    let refused = files.call("write", vec![str_arg("./."), str_arg("payload")]);
    assert_eq!(err_message(refused), "files: `./.` is a directory");
    assert!(is_true(files.call("exists", vec![str_arg(".")])));
}

#[test]
fn an_operation_with_the_wrong_arguments_is_an_error_of_the_run() {
    let mut files = Files::in_memory(Table::new());
    assert!(files.begin("read", &Vec::new()).is_err());
    assert!(files.begin("rename", &vec![str_arg("a")]).is_err());
}

#[test]
fn a_run_without_the_files_grant_cannot_read() {
    let mut hosts = HostRegistry::new(Grants::new(vec!["console".to_string()]));
    hosts.register(Box::new(Files::in_memory(Table::new())));
    let error = match hosts.call("files", "read", vec![str_arg("notes.txt")]).result {
        Ok(value) => panic!("the call should be rejected, and it answered {}", value.show()),
        Err(error) => error,
    };
    assert_eq!(
        error.message,
        "`files.read` requires the `files` capability, which this run was not granted"
    );
}

#[test]
fn a_granted_files_host_is_reachable_through_the_registry() {
    let mut hosts = HostRegistry::new(Grants::new(vec!["files".to_string()]));
    let mut table = Table::new();
    table.insert("notes.txt".to_string(), "hello".to_string());
    hosts.register(Box::new(Files::in_memory(table)));
    let read = match hosts.call("files", "read", vec![str_arg("notes.txt")]).result {
        Ok(value) => value,
        Err(error) => panic!("the call should be allowed: {}", error.message),
    };
    assert_eq!(ok_value(read).show(), "hello");
}

#[test]
fn signatures_read_like_source() {
    let files = Files::in_memory(Table::new());
    let rendered: Vec<String> =
        files.module_schema().operations.iter().map(|op| op.signature()).collect();
    assert_eq!(
        rendered,
        [
            "read(String) -> Result<String, Error>",
            "write(String, String) -> Result<Unit, Error>",
            "exists(String) -> Bool",
            "list(String) -> Result<Array<String>, Error>",
            "delete(String) -> Result<Unit, Error>",
        ]
    );
}

#[test]
fn reads_and_writes_declare_different_effects() {
    let files = Files::in_memory(Table::new());
    for op in files.module_schema().operations {
        let expected = match op.name.as_str() {
            "read" | "exists" | "list" => Effect::Read,
            "write" | "delete" => Effect::IrreversibleWrite,
            other => panic!("unexpected operation `{other}`"),
        };
        assert_eq!(op.effect, expected, "`files.{}`", op.name);
        assert_eq!(op.cancellable, expected == Effect::Read, "`files.{}`", op.name);
    }
}

#[test]
fn files_on_a_disk_are_not_looked_at_without_it() {
    let mut files = Files::rooted("root".to_string());
    let error = match files.call("read", vec![str_arg("a.txt")]) {
        Ok(value) => panic!("it takes the disk, and it answered {}", value.show()),
        Err(error) => error,
    };
    assert_eq!(error.message, "`files.read` needs the disk its files are on");
    let refused = match files.call("read", vec![str_arg("../a.txt")]) {
        Ok(value) => value.show(),
        Err(error) => panic!("a path that leaves the root is refused: {}", error.message),
    };
    assert!(refused.contains("leaves the root"), "{refused}");
    match files.call("exists", vec![str_arg("../a.txt")]) {
        Ok(value) => assert_eq!(value.show(), "false"),
        Err(error) => panic!("what leads outside is not there: {}", error.message),
    }
}
