//! `files`: reading, writing, listing and removing files under one root.
//!
//! Every path is relative to the root and `/`-separated, and `.` names the
//! root itself. A path that could name a place outside the root is refused
//! before anything is touched, whether the tree is kept here or on a disk.
//! What a disk holds is for its owner to look up: a request says what is
//! wanted, and what was found is turned into the answer.
use crate::error::RuntimeError;
use crate::host::{Asked, HostApi};
use crate::names::{Names, Table};
use crate::paths::{join, relative_key, relative_parts, split};
use crate::schema::ModuleSchema;
use crate::text::{joined, same};
use crate::value::{Datum, Value};
use vstd::prelude::*;
use vstd::string::*;

verus! {

/// What is asked of a tree of files.
#[derive(Clone, Copy, Debug, PartialEq, Eq, Structural)]
pub enum Action {
    Read,
    Write,
    Exists,
    List,
    Delete,
}

/// Where the files are.
#[derive(Debug)]
enum FileSource {
    /// On a disk, below this directory.
    Rooted(String),
    /// Here, each under its `/`-separated path.
    InMemory(Table),
}

/// `files`: reading, writing, listing and removing files under one root.
pub struct Files {
    source: FileSource,
    history: Ghost<Seq<Asked>>,
}

/// Where the files are, mathematically.
pub ghost enum Tree {
    Rooted(Seq<char>),
    InMemory(Map<Seq<char>, Seq<char>>),
}

impl View for Files {
    type V = Tree;

    closed spec fn view(&self) -> Tree {
        match self.source {
            FileSource::Rooted(root) => Tree::Rooted(root@),
            FileSource::InMemory(table) => Tree::InMemory(table@),
        }
    }
}

/// What is wanted of a disk.
#[derive(Debug)]
pub struct Request {
    pub action: Action,
    /// The path as it was asked for.
    pub path: String,
    /// The parts of the path below the root.
    pub parts: Vec<String>,
    /// What to write, and nothing for any other action.
    pub contents: String,
}

/// The next step of a call.
#[derive(Debug)]
pub enum Step {
    /// The answer.
    Done(Value),
    /// Something has to be looked up first.
    Ask(Request),
}

/// What was found on a disk.
#[derive(Debug)]
pub enum Found {
    /// The root does not exist.
    NoRoot,
    /// The root could not be made, for this reason.
    RootFailed(String),
    /// Links lead the path out of the root.
    Outside,
    /// There is nothing of that name.
    Missing,
    /// The disk failed, for this reason.
    Failed(String),
    /// A directory broke off while it was read, for this reason.
    Broken(String),
    /// What a file holds.
    Text(String),
    /// The names in a directory, in any order.
    Entries(Vec<String>),
    /// Whether something is there.
    There(bool),
    /// The file was written or removed.
    Done,
}

// ---------------------------------------------------------------- answers

/// What a failure answers.
pub open spec fn failed(message: Seq<char>) -> Datum {
    crate::value::err_of(crate::value::error_of(message))
}

/// What is said of a path that names nothing.
pub open spec fn missing(path: Seq<char>) -> Seq<char> {
    "files: `"@ + path + "` does not exist"@
}

/// Texts as values.
pub open spec fn strings(list: Seq<Seq<char>>) -> Seq<Datum> {
    Seq::new(list.len(), |i: int| Datum::Str(list[i]))
}

/// The answer lists these names, each once and in ascending order.
pub open spec fn lists(value: Datum, names: Set<Seq<char>>) -> bool {
    exists|list: Seq<Seq<char>>| #[trigger]
        crate::names::ascending(list) && (forall|x: Seq<char>| #[trigger]
            list.contains(x) <==> names.contains(x)) && value == crate::value::ok_of(
            Datum::Array(strings(list)),
        )
}

/// How many parts a key has.
pub open spec fn depth(key: Seq<char>) -> int {
    if key.len() == 0 {
        0
    } else {
        crate::paths::pieces(key).len() as int
    }
}

/// A stored path lies below the directory a key names.
pub open spec fn under(stored: Seq<char>, key: Seq<char>) -> bool {
    let parts = crate::paths::pieces(stored);
    &&& parts.len() > depth(key)
    &&& key.len() == 0 || crate::paths::slashed(parts.take(depth(key))) == key
}

/// The names directly inside the directory a key names.
pub open spec fn entries(tree: Map<Seq<char>, Seq<char>>, key: Seq<char>) -> Set<Seq<char>> {
    Set::new(
        |name: Seq<char>|
            exists|stored: Seq<char>| #[trigger]
                tree.contains_key(stored) && under(stored, key) && name == crate::paths::pieces(
                    stored,
                )[depth(key)],
    )
}

/// A text begins with another.
pub open spec fn begins(text: Seq<char>, start: Seq<char>) -> bool {
    text.len() >= start.len() && text.take(start.len() as int) == start
}

/// Something of a tree is reached by a path. What a refused path would reach
/// is not said.
pub open spec fn there(tree: Map<Seq<char>, Seq<char>>, path: Seq<char>) -> bool {
    match crate::paths::keyed(path) {
        Err(_) => false,
        Ok(key) => {
            ||| key.len() == 0
            ||| tree.contains_key(key)
            ||| exists|stored: Seq<char>| #[trigger]
                tree.contains_key(stored) && begins(stored, key + "/"@)
        },
    }
}

/// What a tree kept here answers, and what it is afterwards.
pub open spec fn answers(
    tree: Map<Seq<char>, Seq<char>>,
    action: Action,
    path: Seq<char>,
    contents: Seq<char>,
    after: Map<Seq<char>, Seq<char>>,
    value: Datum,
) -> bool {
    if action == Action::Exists {
        after == tree && value == Datum::Bool(there(tree, path))
    } else {
        match crate::paths::keyed(path) {
            Err(message) => after == tree && value == failed(message),
            Ok(key) => match action {
                Action::Read => after == tree && value == (if tree.contains_key(key) {
                    crate::value::ok_of(Datum::Str(tree[key]))
                } else {
                    failed(missing(path))
                }),
                Action::Write => if key.len() == 0 {
                    after == tree && value == failed("files: `"@ + path + "` is a directory"@)
                } else {
                    after == tree.insert(key, contents) && value == crate::value::ok_of(
                        Datum::Unit,
                    )
                },
                Action::List => after == tree && (if key.len() > 0 && entries(tree, key)
                    =~= Set::empty() {
                    value == failed(missing(path))
                } else {
                    lists(value, entries(tree, key))
                }),
                _ => if tree.contains_key(key) {
                    after == tree.remove(key) && value == crate::value::ok_of(Datum::Unit)
                } else {
                    after == tree && value == failed(missing(path))
                },
            },
        }
    }
}

/// What a disk's answer is, for what was found on it.
pub open spec fn answered(action: Action, path: Seq<char>, found: Found, value: Datum) -> bool {
    if action == Action::Exists {
        value == Datum::Bool(found matches Found::There(yes) && yes)
    } else {
        match found {
            Found::NoRoot => value == failed(missing(path)),
            Found::RootFailed(why) => value == failed(
                "files: cannot create the root directory: "@ + why@,
            ),
            Found::Outside => value == failed(
                "files: `"@ + path + "` resolves outside the root this host grants"@,
            ),
            Found::Missing => value == failed(missing(path)),
            Found::Failed(why) => value == failed(
                (if action == Action::Write {
                    "files: cannot write `"@
                } else {
                    "files: cannot read `"@
                }) + path + "`: "@ + why@,
            ),
            Found::Broken(why) => value == failed("files: cannot list `"@ + path + "`: "@ + why@),
            Found::Text(text) => value == crate::value::ok_of(Datum::Str(text@)),
            Found::Entries(names) => lists(value, crate::names::texts(names@).to_set()),
            Found::There(_) => value == crate::value::ok_of(Datum::Unit),
            Found::Done => value == crate::value::ok_of(Datum::Unit),
        }
    }
}

/// What a failure answers.
fn fail(message: String) -> (value: Value)
    ensures
        value@ == failed(message@),
{
    Value::err(Value::error(message))
}

/// What is said of a path that names nothing.
fn not_there(path: &str) -> (value: Value)
    ensures
        value@ == failed(missing(path@)),
{
    fail(joined("files: `", path, "` does not exist"))
}

/// The answer that lists some names.
fn list_of(names: &Names, Ghost(all): Ghost<Set<Seq<char>>>) -> (value: Value)
    requires
        forall|x: Seq<char>| #[trigger] names@.contains(x) <==> all.contains(x),
    ensures
        lists(value@, all),
{
    let list = names.list();
    let mut items: Vec<Value> = Vec::new();
    let mut i: usize = 0;
    while i < list.len()
        invariant
            i <= list@.len(),
            items@.len() == i,
            forall|j: int| 0 <= j < i ==> (#[trigger] items@[j])@ == Datum::Str(list@[j]@),
        decreases list@.len() - i,
    {
        items.push(Value::Str(list[i].clone()));
        i = i + 1;
    }
    let array = Value::Array(items);
    proof {
        crate::value::lemma_items(array, items);
        assert(crate::value::data(items@) =~= strings(names@)) by {
            assert forall|j: int| 0 <= j < items@.len() implies crate::value::data(items@)[j]
                == strings(names@)[j] by {
                assert(names@[j] == list@[j]@);
            }
        }
        assert(crate::names::ascending(names@));
    }
    Value::ok(array)
}

/// Whether a text begins with another.
fn starts_with(text: &str, start: &str) -> (yes: bool)
    ensures
        yes == begins(text@, start@),
{
    let total: usize = text.unicode_len();
    let length: usize = start.unicode_len();
    if total < length {
        return false;
    }
    let head = text.substring_char(0, length);
    proof {
        assert(head@ =~= text@.take(length as int));
    }
    same(head, start)
}

impl Files {
    /// Files on a disk, reachable only below `root`.
    pub fn rooted(root: String) -> (files: Files)
        ensures
            files@ == Tree::Rooted(root@),
    {
        Files { source: FileSource::Rooted(root), history: Ghost(Seq::empty()) }
    }

    /// Files kept here, each under its `/`-separated relative path. A path
    /// that is not kept but has others below it is a directory.
    pub fn in_memory(files: Table) -> (it: Files)
        ensures
            it@ == Tree::InMemory(files@),
    {
        Files { source: FileSource::InMemory(files), history: Ghost(Seq::empty()) }
    }

    /// The names directly inside the directory a key names.
    fn listing(files: &Table, key: &str) -> (names: Names)
        ensures
            forall|x: Seq<char>| #[trigger]
                names@.contains(x) <==> entries(files@, key@).contains(x),
    {
        let whole: bool = key.unicode_len() == 0;
        let level: usize = if whole {
            0
        } else {
            let parts: Vec<String> = split(key);
            proof {
                assert(crate::names::texts(parts@).len() == parts@.len());
            }
            parts.len()
        };
        let stored: Vec<&String> = files.names();
        let mut names = Names::new();
        let mut i: usize = 0;
        while i < stored.len()
            invariant
                i <= stored@.len(),
                whole == (key@.len() == 0),
                level == depth(key@),
                forall|x: Seq<char>| #[trigger]
                    names@.contains(x) <==> exists|j: int|
                        #![trigger stored@[j]]
                        0 <= j < i && under(stored@[j]@, key@) && x == crate::paths::pieces(
                            stored@[j]@,
                        )[depth(key@)],
            decreases stored@.len() - i,
        {
            let ghost were = names@;
            let parts: Vec<String> = split(stored[i].as_str());
            let ghost cut = crate::paths::pieces(stored@[i as int]@);
            proof {
                assert(cut.len() == parts@.len());
            }
            let mut inside: bool = false;
            if parts.len() > level {
                inside = whole || same(join(&parts, level).as_str(), key);
            }
            proof {
                assert(inside == under(stored@[i as int]@, key@));
            }
            if inside {
                names.insert(parts[level].clone());
            }
            proof {
                assert forall|x: Seq<char>| #[trigger] names@.contains(x) <==> exists|j: int|
                    #![trigger stored@[j]]
                    0 <= j < i + 1 && under(stored@[j]@, key@) && x == crate::paths::pieces(
                        stored@[j]@,
                    )[depth(key@)] by {
                    if were.contains(x) {
                        let j = choose|j: int|
                            #![trigger stored@[j]]
                            0 <= j < i && under(stored@[j]@, key@) && x == crate::paths::pieces(
                                stored@[j]@,
                            )[depth(key@)];
                        assert(0 <= j < i + 1 && under(stored@[j]@, key@));
                    }
                    if inside && x == parts@[level as int]@ {
                        let j = i as int;
                        assert(0 <= j < i + 1 && under(stored@[j]@, key@) && x
                            == crate::paths::pieces(stored@[j]@)[depth(key@)]);
                    }
                }
            }
            i = i + 1;
        }
        proof {
            assert forall|x: Seq<char>| #[trigger] names@.contains(x) <==> entries(
                files@,
                key@,
            ).contains(x) by {
                if names@.contains(x) {
                    let j = choose|j: int|
                        #![trigger stored@[j]]
                        0 <= j < i && under(stored@[j]@, key@) && x == crate::paths::pieces(
                            stored@[j]@,
                        )[depth(key@)];
                    assert(files@.contains_key(stored@[j]@));
                }
                if entries(files@, key@).contains(x) {
                    let k = choose|k: Seq<char>| #[trigger]
                        files@.contains_key(k) && under(k, key@) && x == crate::paths::pieces(
                            k,
                        )[depth(key@)];
                    let j = choose|j: int| 0 <= j < stored@.len() && #[trigger] stored@[j]@ == k;
                    assert(0 <= j < i && under(stored@[j]@, key@));
                }
            }
        }
        names
    }

    /// Whether a path reaches something of a tree.
    fn reaches(files: &Table, path: &str) -> (yes: bool)
        ensures
            yes == there(files@, path@),
    {
        let key: String = match relative_key(path) {
            Ok(key) => key,
            Err(_) => {
                return false;
            },
        };
        if key.as_str().unicode_len() == 0 {
            return true;
        }
        if files.get(key.as_str()).is_some() {
            return true;
        }
        let mut start: String = key.clone();
        start.append("/");
        let stored: Vec<&String> = files.names();
        let mut i: usize = 0;
        while i < stored.len()
            invariant
                i <= stored@.len(),
                start@ == key@ + "/"@,
                crate::paths::keyed(path@) == Ok::<Seq<char>, Seq<char>>(key@),
                forall|name: Seq<char>| #[trigger]
                    files@.contains_key(name) <==> exists|j: int|
                        0 <= j < stored@.len() && #[trigger] stored@[j]@ == name,
                forall|j: int| 0 <= j < i ==> !begins(#[trigger] stored@[j]@, start@),
            decreases stored@.len() - i,
        {
            if starts_with(stored[i].as_str(), start.as_str()) {
                proof {
                    assert(files@.contains_key(stored@[i as int]@));
                }
                return true;
            }
            i = i + 1;
        }
        proof {
            if exists|k: Seq<char>| #[trigger] files@.contains_key(k) && begins(k, key@ + "/"@) {
                let k = choose|k: Seq<char>| #[trigger]
                    files@.contains_key(k) && begins(k, key@ + "/"@);
                let j = choose|j: int| 0 <= j < stored@.len() && #[trigger] stored@[j]@ == k;
                assert(begins(stored@[j]@, start@));
            }
        }
        false
    }

    /// What a tree kept here answers.
    fn answer_from(files: &mut Table, action: Action, path: &str, contents: &str) -> (value: Value)
        ensures
            answers(old(files)@, action, path@, contents@, final(files)@, value@),
    {
        match action {
            Action::Exists => {
                return Value::Bool(Files::reaches(files, path));
            },
            _ => {},
        }
        let key: String = match relative_key(path) {
            Ok(key) => key,
            Err(message) => {
                return fail(message);
            },
        };
        match action {
            Action::Read => match files.get(key.as_str()) {
                Some(text) => Value::ok(Value::Str(text.clone())),
                None => not_there(path),
            },
            Action::Write => {
                if key.as_str().unicode_len() == 0 {
                    return fail(joined("files: `", path, "` is a directory"));
                }
                files.insert(key, contents.to_owned());
                Value::ok(Value::Unit)
            },
            Action::List => {
                let names = Files::listing(files, key.as_str());
                let ghost all = entries(files@, key@);
                let count: usize = names.list().len();
                proof {
                    assert(names@.len() == count);
                    if count == 0 {
                        assert(all =~= Set::empty()) by {
                            assert forall|x: Seq<char>| !all.contains(x) by {
                                assert(!names@.contains(x));
                            }
                        }
                    } else {
                        assert(names@.contains(names@[0]));
                        assert(all.contains(names@[0]));
                    }
                }
                if count == 0 && key.as_str().unicode_len() > 0 {
                    return not_there(path);
                }
                list_of(&names, Ghost(all))
            },
            _ => {
                let ghost were = files@;
                if files.remove(key.as_str()) {
                    Value::ok(Value::Unit)
                } else {
                    proof {
                        assert(were.remove(key@) =~= were);
                    }
                    not_there(path)
                }
            },
        }
    }

    /// Takes one call of an operation: the answer of a tree kept here, and of
    /// a disk what is wanted of it. A refused path never reaches the disk.
    pub fn begin(&mut self, op: &str, args: &Vec<Value>) -> (step: Result<Step, RuntimeError>)
        ensures
            final(self).asked() == old(self).asked(),
            match wanted(op@, crate::value::data(args@)) {
                Err(message) => final(self)@ == old(self)@ && step is Err && step->Err_0@
                    == crate::error::failure(message),
                Ok((action, path, contents)) => step is Ok && takes(
                    old(self)@,
                    action,
                    path,
                    contents,
                    final(self)@,
                    step->Ok_0,
                ),
            },
    {
        proof {
            reveal_strlit("read");
            reveal_strlit("write");
            reveal_strlit("exists");
            reveal_strlit("list");
            reveal_strlit("delete");
            reveal_strlit("");
            assert(""@ =~= Seq::<char>::empty());
        }
        let action: Action = if same(op, "read") {
            Action::Read
        } else if same(op, "write") {
            Action::Write
        } else if same(op, "exists") {
            Action::Exists
        } else if same(op, "list") {
            Action::List
        } else if same(op, "delete") {
            Action::Delete
        } else {
            return Err(RuntimeError::new(joined("`files` has no operation `", op, "`")));
        };
        proof {
            assert(crate::value::data(args@).len() == args@.len());
        }
        let write: bool = match action {
            Action::Write => true,
            _ => false,
        };
        if write {
            if args.len() == 2 {
                if let Value::Str(path) = &args[0] {
                    if let Value::Str(contents) = &args[1] {
                        proof {
                            assert(crate::value::data(args@)[0] == Datum::Str(path@));
                            assert(crate::value::data(args@)[1] == Datum::Str(contents@));
                        }
                        return Ok(self.take(action, path.as_str(), contents.as_str()));
                    }
                }
            }
            proof {
                if args@.len() == 2 {
                    assert(crate::value::data(args@)[0] == args@[0]@);
                    assert(crate::value::data(args@)[1] == args@[1]@);
                }
            }
            return Err(
                RuntimeError::new("`files.write` takes two `String` arguments".to_owned()),
            );
        }
        if args.len() == 1 {
            if let Value::Str(path) = &args[0] {
                proof {
                    assert(crate::value::data(args@)[0] == Datum::Str(path@));
                    assert("read"@.len() == 4 && "write"@.len() == 5);
                    assert(op@ != "write"@);
                    assert(wanted(op@, crate::value::data(args@)) == Ok::<
                        (Action, Seq<char>, Seq<char>),
                        Seq<char>,
                    >((action, path@, ""@)));
                }
                return Ok(self.take(action, path.as_str(), ""));
            }
        }
        proof {
            if args@.len() == 1 {
                assert(crate::value::data(args@)[0] == args@[0]@);
            }
        }
        Err(RuntimeError::new(joined("`files.", op, "` takes one `String` argument")))
    }

    /// Takes one action.
    fn take(&mut self, action: Action, path: &str, contents: &str) -> (step: Step)
        ensures
            final(self).asked() == old(self).asked(),
            takes(old(self)@, action, path@, contents@, final(self)@, step),
    {
        match &mut self.source {
            FileSource::InMemory(files) => Step::Done(
                Files::answer_from(files, action, path, contents),
            ),
            FileSource::Rooted(_) => match relative_parts(path) {
                Ok(parts) => Step::Ask(
                    Request {
                        action,
                        path: path.to_owned(),
                        parts,
                        contents: contents.to_owned(),
                    },
                ),
                Err(message) => match action {
                    Action::Exists => Step::Done(Value::Bool(false)),
                    _ => Step::Done(fail(message)),
                },
            },
        }
    }

    /// The answer to a request, for what was found on the disk.
    pub fn finish(request: &Request, found: Found) -> (value: Value)
        ensures
            answered(request.action, request.path@, found, value@),
    {
        let path = request.path.as_str();
        match request.action {
            Action::Exists => {
                let yes: bool = match found {
                    Found::There(yes) => yes,
                    _ => false,
                };
                return Value::Bool(yes);
            },
            _ => {},
        }
        match found {
            Found::NoRoot => not_there(path),
            Found::RootFailed(why) => {
                let mut message: String = "files: cannot create the root directory: ".to_owned();
                message.append(why.as_str());
                fail(message)
            },
            Found::Outside => fail(
                joined("files: `", path, "` resolves outside the root this host grants"),
            ),
            Found::Missing => not_there(path),
            Found::Failed(why) => {
                let mut message: String = match request.action {
                    Action::Write => "files: cannot write `".to_owned(),
                    _ => "files: cannot read `".to_owned(),
                };
                message.append(path);
                message.append("`: ");
                message.append(why.as_str());
                fail(message)
            },
            Found::Broken(why) => {
                let mut message: String = joined("files: cannot list `", path, "`: ");
                message.append(why.as_str());
                fail(message)
            },
            Found::Text(text) => Value::ok(Value::Str(text)),
            Found::Entries(list) => {
                let mut names = Names::new();
                let ghost all = crate::names::texts(list@);
                let mut i: usize = 0;
                while i < list.len()
                    invariant
                        i <= list@.len(),
                        all == crate::names::texts(list@),
                        forall|x: Seq<char>| #[trigger]
                            names@.contains(x) <==> all.take(i as int).contains(x),
                    decreases list@.len() - i,
                {
                    names.insert(list[i].clone());
                    proof {
                        let fewer = all.take(i as int);
                        let more = all.take(i + 1);
                        assert(more =~= fewer.push(list@[i as int]@));
                        assert forall|x: Seq<char>| #[trigger]
                            names@.contains(x) <==> more.contains(x) by {
                            if fewer.contains(x) {
                                let j = choose|j: int| 0 <= j < fewer.len() && fewer[j] == x;
                                assert(more[j] == x);
                            }
                            if x == list@[i as int]@ {
                                assert(more[i as int] == x);
                            }
                            if more.contains(x) {
                                let j = choose|j: int| 0 <= j < more.len() && more[j] == x;
                                if j < i {
                                    assert(fewer[j] == x);
                                }
                            }
                        }
                    }
                    i = i + 1;
                }
                proof {
                    assert(all.take(i as int) =~= all);
                }
                list_of(&names, Ghost(all.to_set()))
            },
            Found::There(_) => Value::ok(Value::Unit),
            Found::Done => Value::ok(Value::Unit),
        }
    }
}

impl HostApi for Files {
    closed spec fn asked(&self) -> Option<Seq<Asked>> {
        Some(self.history@)
    }

    open spec fn declares(&self, schema: ModuleSchema) -> bool {
        crate::shipped::is_files(schema)
    }

    fn module_schema(&self) -> (schema: ModuleSchema) {
        crate::shipped::files_schema()
    }

    /// Answers for files kept here. A disk is not looked at here: what would
    /// need one is refused.
    fn call(&mut self, op: &str, args: Vec<Value>) -> (result: Result<Value, RuntimeError>)
        ensures
            served(old(self)@, final(self)@, op@, crate::value::data(args@), result),
    {
        let begun = self.begin(op, &args);
        let result = match begun {
            Err(error) => Err(error),
            Ok(Step::Done(value)) => Ok(value),
            Ok(Step::Ask(_)) => Err(
                RuntimeError::new(joined("`files.", op, "` needs the disk its files are on")),
            ),
        };
        self.history = Ghost(
            self.history@.push(
                Asked { handle: None, op: op@, args: crate::value::data(args@), answer: result },
            ),
        );
        result
    }
}

/// What `files` answers, with the files before and after: what becomes of the
/// files kept here; or why it is not a call `files` takes; or, where the files
/// are on a disk, what can be said without it.
pub open spec fn served(
    before: Tree,
    after: Tree,
    op: Seq<char>,
    args: Seq<Datum>,
    result: Result<Value, RuntimeError>,
) -> bool {
    match wanted(op, args) {
        Err(message) => after == before && result is Err && result->Err_0@
            == crate::error::failure(message),
        Ok((action, path, contents)) => match before {
            Tree::InMemory(files) => after is InMemory && result is Ok && answers(
                files,
                action,
                path,
                contents,
                after->InMemory_0,
                result->Ok_0@,
            ),
            Tree::Rooted(_) => after == before && match crate::paths::relative(path) {
                Err(why) => result is Ok && result->Ok_0@ == (if action == Action::Exists {
                    Datum::Bool(false)
                } else {
                    failed(why)
                }),
                Ok(_) => result is Err && result->Err_0@ == crate::error::failure(
                    "`files."@ + op + "` needs the disk its files are on"@,
                ),
            },
        },
    }
}

/// What a call asks for, or why it is not a call `files` takes.
pub open spec fn wanted(op: Seq<char>, args: Seq<Datum>) -> Result<
    (Action, Seq<char>, Seq<char>),
    Seq<char>,
> {
    if op == "write"@ {
        if args.len() == 2 && args[0] is Str && args[1] is Str {
            Ok((Action::Write, args[0]->Str_0, args[1]->Str_0))
        } else {
            Err("`files.write` takes two `String` arguments"@)
        }
    } else if op == "read"@ || op == "exists"@ || op == "list"@ || op == "delete"@ {
        if args.len() == 1 && args[0] is Str {
            let action = if op == "read"@ {
                Action::Read
            } else if op == "exists"@ {
                Action::Exists
            } else if op == "list"@ {
                Action::List
            } else {
                Action::Delete
            };
            Ok((action, args[0]->Str_0, Seq::empty()))
        } else {
            Err("`files."@ + op + "` takes one `String` argument"@)
        }
    } else {
        Err("`files` has no operation `"@ + op + "`"@)
    }
}

/// The next step of an action on a tree, and the tree afterwards.
pub open spec fn takes(
    tree: Tree,
    action: Action,
    path: Seq<char>,
    contents: Seq<char>,
    after: Tree,
    step: Step,
) -> bool {
    match tree {
        Tree::InMemory(files) => after is InMemory && step is Done && answers(
            files,
            action,
            path,
            contents,
            after->InMemory_0,
            step->Done_0@,
        ),
        Tree::Rooted(_) => after == tree && match crate::paths::relative(path) {
            Err(message) => step is Done && step->Done_0@ == (if action == Action::Exists {
                Datum::Bool(false)
            } else {
                failed(message)
            }),
            Ok(parts) => step is Ask && step->Ask_0.action == action && step->Ask_0.path@ == path
                && crate::names::texts(step->Ask_0.parts@) == parts && step->Ask_0.contents@
                == contents,
        },
    }
}

// ------------------------------------------------------------------- laws

/// Reading a path answers what was last written to it.
pub proof fn what_is_written_is_read_back(
    tree: Map<Seq<char>, Seq<char>>,
    path: Seq<char>,
    contents: Seq<char>,
    written: Map<Seq<char>, Seq<char>>,
    done: Datum,
    after: Map<Seq<char>, Seq<char>>,
    value: Datum,
)
    requires
        crate::paths::keyed(path) is Ok,
        crate::paths::keyed(path)->Ok_0.len() > 0,
        answers(tree, Action::Write, path, contents, written, done),
        answers(written, Action::Read, path, Seq::empty(), after, value),
    ensures
        value == crate::value::ok_of(Datum::Str(contents)),
        there(written, path),
{
}

/// A path that was deleted is gone, and every other stays as it was.
pub proof fn what_is_deleted_is_gone(
    tree: Map<Seq<char>, Seq<char>>,
    path: Seq<char>,
    deleted: Map<Seq<char>, Seq<char>>,
    done: Datum,
    after: Map<Seq<char>, Seq<char>>,
    value: Datum,
    other: Seq<char>,
)
    requires
        crate::paths::keyed(path) is Ok,
        answers(tree, Action::Delete, path, Seq::empty(), deleted, done),
        answers(deleted, Action::Read, path, Seq::empty(), after, value),
    ensures
        value == failed(missing(path)),
        crate::paths::keyed(path)->Ok_0 != other ==> (deleted.contains_key(other)
            <==> tree.contains_key(other)) && (tree.contains_key(other) ==> deleted[other]
            == tree[other]),
{
}

/// A refused path changes nothing, wherever the files are, and no disk is
/// asked about it.
pub proof fn a_refused_path_touches_nothing(
    tree: Tree,
    action: Action,
    path: Seq<char>,
    contents: Seq<char>,
    after: Tree,
    step: Step,
)
    requires
        crate::paths::relative(path) is Err,
        takes(tree, action, path, contents, after, step),
    ensures
        after == tree,
        step is Done,
        action != Action::Exists ==> step->Done_0@ == failed(crate::paths::relative(path)->Err_0),
        action == Action::Exists ==> step->Done_0@ == Datum::Bool(false),
{
}

/// What lies below a key is its directory's, and the next part of it the name
/// of an entry there.
proof fn lemma_what_lies_below(key: Seq<char>, rest: Seq<char>)
    requires
        key.len() > 0,
    ensures
        under(key + seq!['/'] + rest, key),
        begins(key + seq!['/'] + rest, key + "/"@),
        crate::paths::pieces(key + seq!['/'] + rest)[depth(key)] == crate::paths::pieces(rest)[0],
{
    reveal_strlit("/");
    let stored = key + seq!['/'] + rest;
    let parts = crate::paths::pieces(key);
    crate::paths::a_text_is_cut_at_a_slash(key, rest);
    crate::paths::what_was_cut_is_joined_again(key);
    crate::paths::what_was_cut_is_joined_again(rest);
    assert(crate::paths::pieces(stored).take(depth(key)) =~= parts);
    assert(stored.take((key + "/"@).len() as int) =~= key + "/"@);
}

proof fn lemma_what_is_under_lies_below(stored: Seq<char>, key: Seq<char>) -> (rest: Seq<char>)
    requires
        key.len() > 0,
        under(stored, key),
    ensures
        stored == key + seq!['/'] + rest,
{
    let parts = crate::paths::pieces(stored);
    let head = parts.take(depth(key));
    let tail = parts.skip(depth(key));
    crate::paths::what_was_cut_is_joined_again(stored);
    crate::paths::what_was_cut_is_joined_again(key);
    assert(parts =~= head + tail);
    crate::paths::runs_are_joined_each_for_itself(head, tail);
    crate::paths::slashed(tail)
}

proof fn lemma_what_begins_lies_below(stored: Seq<char>, key: Seq<char>) -> (rest: Seq<char>)
    requires
        begins(stored, key + "/"@),
    ensures
        stored == key + seq!['/'] + rest,
{
    reveal_strlit("/");
    let head = key + "/"@;
    let rest = stored.skip(head.len() as int);
    assert(stored =~= stored.take(head.len() as int) + rest);
    assert(stored =~= key + seq!['/'] + rest);
    rest
}

/// The first piece of a text is a name when the text is that name, or the name
/// and a `/` and more.
proof fn lemma_the_first_piece(name: Seq<char>, rest: Seq<char>)
    ensures
        crate::paths::pieces(rest)[0] == name <==> !name.contains('/') && (rest == name || exists|
            more: Seq<char>,
        | rest == #[trigger] (name + seq!['/'] + more)),
{
    let parts = crate::paths::pieces(rest);
    crate::paths::what_was_cut_is_joined_again(rest);
    if parts[0] == name {
        assert(!parts[0].contains('/'));
        if parts.len() == 1 {
            assert(parts =~= seq![name]);
        } else {
            let tail = parts.skip(1);
            assert(parts =~= seq![name] + tail);
            crate::paths::runs_are_joined_each_for_itself(seq![name], tail);
            assert(rest == name + seq!['/'] + crate::paths::slashed(tail));
        }
    }
    if !name.contains('/') {
        crate::paths::a_text_without_a_slash_is_one_piece(name);
        if exists|more: Seq<char>| rest == #[trigger] (name + seq!['/'] + more) {
            let more = choose|more: Seq<char>| rest == #[trigger] (name + seq!['/'] + more);
            crate::paths::a_text_is_cut_at_a_slash(name, more);
        }
    }
}

/// Something is there just when its key is kept, or a key that goes on from it
/// after a `/` is; and the root always is.
pub proof fn what_is_there_is_kept_or_has_something_below_it(
    tree: Map<Seq<char>, Seq<char>>,
    path: Seq<char>,
    contents: Seq<char>,
    after: Map<Seq<char>, Seq<char>>,
    value: Datum,
)
    requires
        answers(tree, Action::Exists, path, contents, after, value),
    ensures
        after == tree,
        match crate::paths::keyed(path) {
            Err(_) => value == Datum::Bool(false),
            Ok(key) => value == Datum::Bool(
                key.len() == 0 || tree.contains_key(key) || exists|rest: Seq<char>|
                    tree.contains_key(#[trigger] (key + seq!['/'] + rest)),
            ),
        },
{
    match crate::paths::keyed(path) {
        Err(_) => {},
        Ok(key) => {
            if key.len() > 0 {
                if exists|stored: Seq<char>| #[trigger]
                    tree.contains_key(stored) && begins(stored, key + "/"@) {
                    let stored = choose|stored: Seq<char>| #[trigger]
                        tree.contains_key(stored) && begins(stored, key + "/"@);
                    let rest = lemma_what_begins_lies_below(stored, key);
                    assert(tree.contains_key(key + seq!['/'] + rest));
                }
                if exists|rest: Seq<char>| tree.contains_key(#[trigger] (key + seq!['/'] + rest)) {
                    let rest = choose|rest: Seq<char>|
                        tree.contains_key(#[trigger] (key + seq!['/'] + rest));
                    lemma_what_lies_below(key, rest);
                }
            }
        },
    }
}

/// Something is there just when it can be read or can be listed.
pub proof fn what_is_there_can_be_read_or_listed(
    tree: Map<Seq<char>, Seq<char>>,
    path: Seq<char>,
    found: Datum,
    text: Datum,
    list: Datum,
)
    requires
        answers(tree, Action::Exists, path, Seq::empty(), tree, found),
        answers(tree, Action::Read, path, Seq::empty(), tree, text),
        answers(tree, Action::List, path, Seq::empty(), tree, list),
    ensures
        found == Datum::Bool(true) || found == Datum::Bool(false),
        found == Datum::Bool(true) <==> (text matches Datum::Enum(ty, case, payload) && ty == "Result"@ && case
            == "Ok"@ && payload.len() == 1 && payload[0] is Str) || (list matches Datum::Enum(ty, case, payload) && ty == "Result"@ && case
            == "Ok"@ && payload.len() == 1 && payload[0] is Array),
{
    reveal_strlit("Ok");
    reveal_strlit("Err");
    assert("Ok"@.len() != "Err"@.len());
    what_is_there_is_kept_or_has_something_below_it(tree, path, Seq::empty(), tree, found);
    a_directory_is_listed_when_something_lies_in_it(tree, path, Seq::empty(), tree, list);
    match crate::paths::keyed(path) {
        Err(_) => {},
        Ok(key) => {
            if tree.contains_key(key) {
                assert(text == Datum::Enum("Result"@, "Ok"@, seq![Datum::Str(tree[key])]));
            }
        },
    }
}

/// A directory is listed just when it is the root or some key goes on from its
/// key after a `/`; otherwise an error is answered.
pub proof fn a_directory_is_listed_when_something_lies_in_it(
    tree: Map<Seq<char>, Seq<char>>,
    path: Seq<char>,
    contents: Seq<char>,
    after: Map<Seq<char>, Seq<char>>,
    value: Datum,
)
    requires
        answers(tree, Action::List, path, contents, after, value),
    ensures
        after == tree,
        (value matches Datum::Enum(ty, case, payload) && ty == "Result"@ && case
            == "Ok"@ && payload.len() == 1 && payload[0] is Array) <==> (
        match crate::paths::keyed(path) {
            Err(_) => false,
            Ok(key) => key.len() == 0 || exists|rest: Seq<char>|
                tree.contains_key(#[trigger] (key + seq!['/'] + rest)),
        }),
        value matches Datum::Enum(ty, case, payload) && ty == "Result"@ && payload.len() == 1 && (
        case == "Ok"@ || case == "Err"@),
{
    reveal_strlit("Ok");
    reveal_strlit("Err");
    assert("Ok"@.len() != "Err"@.len());
    match crate::paths::keyed(path) {
        Err(_) => {},
        Ok(key) => {
            let names = entries(tree, key);
            if key.len() > 0 {
                if exists|rest: Seq<char>| tree.contains_key(#[trigger] (key + seq!['/'] + rest)) {
                    let rest = choose|rest: Seq<char>|
                        tree.contains_key(#[trigger] (key + seq!['/'] + rest));
                    lemma_what_lies_below(key, rest);
                    assert(names.contains(crate::paths::pieces(rest)[0]));
                }
                if !(names =~= Set::empty()) {
                    let name = choose|name: Seq<char>| names.contains(name);
                    let stored = choose|stored: Seq<char>| #[trigger]
                        tree.contains_key(stored) && under(stored, key) && name
                            == crate::paths::pieces(stored)[depth(key)];
                    let rest = lemma_what_is_under_lies_below(stored, key);
                    assert(tree.contains_key(key + seq!['/'] + rest));
                }
            }
            if key.len() == 0 || !(names =~= Set::empty()) {
                let list = choose|list: Seq<Seq<char>>| #[trigger]
                    crate::names::ascending(list) && (forall|x: Seq<char>| #[trigger]
                        list.contains(x) <==> names.contains(x)) && value == crate::value::ok_of(
                        Datum::Array(strings(list)),
                    );
                assert(value == Datum::Enum("Result"@, "Ok"@, seq![Datum::Array(strings(list))]));
            }
        },
    }
}

/// A directory lists just the names that some key has next after the
/// directory's, each once and in order.
pub proof fn a_directory_lists_what_lies_in_it(
    tree: Map<Seq<char>, Seq<char>>,
    path: Seq<char>,
    contents: Seq<char>,
    after: Map<Seq<char>, Seq<char>>,
    items: Seq<Datum>,
    name: Seq<char>,
)
    requires
        crate::paths::keyed(path) is Ok,
        answers(
            tree,
            Action::List,
            path,
            contents,
            after,
            Datum::Enum("Result"@, "Ok"@, seq![Datum::Array(items)]),
        ),
    ensures
        items.contains(Datum::Str(name)) <==> !name.contains('/') && (if crate::paths::keyed(path)->Ok_0.len() == 0 {
            tree.contains_key(name) || exists|more: Seq<char>|
                tree.contains_key(#[trigger] (name + seq!['/'] + more))
        } else {
            tree.contains_key(crate::paths::keyed(path)->Ok_0 + seq!['/'] + name) || exists|more: Seq<char>|
                tree.contains_key(#[trigger] (crate::paths::keyed(path)->Ok_0 + seq!['/'] + name + seq!['/'] + more))
        }),
        forall|i: int| 0 <= i < items.len() ==> (#[trigger] items[i]) is Str,
        forall|i: int, j: int|
            #![trigger items[i], items[j]]
            0 <= i < j < items.len() ==> crate::names::before(items[i]->Str_0, items[j]->Str_0),
{
    reveal_strlit("Ok");
    reveal_strlit("Err");
    assert("Ok"@.len() != "Err"@.len());
    let key = crate::paths::keyed(path)->Ok_0;
    let value = Datum::Enum("Result"@, "Ok"@, seq![Datum::Array(items)]);
    let names = entries(tree, key);
    assert(lists(value, names));
    let list = choose|list: Seq<Seq<char>>| #[trigger]
        crate::names::ascending(list) && (forall|x: Seq<char>| #[trigger]
            list.contains(x) <==> names.contains(x)) && value == crate::value::ok_of(
            Datum::Array(strings(list)),
        );
    assert(seq![Datum::Array(items)][0] == seq![Datum::Array(strings(list))][0]);
    assert(items == strings(list));
    if items.contains(Datum::Str(name)) {
        let i = choose|i: int| 0 <= i < items.len() && items[i] == Datum::Str(name);
        assert(list[i] == name);
        assert(list.contains(name));
    }
    if list.contains(name) {
        let i = choose|i: int| 0 <= i < list.len() && list[i] == name;
        assert(items[i] == Datum::Str(name));
    }
    lemma_the_entries(tree, key, name);
}

proof fn lemma_the_entries(tree: Map<Seq<char>, Seq<char>>, key: Seq<char>, name: Seq<char>)
    ensures
        entries(tree, key).contains(name) <==> !name.contains('/') && (if key.len() == 0 {
            tree.contains_key(name) || exists|more: Seq<char>|
                tree.contains_key(#[trigger] (name + seq!['/'] + more))
        } else {
            tree.contains_key(key + seq!['/'] + name) || exists|more: Seq<char>|
                tree.contains_key(#[trigger] (key + seq!['/'] + name + seq!['/'] + more))
        }),
{
    let whole = if key.len() == 0 {
        name
    } else {
        key + seq!['/'] + name
    };
    if entries(tree, key).contains(name) {
        let stored = choose|stored: Seq<char>| #[trigger]
            tree.contains_key(stored) && under(stored, key) && name == crate::paths::pieces(
                stored,
            )[depth(key)];
        let rest = if key.len() == 0 {
            stored
        } else {
            lemma_what_is_under_lies_below(stored, key)
        };
        if key.len() > 0 {
            lemma_what_lies_below(key, rest);
        }
        lemma_the_first_piece(name, rest);
        if rest != name {
            let more = choose|more: Seq<char>| rest == #[trigger] (name + seq!['/'] + more);
            assert(whole + seq!['/'] + more =~= stored);
        }
    }
    if !name.contains('/') {
        if tree.contains_key(whole) {
            lemma_an_entry(tree, key, name, name);
        }
        if exists|more: Seq<char>| tree.contains_key(#[trigger] (whole + seq!['/'] + more)) {
            let more = choose|more: Seq<char>|
                tree.contains_key(#[trigger] (whole + seq!['/'] + more));
            let rest = name + seq!['/'] + more;
            if key.len() > 0 {
                assert(whole + seq!['/'] + more =~= key + seq!['/'] + rest);
            }
            lemma_an_entry(tree, key, name, rest);
        }
    }
}

proof fn lemma_an_entry(
    tree: Map<Seq<char>, Seq<char>>,
    key: Seq<char>,
    name: Seq<char>,
    rest: Seq<char>,
)
    requires
        !name.contains('/'),
        rest == name || exists|more: Seq<char>| rest == #[trigger] (name + seq!['/'] + more),
        tree.contains_key(
            if key.len() == 0 {
                rest
            } else {
                key + seq!['/'] + rest
            },
        ),
    ensures
        entries(tree, key).contains(name),
{
    lemma_the_first_piece(name, rest);
    crate::paths::what_was_cut_is_joined_again(rest);
    if key.len() > 0 {
        lemma_what_lies_below(key, rest);
    }
}

/// Writing and deleting touch one key and no other, and only where they answer
/// that they did; nothing else touches any.
pub proof fn a_change_touches_one_key(
    tree: Map<Seq<char>, Seq<char>>,
    action: Action,
    path: Seq<char>,
    contents: Seq<char>,
    after: Map<Seq<char>, Seq<char>>,
    value: Datum,
    other: Seq<char>,
)
    requires
        answers(tree, action, path, contents, after, value),
    ensures
        action != Action::Write && action != Action::Delete ==> after == tree,
        value != Datum::Enum("Result"@, "Ok"@, seq![Datum::Unit]) ==> after == tree,
        crate::paths::keyed(path) != Ok::<Seq<char>, Seq<char>>(other) ==> (after.contains_key(
            other,
        ) <==> tree.contains_key(other)) && (tree.contains_key(other) ==> after[other]
            == tree[other]),
        crate::paths::keyed(path) == Ok::<Seq<char>, Seq<char>>(other) && action == Action::Write
            && other.len() > 0 ==> after.contains_key(other) && after[other] == contents && value
            == Datum::Enum("Result"@, "Ok"@, seq![Datum::Unit]),
        crate::paths::keyed(path) == Ok::<Seq<char>, Seq<char>>(other) && action == Action::Delete
            ==> !after.contains_key(other) && (value == Datum::Enum(
            "Result"@,
            "Ok"@,
            seq![Datum::Unit],
        ) <==> tree.contains_key(other)),
{
    reveal_strlit("Ok");
    reveal_strlit("Err");
    assert("Ok"@.len() != "Err"@.len());
}

/// A disk's answer is a success just when what was found on it is one.
pub proof fn a_disk_succeeds_where_something_was_found(
    action: Action,
    path: Seq<char>,
    found: Found,
    value: Datum,
)
    requires
        answered(action, path, found, value),
    ensures
        action == Action::Exists ==> value == Datum::Bool(found == Found::There(true)),
        action != Action::Exists ==> match value {
            Datum::Enum(ty, case, payload) => ty == "Result"@ && payload.len() == 1 && (case
                == "Ok"@ <==> found is Text || found is Entries || found is There || found is Done)
                && (case == "Err"@ <==> found is NoRoot || found is RootFailed || found is Outside
                || found is Missing || found is Failed || found is Broken),
            _ => false,
        },
        action != Action::Exists && found is Text ==> value == Datum::Enum(
            "Result"@,
            "Ok"@,
            seq![Datum::Str(found->Text_0@)],
        ),
{
    reveal_strlit("Ok");
    reveal_strlit("Err");
    assert("Ok"@.len() != "Err"@.len());
}

/// Each operation of `files` asks for what it is called after, of the path it
/// is given first, and a write of what it is given second; nothing else is a
/// call `files` takes.
pub proof fn each_operation_asks_for_what_it_is_called_after(
    op: Seq<char>,
    args: Seq<Datum>,
    path: Seq<char>,
    contents: Seq<char>,
)
    ensures
        wanted("read"@, seq![Datum::Str(path)]) == Ok::<(Action, Seq<char>, Seq<char>), Seq<char>>(
            (Action::Read, path, Seq::empty()),
        ),
        wanted("exists"@, seq![Datum::Str(path)]) == Ok::<
            (Action, Seq<char>, Seq<char>),
            Seq<char>,
        >((Action::Exists, path, Seq::empty())),
        wanted("list"@, seq![Datum::Str(path)]) == Ok::<(Action, Seq<char>, Seq<char>), Seq<char>>(
            (Action::List, path, Seq::empty()),
        ),
        wanted("delete"@, seq![Datum::Str(path)]) == Ok::<
            (Action, Seq<char>, Seq<char>),
            Seq<char>,
        >((Action::Delete, path, Seq::empty())),
        wanted("write"@, seq![Datum::Str(path), Datum::Str(contents)]) == Ok::<
            (Action, Seq<char>, Seq<char>),
            Seq<char>,
        >((Action::Write, path, contents)),
        wanted(op, args) is Ok <==> {
            ||| op == "write"@ && args.len() == 2 && args[0] is Str && args[1] is Str
            ||| (op == "read"@ || op == "exists"@ || op == "list"@ || op == "delete"@) && args.len()
                == 1 && args[0] is Str
        },
{
    reveal_strlit("read");
    reveal_strlit("write");
    reveal_strlit("exists");
    reveal_strlit("list");
    reveal_strlit("delete");
    assert("read"@[0] == 'r' && "write"@[0] == 'w' && "exists"@[0] == 'e' && "list"@[0] == 'l'
        && "delete"@[0] == 'd');
}

/// A call answers what its action answers of the tree, and leaves the tree as
/// that leaves it; a call `files` does not take changes nothing.
pub proof fn a_call_answers_what_its_action_answers(
    before: Tree,
    after: Tree,
    op: Seq<char>,
    args: Seq<Datum>,
    result: Result<Value, RuntimeError>,
)
    requires
        served(before, after, op, args, result),
    ensures
        wanted(op, args) is Err ==> after == before && result is Err,
        before is Rooted ==> after == before,
        before is InMemory && wanted(op, args) is Ok ==> after is InMemory && result is Ok
            && answers(
            before->InMemory_0,
            (wanted(op, args)->Ok_0).0,
            (wanted(op, args)->Ok_0).1,
            (wanted(op, args)->Ok_0).2,
            after->InMemory_0,
            result->Ok_0@,
        ),
        before is InMemory <==> after is InMemory,
{
}

/// Where the files are on a disk, a path that is not refused is asked for as it
/// was given, part by part below the root, with what is to be written.
pub proof fn a_disk_is_asked_for_the_parts_of_a_path(
    root: Seq<char>,
    action: Action,
    path: Seq<char>,
    contents: Seq<char>,
    after: Tree,
    step: Step,
)
    requires
        takes(Tree::Rooted(root), action, path, contents, after, step),
    ensures
        after == Tree::Rooted(root),
        crate::paths::relative(path) is Ok <==> step is Ask,
        step matches Step::Ask(request) ==> request.action == action && request.path@ == path
            && request.contents@ == contents && crate::names::texts(request.parts@)
            == crate::paths::relative(path)->Ok_0,
{
}

/// What is not kept is told to be missing, by the path it was asked for under;
/// and the root, which is a directory, is not written.
pub proof fn what_is_not_kept_is_told_to_be_missing(
    tree: Map<Seq<char>, Seq<char>>,
    action: Action,
    path: Seq<char>,
    contents: Seq<char>,
    after: Map<Seq<char>, Seq<char>>,
    value: Datum,
)
    requires
        answers(tree, action, path, contents, after, value),
        crate::paths::keyed(path) is Ok,
    ensures
        (action == Action::Read || action == Action::Delete) && !tree.contains_key(
            crate::paths::keyed(path)->Ok_0,
        ) ==> after == tree && value == Datum::Enum(
            "Result"@,
            "Err"@,
            seq![
                Datum::Struct(
                    "Error"@,
                    seq![("message"@, Datum::Str("files: `"@ + path + "` does not exist"@))],
                ),
            ],
        ),
        action == Action::Read && tree.contains_key(crate::paths::keyed(path)->Ok_0) ==> value
            == Datum::Enum(
            "Result"@,
            "Ok"@,
            seq![Datum::Str(tree[crate::paths::keyed(path)->Ok_0])],
        ),
        action == Action::Write && crate::paths::keyed(path)->Ok_0.len() == 0 ==> after == tree
            && value == Datum::Enum(
            "Result"@,
            "Err"@,
            seq![
                Datum::Struct(
                    "Error"@,
                    seq![("message"@, Datum::Str("files: `"@ + path + "` is a directory"@))],
                ),
            ],
        ),
{
}

/// A refused path is answered with why it is refused, whatever was asked of it;
/// only whether it is there is answered with no.
pub proof fn a_refused_path_is_told_why(
    tree: Map<Seq<char>, Seq<char>>,
    action: Action,
    path: Seq<char>,
    contents: Seq<char>,
    after: Map<Seq<char>, Seq<char>>,
    value: Datum,
)
    requires
        answers(tree, action, path, contents, after, value),
        crate::paths::relative(path) is Err,
    ensures
        after == tree,
        action == Action::Exists ==> value == Datum::Bool(false),
        action != Action::Exists ==> value == Datum::Enum(
            "Result"@,
            "Err"@,
            seq![
                Datum::Struct(
                    "Error"@,
                    seq![("message"@, Datum::Str(crate::paths::relative(path)->Err_0))],
                ),
            ],
        ),
{
}

} // verus!
