//! Paths, names, numbers, errors, budgets, schemas and the heap of handles.
use cove_runtime::budget::{tally, Budget, Limits, Stopped};
use cove_runtime::error::{RunOutcome, RuntimeError, Span, MAX_CALL_CHAIN};
use cove_runtime::float::{extremum, MinMax};
use cove_runtime::names::{comes_before, Names, Table};
use cove_runtime::paths::{inside, join, relative_key, relative_parts, split};
use cove_runtime::schema::{HostType, Part};
use cove_runtime::slot::{HandleHeap, Layout, Shape, COLLECTION_FLOOR};
use cove_runtime::text::{decimal, quote, signed_decimal};
use cove_runtime::value::Value;

#[test]
fn a_path_is_read_part_by_part() {
    let parts = |path: &str| relative_parts(path).expect("the path stays inside");
    assert_eq!(parts("a/b/c.txt"), vec!["a", "b", "c.txt"]);
    assert_eq!(parts("./a//b/."), vec!["a", "b"]);
    assert!(parts(".").is_empty());
    assert_eq!(relative_key("./a//b/.").expect("it stays inside"), "a/b");
    assert_eq!(relative_key(".").expect("it stays inside"), "");
    assert!(relative_key("a/../b").is_err());
    let pieces = split("a//b/");
    assert_eq!(pieces, vec!["a", "", "b", ""]);
    assert_eq!(join(&pieces, pieces.len()), "a//b/");
    assert_eq!(join(&pieces, 3), "a//b");
}

#[test]
fn names_are_kept_once_and_in_the_order_of_their_characters() {
    let mut names = Names::new();
    for name in ["b", "a", "ab", "b", "", "é", "a"] {
        names.insert(name.to_string());
    }
    assert_eq!(names.list(), &vec!["", "a", "ab", "b", "é"]);
    assert!(names.contains("ab") && !names.contains("aa"));
    assert!(comes_before("a", "ab") && comes_before("Z", "a") && !comes_before("a", "a"));
}

#[test]
fn a_table_answers_what_was_put_last() {
    let mut table = Table::new();
    table.insert("a".to_string(), "1".to_string());
    table.insert("b".to_string(), "2".to_string());
    table.insert("a".to_string(), "3".to_string());
    assert_eq!(table.get("a").map(String::as_str), Some("3"));
    assert_eq!(table.names().len(), 2);
    assert!(table.remove("a"));
    assert!(!table.remove("a"));
    assert_eq!(table.get("a"), None);
    assert_eq!(table.get("b").map(String::as_str), Some("2"));
}

// ------------------------------------------------------------------- floats

#[test]
fn of_two_numbers_the_lesser_and_the_greater_are_told_apart_in_either_order() {
    let bits = |x: f64, y: f64, op| extremum(x.to_bits(), y.to_bits(), op);
    for (least, most) in [
        (1.0f64, 2.0f64),
        (-1.0, 1.0),
        (-2.0, -1.0),
        (f64::NEG_INFINITY, f64::INFINITY),
        (5e-324, f64::MIN_POSITIVE),
        (f64::MAX, f64::INFINITY),
        (f64::MIN, f64::MAX),
        (-5e-324, 0.0),
        (3.5, 3.5),
    ] {
        assert_eq!(bits(least, most, MinMax::Min), least.to_bits());
        assert_eq!(bits(most, least, MinMax::Min), least.to_bits());
        assert_eq!(bits(least, most, MinMax::Max), most.to_bits());
        assert_eq!(bits(most, least, MinMax::Max), most.to_bits());
    }
}

#[test]
fn of_two_equal_numbers_the_second_stands_bit_for_bit() {
    let (plus, minus) = (0.0f64.to_bits(), (-0.0f64).to_bits());
    for op in [MinMax::Min, MinMax::Max] {
        assert_eq!(extremum(plus, minus, op), minus);
        assert_eq!(extremum(minus, plus, op), plus);
    }
}

#[test]
fn what_is_not_a_number_gives_way_to_what_is() {
    let one = 1.0f64.to_bits();
    let quiet = 0x7ff8_0000_dead_beefu64;
    let signalling = 0xfff0_0000_0000_0001u64;
    for op in [MinMax::Min, MinMax::Max] {
        for nan in [quiet, signalling] {
            assert_eq!(extremum(one, nan, op), one);
            assert_eq!(extremum(nan, one, op), one);
        }
        assert_eq!(extremum(quiet, signalling, op), quiet);
        assert_eq!(extremum(signalling, quiet, op), signalling);
    }
}

// --------------------------------------------------------------------- text

#[test]
fn numbers_are_written_in_decimal() {
    assert_eq!(decimal(0), "0");
    assert_eq!(decimal(1024), "1024");
    assert_eq!(decimal(u64::MAX), u64::MAX.to_string());
    for n in [i64::MIN, -10, -1, 0, 7, i64::MAX] {
        assert_eq!(signed_decimal(n), n.to_string());
    }
    assert_eq!(quote("a b"), "`a b`");
}

#[test]
fn a_value_shows_as_source_would_write_it() {
    let some = Value::some(Value::Array(vec![Value::Int(1), Value::Bool(false)]));
    assert_eq!(some.show(), "Some([1, false])");
    assert_eq!(Value::none().show(), "None");
    assert_eq!(Value::ok(Value::Unit).show(), "Ok(())");
    assert_eq!(Value::err(Value::error("late".to_string())).show(), "Err(late)");
    assert_eq!(some.copy().show(), some.show());
    assert_eq!(Value::Str("text".to_string()).type_text(), "String");
}

// ------------------------------------------------------------------- errors

fn site(start: u32) -> Span {
    Span { file: 0, start, end: start + 1 }
}

#[test]
fn an_error_keeps_the_first_place_it_was_given() {
    let error = RuntimeError::new("it broke".to_string()).at(site(3)).at(site(9));
    assert_eq!(error.span, Some(site(3)));
    assert_eq!(error.outcome, RunOutcome::Invariant);
    assert_eq!(error.with_outcome(RunOutcome::Budget).outcome, RunOutcome::Budget);
}

#[test]
fn a_long_chain_is_cut_and_says_by_how_much() {
    let sites: Vec<Span> = (0..MAX_CALL_CHAIN as u32 + 2).map(site).collect();
    let error = RuntimeError::new("it broke".to_string()).with_chain(sites);
    assert_eq!(error.chain().len(), MAX_CALL_CHAIN);
    assert_eq!(error.chain()[0], site(0));
    assert_eq!(error.chain_omitted(), 2);
    let again = error.with_chain(vec![site(50)]);
    assert_eq!(again.chain().len(), MAX_CALL_CHAIN, "the first chain stands");
    let diagnostic = again.to_diagnostic();
    assert_eq!(diagnostic.code, "cove::runtime");
    assert_eq!(diagnostic.labels.len(), MAX_CALL_CHAIN);
    assert_eq!(diagnostic.labels[0].message, "called from here");
    let last = &diagnostic.labels[MAX_CALL_CHAIN - 1].message;
    assert_eq!(last, "called from here (2 more calls not shown)");
}

#[test]
fn a_chain_one_too_long_is_said_in_the_singular() {
    let sites: Vec<Span> = (0..MAX_CALL_CHAIN as u32 + 1).map(site).collect();
    let error = RuntimeError::new("it broke".to_string())
        .with_rule("a rule".to_string())
        .with_help("a way out".to_string())
        .with_chain(sites);
    let diagnostic = error.to_diagnostic();
    let last = &diagnostic.labels[MAX_CALL_CHAIN - 1].message;
    assert_eq!(last, "called from here (1 more call not shown)");
    assert_eq!(diagnostic.rule.as_deref(), Some("a rule"));
    assert_eq!(diagnostic.help.as_deref(), Some("a way out"));
    let bare = RuntimeError::new("it broke".to_string());
    assert!(bare.chain().is_empty() && bare.chain_omitted() == 0);
    assert!(bare.to_diagnostic().labels.is_empty());
}

// ------------------------------------------------------------------ budgets

fn limits() -> Limits {
    Limits { fuel: Some(10), max_call_depth: Some(4), max_host_calls: Some(1) }
}

#[test]
fn a_budget_stops_once_it_is_overspent_and_not_before() {
    let mut budget = Budget::new(limits());
    assert_eq!(budget.safepoint(10), Ok(()));
    assert_eq!(budget.safepoint(1), Err(Stopped::Fuel));
    assert_eq!(budget.fuel_spent, 11);
    assert_eq!(budget.charge_host_call(), Ok(()));
    assert_eq!(budget.charge_host_call(), Err(Stopped::HostCalls));
    budget.cancel();
    assert_eq!(budget.safepoint(0), Err(Stopped::Cancelled));
    assert_eq!(budget.charge_host_call(), Err(Stopped::Cancelled));
    assert_eq!(tally(u64::MAX - 1, 1), u64::MAX);
    assert_eq!(tally(u64::MAX, 1), u64::MAX);
}

#[test]
fn every_way_to_be_stopped_has_its_own_words() {
    let budget = Budget::new(limits());
    for (stopped, message, outcome) in [
        (Stopped::Cancelled, "the run was cancelled", RunOutcome::Cancelled),
        (Stopped::Fuel, "the run spent its 10 unit(s) of fuel", RunOutcome::Budget),
        (Stopped::CallDepth, "the run went past its call depth limit of 4", RunOutcome::Budget),
        (Stopped::HostCalls, "the run went past its limit of 1 host call(s)", RunOutcome::Budget),
    ] {
        let error = budget.to_runtime_error(stopped);
        assert_eq!(error.message, message);
        assert_eq!(error.outcome, outcome);
        assert!(error.rule.is_some());
    }
}

// ------------------------------------------------------------------ schemas

#[test]
fn a_type_admits_its_own_values_and_says_where_another_stood() {
    let strings = HostType::Array(Box::new(HostType::String));
    let lists = HostType::Option(Box::new(strings));
    assert_eq!(lists.text(), "Option<Array<String>>");
    let good = Value::some(Value::Array(vec![Value::Str("a".to_string())]));
    assert!(lists.admits(&good).is_ok());
    assert!(lists.admits(&Value::none()).is_ok());
    let bad = Value::some(Value::Array(vec![Value::Str("a".to_string()), Value::Unit]));
    let mismatch = match lists.admits(&bad) {
        Ok(()) => panic!("a unit is no string"),
        Err(mismatch) => mismatch,
    };
    assert_eq!(
        mismatch.describe("m.op", Part::Result),
        "`m.op` answered `Unit` at `Some(_)[1]` of its result, but its schema declares `String` there"
    );
    assert!(HostType::Any.admits(&bad).is_ok());
    assert!(HostType::Int.admits(&Value::Bool(true)).is_err());
}

// ------------------------------------------------------- the heap of handles

fn pair() -> Layout {
    Layout { name: "Pair".to_string(), refs: vec![true, false], shape: Shape::Opaque, case: None }
}

#[test]
fn a_collection_keeps_what_a_root_reaches_and_frees_the_rest() {
    let mut heap = HandleHeap::new();
    let layout = heap.register(pair());
    let leaf = heap.allocate(layout, vec![0, 7]).expect("there is room");
    let root = heap.allocate(layout, vec![leaf, 8]).expect("there is room");
    let lost = heap.allocate(layout, vec![root, 9]).expect("there is room");
    let done = heap.collect(&vec![root, root]);
    assert_eq!(done.roots_yielded, 2);
    assert_eq!(done.expansions, 2);
    assert_eq!((done.live_objects, done.freed_objects), (2, 1));
    assert_eq!(heap.word(root, 0), Some(leaf));
    assert_eq!(heap.word(leaf, 1), Some(7));
    assert_eq!(heap.word(lost, 1), None, "a freed object answers nothing");
    assert_eq!(heap.layout_of(lost).map(|found| found.name.as_str()), None);
}

#[test]
fn a_scalar_word_of_an_object_holds_nothing_alive() {
    let mut heap = HandleHeap::new();
    let layout = heap.register(pair());
    let other = heap.allocate(layout, vec![0, 1]).expect("there is room");
    let root = heap.allocate(layout, vec![0, other]).expect("there is room");
    assert!(heap.word_is_reference(root, 0) && !heap.word_is_reference(root, 1));
    let done = heap.collect(&vec![root]);
    assert_eq!(done.freed_objects, 1);
    assert_eq!(heap.word(other, 1), None);
}

#[test]
fn a_cycle_that_nothing_names_is_freed() {
    let mut heap = HandleHeap::new();
    let layout = heap.register(pair());
    let first = heap.allocate(layout, vec![2, 0]).expect("there is room");
    let second = heap.allocate(layout, vec![first, 0]).expect("there is room");
    assert_eq!((first, second), (1, 2));
    assert_eq!(heap.collect(&vec![first]).live_objects, 2);
    assert_eq!(heap.collect(&Vec::new()).freed_objects, 2);
}

#[test]
fn a_copy_with_one_word_replaced_leaves_the_original_alone() {
    let mut heap = HandleHeap::new();
    let layout = heap.register(pair());
    let one = heap.allocate(layout, vec![0, 7]).expect("there is room");
    let two = heap.copy_replacing(one, 1, 8).expect("there is room");
    assert_ne!(one, two);
    assert_eq!((heap.word(one, 1), heap.word(two, 1)), (Some(7), Some(8)));
    assert_eq!(heap.layout_id_of(two), Some(layout));
}

#[test]
fn a_collection_is_worth_while_from_the_floor_on_or_under_stress() {
    let mut heap = HandleHeap::new();
    let layout = heap.register(pair());
    for _ in 0..COLLECTION_FLOOR - 1 {
        heap.allocate(layout, vec![0, 0]).expect("there is room");
    }
    assert!(!heap.should_collect());
    heap.stress(true);
    assert!(heap.should_collect());
    heap.stress(false);
    heap.allocate(layout, vec![0, 0]).expect("there is room");
    assert!(heap.should_collect());
}

#[test]
fn an_outcome_once_set_is_kept() {
    let error = RuntimeError::new("stopped".to_string())
        .with_outcome(RunOutcome::Budget)
        .with_outcome(RunOutcome::HostBoundary);
    assert_eq!(error.outcome, RunOutcome::Budget);
    let error = RuntimeError::new("stopped".to_string())
        .with_outcome(RunOutcome::Invariant)
        .with_outcome(RunOutcome::HostBoundary);
    assert_eq!(error.outcome, RunOutcome::HostBoundary);
}

#[test]
fn a_key_is_its_own_key() {
    for path in ["a", "./a//b/.", "a/b/", "a/./b/c.txt"] {
        let key = relative_key(path).expect("it stays inside");
        assert_eq!(relative_key(&key).expect("it stays inside"), key);
        assert_eq!(relative_parts(&key), relative_parts(path));
    }
}

fn place(parts: &[&str]) -> Option<Vec<String>> {
    Some(parts.iter().map(|part| part.to_string()).collect())
}

#[test]
fn a_place_is_inside_a_root_as_its_nearest_existing_place_is() {
    let root = vec!["/".to_string(), "srv".to_string()];
    assert!(inside(&root, &vec![place(&["/", "srv", "a"])]));
    assert!(inside(&root, &vec![None, None, place(&["/", "srv"])]));
    assert!(!inside(&root, &vec![None, place(&["/", "etc"]), place(&["/", "srv"])]));
    assert!(!inside(&root, &vec![place(&["/", "srv2", "a"])]));
    assert!(!inside(&root, &vec![place(&["/"])]));
    assert!(!inside(&root, &vec![None, None]));
}
