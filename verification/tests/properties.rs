//! Concrete checks of the planner and dispatcher behaviors: ordering,
//! deduplication, flag placement, tokenization, and fail-fast dispatch.

use std::cell::RefCell;

use jake::catalog::{CommandField, DepEntry, TaskCatalog, TaskValue};
use jake::models::{ExecError, Executor, JakeError, TaskNode};
use jake::resolve::resolve;
use jake::runner::{execute_command, plan_invocations, Invocation};
use jake::text::split_tokens;

struct Tape {
    calls: RefCell<Vec<(String, Vec<String>)>>,
}

impl Tape {
    fn new() -> Self {
        Self { calls: RefCell::new(Vec::new()) }
    }
}

impl Executor for Tape {
    fn execute(&self, main_command: &str, args: &Vec<String>) -> Result<(), ExecError> {
        self.calls.borrow_mut().push((main_command.to_string(), args.clone()));
        Ok(())
    }
}

/// Fails as soon as it is asked to run `poison`; records everything else.
struct Tripwire {
    poison: String,
    calls: RefCell<Vec<String>>,
}

impl Executor for Tripwire {
    fn execute(&self, main_command: &str, _args: &Vec<String>) -> Result<(), ExecError> {
        self.calls.borrow_mut().push(main_command.to_string());
        if main_command == self.poison {
            Err(ExecError { message: format!("{} exploded", main_command) })
        } else {
            Ok(())
        }
    }
}

fn text(s: &str) -> CommandField {
    CommandField::Text(s.to_string())
}

fn dep(s: &str) -> DepEntry {
    DepEntry::Name(s.to_string())
}

#[test]
fn plan_orders_dependency_before_task() {
    let mut c = TaskCatalog::new();
    c.insert("A".to_string(), TaskValue::Command("echo A".to_string()));
    c.insert(
        "B".to_string(),
        TaskValue::Entry { command: text("echo B"), depends_on: vec![dep("A")] },
    );
    let plan = resolve(&c, "B").expect("B resolves");
    assert_eq!(plan, vec!["echo A".to_string(), "echo B".to_string()]);
    let tape = Tape::new();
    assert!(execute_command(&c, "B", "", &tape).is_ok());
    let calls = tape.calls.borrow();
    assert_eq!(
        *calls,
        vec![
            ("echo".to_string(), vec!["A".to_string()]),
            ("echo".to_string(), vec!["B".to_string()]),
        ]
    );
}

#[test]
fn shared_dependency_scheduled_once() {
    let mut c = TaskCatalog::new();
    c.insert("d".to_string(), TaskValue::Command("echo d".to_string()));
    c.insert(
        "b".to_string(),
        TaskValue::Entry { command: text("echo b"), depends_on: vec![dep("d")] },
    );
    c.insert(
        "c".to_string(),
        TaskValue::Entry { command: text("echo c"), depends_on: vec![dep("d")] },
    );
    c.insert(
        "a".to_string(),
        TaskValue::Entry { command: text("echo a"), depends_on: vec![dep("b"), dep("c")] },
    );
    let plan = resolve(&c, "a").expect("a resolves");
    assert_eq!(
        plan,
        vec![
            "echo d".to_string(),
            "echo b".to_string(),
            "echo c".to_string(),
            "echo a".to_string(),
        ]
    );
}

#[test]
fn runtime_flags_reach_only_the_final_command() {
    let mut c = TaskCatalog::new();
    c.insert("setup".to_string(), TaskValue::Command("mkdir -p out".to_string()));
    c.insert(
        "build".to_string(),
        TaskValue::Entry { command: text("cc main.c"), depends_on: vec![dep("setup")] },
    );
    let tape = Tape::new();
    assert!(execute_command(&c, "build", "-O2 -Wall", &tape).is_ok());
    let calls = tape.calls.borrow();
    assert_eq!(
        *calls,
        vec![
            ("mkdir".to_string(), vec!["-p".to_string(), "out".to_string()]),
            (
                "cc".to_string(),
                vec!["main.c".to_string(), "-O2".to_string(), "-Wall".to_string()],
            ),
        ]
    );
}

#[test]
fn single_task_with_flags() {
    let mut c = TaskCatalog::new();
    c.insert("list".to_string(), TaskValue::Entry { command: text("ls"), depends_on: vec![] });
    let tape = Tape::new();
    assert!(execute_command(&c, "list", "-la /tmp", &tape).is_ok());
    let calls = tape.calls.borrow();
    assert_eq!(
        *calls,
        vec![("ls".to_string(), vec!["-la".to_string(), "/tmp".to_string()])]
    );
}

#[test]
fn self_cycle_is_reported() {
    let mut c = TaskCatalog::new();
    c.insert(
        "circular".to_string(),
        TaskValue::Entry { command: text("x"), depends_on: vec![dep("circular")] },
    );
    let result = resolve(&c, "circular");
    match result {
        Err(JakeError::CircularDependency(name)) => assert_eq!(name, "circular"),
        _ => panic!("expected a circular-dependency failure"),
    }
}

#[test]
fn long_cycle_is_reported() {
    let mut c = TaskCatalog::new();
    c.insert(
        "one".to_string(),
        TaskValue::Entry { command: text("echo 1"), depends_on: vec![dep("two")] },
    );
    c.insert(
        "two".to_string(),
        TaskValue::Entry { command: text("echo 2"), depends_on: vec![dep("three")] },
    );
    c.insert(
        "three".to_string(),
        TaskValue::Entry { command: text("echo 3"), depends_on: vec![dep("one")] },
    );
    let result = resolve(&c, "one");
    assert!(matches!(result, Err(JakeError::CircularDependency(_))));
}

#[test]
fn empty_flags_tokenize_to_no_arguments() {
    assert_eq!(split_tokens(""), Vec::<String>::new());
    assert_eq!(split_tokens("   "), Vec::<String>::new());
    let invocations: Vec<Invocation> = plan_invocations(&vec!["ls".to_string()], "");
    assert_eq!(invocations.len(), 1);
    assert_eq!(invocations[0].program, "ls");
    assert_eq!(invocations[0].args, Vec::<String>::new());
}

#[test]
fn tokenization_splits_on_whitespace_runs() {
    assert_eq!(
        split_tokens("echo  hello\tworld "),
        vec!["echo".to_string(), "hello".to_string(), "world".to_string()]
    );
}

#[test]
fn malformed_dependency_entries_are_skipped() {
    let mut c = TaskCatalog::new();
    c.insert("a".to_string(), TaskValue::Command("echo a".to_string()));
    c.insert(
        "b".to_string(),
        TaskValue::Entry {
            command: text("echo b"),
            depends_on: vec![DepEntry::Malformed, dep("a"), DepEntry::Malformed],
        },
    );
    let plan = resolve(&c, "b").expect("malformed entries do not fail resolution");
    assert_eq!(plan, vec!["echo a".to_string(), "echo b".to_string()]);
}

#[test]
fn dispatch_stops_at_first_failure() {
    let mut c = TaskCatalog::new();
    c.insert("first".to_string(), TaskValue::Command("boom".to_string()));
    c.insert("second".to_string(), TaskValue::Command("fine".to_string()));
    c.insert(
        "all".to_string(),
        TaskValue::Entry { command: text("echo done"), depends_on: vec![dep("first"), dep("second")] },
    );
    let tripwire = Tripwire { poison: "boom".to_string(), calls: RefCell::new(Vec::new()) };
    let result = execute_command(&c, "all", "", &tripwire);
    match result {
        Err(JakeError::Exec(e)) => assert_eq!(e.message, "boom exploded"),
        _ => panic!("expected the executor failure to propagate"),
    }
    assert_eq!(*tripwire.calls.borrow(), vec!["boom".to_string()]);
}

#[test]
fn task_node_keeps_command_and_dependency_order() {
    let node = TaskNode::new(
        "echo hi".to_string(),
        vec!["b".to_string(), "a".to_string(), "b".to_string()],
    );
    assert_eq!(node.command, "echo hi");
    assert_eq!(
        node.dependencies,
        vec!["b".to_string(), "a".to_string(), "b".to_string()]
    );
}

#[test]
fn dependencies_resolve_in_declaration_order() {
    let mut c = TaskCatalog::new();
    c.insert("zeta".to_string(), TaskValue::Command("echo zeta".to_string()));
    c.insert("alpha".to_string(), TaskValue::Command("echo alpha".to_string()));
    c.insert(
        "top".to_string(),
        TaskValue::Entry { command: text("echo top"), depends_on: vec![dep("zeta"), dep("alpha")] },
    );
    let plan = resolve(&c, "top").expect("top resolves");
    assert_eq!(
        plan,
        vec!["echo zeta".to_string(), "echo alpha".to_string(), "echo top".to_string()]
    );
}

#[test]
fn catalog_insert_replaces_existing_name() {
    let mut c = TaskCatalog::new();
    c.insert("t".to_string(), TaskValue::Command("echo old".to_string()));
    c.insert("t".to_string(), TaskValue::Command("echo new".to_string()));
    assert_eq!(c.len(), 1);
    let plan = resolve(&c, "t").expect("t resolves");
    assert_eq!(plan, vec!["echo new".to_string()]);
}
