//! The task-runner behaviors: resolution, dispatch, and the exact error
//! messages, driven through catalogs equivalent to the sample jakefiles.

use std::cell::RefCell;

use jake::catalog::{CommandField, DepEntry, TaskCatalog, TaskValue};
use jake::models::{ExecError, Executor};
use jake::runner::{execute_command, execute_default_command};

/// Records every invocation it is handed and reports success.
struct RecordingExecutor {
    calls: RefCell<Vec<(String, Vec<String>)>>,
}

impl RecordingExecutor {
    fn new() -> Self {
        Self { calls: RefCell::new(Vec::new()) }
    }

    fn last_call(&self) -> (String, Vec<String>) {
        self.calls.borrow().last().expect("no call recorded").clone()
    }
}

impl Executor for RecordingExecutor {
    fn execute(&self, main_command: &str, args: &Vec<String>) -> Result<(), ExecError> {
        self.calls.borrow_mut().push((main_command.to_string(), args.clone()));
        Ok(())
    }
}

fn text(s: &str) -> CommandField {
    CommandField::Text(s.to_string())
}

fn dep(s: &str) -> DepEntry {
    DepEntry::Name(s.to_string())
}

/// The catalog the sample jakefile declares.
fn jakefile_catalog() -> TaskCatalog {
    let mut c = TaskCatalog::new();
    c.insert(
        "say-hello".to_string(),
        TaskValue::Entry { command: text("echo 'hello'"), depends_on: vec![] },
    );
    c.insert(
        "say-hello-back".to_string(),
        TaskValue::Entry { command: text("echo 'hello back'"), depends_on: vec![dep("say-hello")] },
    );
    c.insert(
        "say-bye".to_string(),
        TaskValue::Entry { command: text("echo 'bye'"), depends_on: vec![dep("say-hello-back")] },
    );
    c.insert("list".to_string(), TaskValue::Entry { command: text("ls"), depends_on: vec![] });
    c.insert("strcmd".to_string(), TaskValue::Command("echo ciao".to_string()));
    c.insert(
        "wrongcommand".to_string(),
        TaskValue::Entry { command: CommandField::Malformed, depends_on: vec![] },
    );
    c
}

/// The catalog with a `default` task, a malformed entry, and an entry
/// without a command field.
fn withdefault_catalog() -> TaskCatalog {
    let mut c = TaskCatalog::new();
    c.insert("default".to_string(), TaskValue::Command("true".to_string()));
    c.insert("error".to_string(), TaskValue::Malformed);
    c.insert(
        "nocommand".to_string(),
        TaskValue::Entry { command: CommandField::Missing, depends_on: vec![] },
    );
    c
}

/// The catalog exercising dependency edge cases.
fn deps_catalog() -> TaskCatalog {
    let mut c = TaskCatalog::new();
    c.insert(
        "circular".to_string(),
        TaskValue::Entry { command: text("x"), depends_on: vec![dep("circular")] },
    );
    c.insert(
        "no-exist".to_string(),
        TaskValue::Entry { command: text("echo found"), depends_on: vec![dep("no-deps")] },
    );
    c.insert("wrong".to_string(), TaskValue::Malformed);
    c.insert(
        "calls-wrong".to_string(),
        TaskValue::Entry { command: text("echo calls"), depends_on: vec![dep("wrong")] },
    );
    c.insert(
        "badsyntax".to_string(),
        TaskValue::Entry { command: CommandField::Missing, depends_on: vec![] },
    );
    c.insert(
        "calls-command".to_string(),
        TaskValue::Entry { command: text("echo calls"), depends_on: vec![dep("badsyntax")] },
    );
    c
}

#[test]
fn test_command_execution() {
    let executor = RecordingExecutor::new();
    let result = execute_command(&jakefile_catalog(), "say-hello", "", &executor);
    assert!(result.is_ok());
}

#[test]
fn test_command_execution_task_not_found() {
    let executor = RecordingExecutor::new();
    let result = execute_command(&jakefile_catalog(), "say-ciao", "", &executor);
    assert_eq!(
        result.is_err_and(|e| {
            e.message()
                == "Task say-ciao does not exist. Please define it within you jakefile.toml file"
                    .to_string()
        }),
        true
    );
}

#[test]
fn test_command_execution_unexpected_format() {
    let executor = RecordingExecutor::new();
    let result = execute_command(&withdefault_catalog(), "error", "", &executor);
    assert_eq!(
        result.is_err_and(|e| e.message() == "Unsupported value for the task's command".to_string()),
        true
    );
}

#[test]
fn test_command_execution_no_command() {
    let executor = RecordingExecutor::new();
    let result = execute_command(&withdefault_catalog(), "nocommand", "", &executor);
    assert_eq!(result.is_err_and(
        |e| e.message() == "`command` key not available for the requested task: ensure that there are no typos and the TOML syntax is correct before running again".to_string()
    ), true);
}

#[test]
fn test_command_execution_wrong_command() {
    let executor = RecordingExecutor::new();
    let result = execute_command(&jakefile_catalog(), "wrongcommand", "", &executor);
    assert_eq!(
        result.is_err_and(|e| e.message() == "Unsupported value for the task's command".to_string()),
        true
    );
}

#[test]
fn test_command_execution_with_deps() {
    let executor = RecordingExecutor::new();
    let result = execute_command(&jakefile_catalog(), "say-bye", "", &executor);
    assert!(result.is_ok());
}

#[test]
fn test_command_execution_from_str() {
    let executor = RecordingExecutor::new();
    let result = execute_command(&jakefile_catalog(), "strcmd", "", &executor);
    assert!(result.is_ok());
}

#[test]
fn test_default_command_with_default() {
    let executor = RecordingExecutor::new();
    let result = execute_default_command(&withdefault_catalog(), "", &executor);
    assert!(result.is_ok());
}

#[test]
fn test_default_command_first_key() {
    let executor = RecordingExecutor::new();
    let result = execute_default_command(&jakefile_catalog(), "", &executor);
    assert!(result.is_ok());
}

#[test]
fn test_circular_deps_detection() {
    let executor = RecordingExecutor::new();
    let result = execute_command(&deps_catalog(), "circular", "", &executor);
    assert_eq!(
        result.is_err_and(
            |e| e.message() == "Circular dependency issue detected with task circular".to_string()
        ),
        true
    )
}

#[test]
fn test_dependency_not_found() {
    let executor = RecordingExecutor::new();
    let result = execute_command(&deps_catalog(), "no-exist", "", &executor);
    assert_eq!(
        result.is_err_and(|e| e.message()
            == "Task no-deps does not exist. Please define it within you jakefile.toml file"
                .to_string()),
        true
    );
}

#[test]
fn test_dependency_wrong_type() {
    let executor = RecordingExecutor::new();
    let result = execute_command(&deps_catalog(), "calls-wrong", "", &executor);
    assert_eq!(
        result.is_err_and(|e| e.message() == "Unsupported value for the task's command".to_string()),
        true
    );
}

#[test]
fn test_dependency_wrong_command_syntax() {
    let executor = RecordingExecutor::new();
    let result = execute_command(&deps_catalog(), "calls-command", "", &executor);
    assert_eq!(
        result.is_err_and(
            |e| e.message() == "`command` key not available for the requested task: ensure that there are no typos and the TOML syntax is correct before running again".to_string()
        ),
        true
    );
}

#[test]
fn test_mock_command_execution() {
    let mock_executor = RecordingExecutor::new();
    let result = execute_command(&jakefile_catalog(), "list", "-la /hello/something", &mock_executor);
    assert!(result.is_ok());
    assert_eq!(
        mock_executor.last_call(),
        ("ls".to_string(), vec!["-la".to_string(), "/hello/something".to_string()])
    );
    let result_1 = execute_command(&jakefile_catalog(), "list", "", &mock_executor);
    assert!(result_1.is_ok());
    assert_eq!(mock_executor.last_call(), ("ls".to_string(), vec![]));
    let result_2 = execute_default_command(&jakefile_catalog(), "", &mock_executor);
    assert!(result_2.is_ok());
    assert_eq!(mock_executor.last_call(), ("echo".to_string(), vec!["'hello'".to_string()]));
    let result_3 = execute_default_command(&withdefault_catalog(), "", &mock_executor);
    assert!(result_3.is_ok());
    assert_eq!(mock_executor.last_call(), ("true".to_string(), vec![]));
    let result_4 = execute_command(&jakefile_catalog(), "strcmd", "", &mock_executor);
    assert!(result_4.is_ok());
    assert_eq!(mock_executor.last_call(), ("echo".to_string(), vec!["ciao".to_string()]));
}

#[test]
fn test_no_tasks_defined_message() {
    let executor = RecordingExecutor::new();
    let result = execute_default_command(&TaskCatalog::new(), "", &executor);
    assert_eq!(
        result.is_err_and(|e| e.message() == "could not find any task within jakefile".to_string()),
        true
    );
    assert!(executor.calls.borrow().is_empty());
}

#[test]
fn test_empty_task_name_is_noop() {
    let executor = RecordingExecutor::new();
    let result = execute_command(&jakefile_catalog(), "", "-v", &executor);
    assert!(result.is_ok());
    assert!(executor.calls.borrow().is_empty());
}
