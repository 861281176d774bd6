//! Core data types: task nodes, visit states for the resolver walk, the
//! executor capability, and the error taxonomy.

use vstd::prelude::*;
use vstd::string::StringExecFns;

verus! {

/// Failure reported by an [`Executor`] implementation: a spawn failure or a
/// non-zero exit. Opaque to the core; propagated unchanged.
#[derive(Debug)]
pub struct ExecError {
    pub message: String,
}

/// Everything that can go wrong while resolving and running a task.
#[derive(Debug)]
pub enum JakeError {
    /// A referenced task name (root or dependency) has no catalog entry.
    TaskNotFound(String),
    /// A structured task entry lacks the required `command` field.
    MissingCommandField,
    /// A task's command value is neither a plain string nor a string
    /// `command` field of a structured entry.
    UnsupportedCommandValue,
    /// A task transitively depends on itself; carries the task name at which
    /// the cycle was detected.
    CircularDependency(String),
    /// Default-task resolution was requested against an empty catalog.
    NoTasksDefined,
    /// Failure from the executor boundary.
    Exec(ExecError),
}

impl JakeError {
    /// The user-visible message of this error.
    pub open spec fn spec_message(&self) -> Seq<char> {
        match self {
            JakeError::TaskNotFound(name) => "Task "@ + name@
                + " does not exist. Please define it within you jakefile.toml file"@,
            JakeError::MissingCommandField => "`command` key not available for the requested task: ensure that there are no typos and the TOML syntax is correct before running again"@,
            JakeError::UnsupportedCommandValue => "Unsupported value for the task's command"@,
            JakeError::CircularDependency(name) => "Circular dependency issue detected with task "@
                + name@,
            JakeError::NoTasksDefined => "could not find any task within jakefile"@,
            JakeError::Exec(inner) => inner.message@,
        }
    }

    /// Renders the user-visible message of this error.
    pub fn message(&self) -> (r: String)
        ensures
            r@ == self.spec_message(),
    {
        match self {
            JakeError::TaskNotFound(name) => String::from_str("Task ").concat(name.as_str())
                .concat(" does not exist. Please define it within you jakefile.toml file"),
            JakeError::MissingCommandField => String::from_str(
                "`command` key not available for the requested task: ensure that there are no typos and the TOML syntax is correct before running again",
            ),
            JakeError::UnsupportedCommandValue => String::from_str(
                "Unsupported value for the task's command",
            ),
            JakeError::CircularDependency(name) => String::from_str(
                "Circular dependency issue detected with task ",
            ).concat(name.as_str()),
            JakeError::NoTasksDefined => String::from_str("could not find any task within jakefile"),
            JakeError::Exec(inner) => inner.message.clone(),
        }
    }
}

/// The capability that actually runs a command. The production implementation
/// spawns a process and blocks until it exits; test implementations record
/// the invocations they are handed.
pub trait Executor {
    /// Runs `main_command` with `args`. A `Result::Err` aborts the remaining plan.
    fn execute(&self, main_command: &str, args: &Vec<String>) -> Result<(), ExecError>;
}

/// A task ready for resolution: its command and its declared dependencies,
/// in declaration order.
pub struct TaskNode {
    pub command: String,
    pub dependencies: Vec<String>,
}

impl TaskNode {
    pub fn new(command: String, dependencies: Vec<String>) -> (r: TaskNode)
        ensures
            r.command == command,
            r.dependencies == dependencies,
    {
        TaskNode { command, dependencies }
    }
}

/// Per-task tag used during one resolution walk.
#[derive(Clone, Copy)]
pub enum NodeState {
    Unvisited,
    /// Currently on the traversal stack.
    Visiting,
    Visited,
}

} // verus!
