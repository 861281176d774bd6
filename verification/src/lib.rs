//! A declarative task runner: task definitions (a shell command plus optional
//! named dependencies) live in a catalog; requesting a task yields a
//! dependency-first execution plan, which is dispatched command by command to
//! an executor capability.

pub mod catalog;
pub mod models;
pub mod resolve;
pub mod runner;
pub mod text;

pub use catalog::{CommandField, DepEntry, TaskCatalog, TaskValue};
pub use models::{ExecError, Executor, JakeError, NodeState, TaskNode};
pub use resolve::resolve;
pub use runner::{execute_command, execute_default_command, plan_invocations, Invocation};
