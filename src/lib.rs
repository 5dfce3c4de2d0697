//! A declarative task runner: named tasks with shell commands and
//! dependencies, resolved into a dependency-respecting execution order.
pub mod name;
pub mod state;
pub mod task;
pub mod workflow;
