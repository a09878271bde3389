//! Core of a static, priority-based, preemptive task scheduler for
//! single-core targets: bounded message queues for software-spawned tasks,
//! a timestamp-ordered timer queue driven by a monotonic counter, a
//! priority-ceiling resolver for shared resources, and the dispatcher state
//! machine that decides which pending task instance runs next and arbitrates
//! resource access without unbounded priority inversion.
//!
//! Tasks, priorities and resource-sharing sets are fixed before the system
//! starts; nothing is created or destroyed at runtime.
#![allow(unused_imports)]
use vstd::prelude::*;

pub mod ceiling;
pub mod kernel;
pub mod laws;
pub mod msg_queue;
pub mod timer;

verus! {

/// Error returned by `spawn` and `schedule` when the target queue already
/// holds as many entries as its fixed capacity. Recoverable: the caller
/// decides whether to drop, retry later, or escalate.
#[derive(Clone, Copy, PartialEq, Eq, Structural, Debug)]
pub struct QueueFull;

/// Configuration faults detected while the static task/resource tables are
/// built, before the system starts; a faulty configuration is never run.
#[derive(Clone, Copy, PartialEq, Eq, Structural, Debug)]
pub enum ConfigError {
    /// A task names a resource index outside the declared resource table.
    UndeclaredResource { task: usize, resource: usize },
    /// A resource is declared but no task references it.
    UnreferencedResource { resource: usize },
    /// A task other than the idle task was given the reserved lowest
    /// priority `0`.
    InvalidPriority { task: usize },
}

/// Unrecoverable runtime fault: there is no supervisory layer above the
/// dispatcher, so the caller must halt or restart the system.
#[derive(Clone, Copy, PartialEq, Eq, Structural, Debug)]
pub enum FatalError {
    /// The idle task's entry function returned; it must run forever.
    IdleTaskReturned,
}

} // verus!
