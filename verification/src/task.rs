//! Bookkeeping side of the kernel's cooperative tasks. A task's future is
//! opaque machinery that only the runtime outside this crate can poll; the
//! library tracks tasks by identity and proves the scheduling discipline
//! over those identities.
use vstd::prelude::*;

pub mod keyboard;
pub mod simple_executor;

verus! {

/// Identity of a spawned task. The runtime hands out fresh values from a
/// counter; the library only requires them to name tasks.
#[derive(Debug, Clone, Copy, PartialEq, Eq, Structural)]
pub struct TaskId(pub u64);

impl TaskId {
    pub fn new(value: u64) -> (id: TaskId)
        ensures
            id.0 == value,
    {
        TaskId(value)
    }
}

/// The scheduler-visible record of a spawned task. The pinned future it
/// stands for stays with the runtime, keyed by this identity.
#[derive(Debug, Clone, Copy, PartialEq, Eq, Structural)]
pub struct Task {
    pub id: TaskId,
}

impl Task {
    pub fn new(id: TaskId) -> (task: Task)
        ensures
            task.id == id,
    {
        Task { id }
    }
}

/// Outcome of polling a task's future once, reported back by the runtime.
#[derive(Debug, Clone, Copy, PartialEq, Eq, Structural)]
pub enum TaskPoll {
    Ready,
    Pending,
}

} // verus!
