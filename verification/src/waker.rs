//! The handle by which a suspended task asks for another poll.

use vstd::prelude::*;
use crate::ids::TaskId;

verus! {

/// A handle bound to exactly one task identity.
///
/// A waker carries no reference into the executor: waking is done by handing
/// it to [`crate::executor::Executor::wake`], or, from inside a poll, to
/// [`crate::task::Context::wake`]. It is a plain value and may be copied freely
/// and kept after the poll that produced it.
#[derive(Clone, Copy, Debug, PartialEq, Eq, Structural)]
pub struct Waker {
    pub task: TaskId,
}

impl Waker {
    /// The waker of the given task.
    pub fn new(task: TaskId) -> (waker: Waker)
        ensures
            waker.task == task,
    {
        Waker { task }
    }

    /// The task that this waker marks runnable.
    pub fn task_id(&self) -> (id: TaskId)
        ensures
            id == self.task,
    {
        self.task
    }
}

} // verus!
