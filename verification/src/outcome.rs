//! What a single poll answers, and how a task's life ends.

use vstd::prelude::*;
use crate::reactor::ReactorError;

verus! {

/// Answer of one poll of a task.
pub enum PollResult<T, E> {
    /// The task finished with a value. It is never polled again.
    Ready(T),
    /// The task cannot make progress yet. It is polled again after a wake.
    Pending,
    /// The task's own computation failed. It is never polled again.
    Failed(E),
}

/// How a task left the executor's table.
pub enum Outcome<T, E> {
    /// Its last poll answered `Ready`.
    Completed(T),
    /// Its last poll answered `Failed`.
    Failed(E),
    /// It was cancelled before it finished.
    Cancelled,
    /// The multiplexer refused to watch what the task waited for; the error
    /// says why.
    Rejected(ReactorError),
}

/// Lifecycle state of a task that an executor knows.
#[derive(Clone, Copy, Debug, PartialEq, Eq, Structural)]
pub enum TaskState {
    /// Waiting in the run queue for its next poll.
    Runnable,
    /// Answered `Pending` and waits for a wake.
    Suspended,
    /// Finished with a value.
    Completed,
    /// Finished with an error.
    Failed,
    /// Removed by a cancellation.
    Cancelled,
}

impl<T, E> PollResult<T, E> {
    /// Whether the answer ends the task.
    pub open spec fn terminal(self) -> bool {
        !(self is Pending)
    }

    /// The outcome recorded for a terminal answer.
    pub open spec fn outcome(self) -> Outcome<T, E>
        recommends
            self.terminal(),
    {
        match self {
            PollResult::Ready(v) => Outcome::Completed(v),
            PollResult::Failed(e) => Outcome::Failed(e),
            PollResult::Pending => Outcome::Cancelled,
        }
    }

    /// Whether the answer is `Ready`.
    pub fn is_ready(&self) -> (b: bool)
        ensures
            b == (*self is Ready),
    {
        match self {
            PollResult::Ready(_) => true,
            _ => false,
        }
    }

    /// Whether the answer is `Pending`.
    pub fn is_pending(&self) -> (b: bool)
        ensures
            b == (*self is Pending),
    {
        match self {
            PollResult::Pending => true,
            _ => false,
        }
    }

    /// Whether the answer is `Failed`.
    pub fn is_failed(&self) -> (b: bool)
        ensures
            b == (*self is Failed),
    {
        match self {
            PollResult::Failed(_) => true,
            _ => false,
        }
    }
}

impl<T, E> Outcome<T, E> {
    /// The lifecycle state that the outcome stands for.
    pub open spec fn spec_state(self) -> TaskState {
        match self {
            Outcome::Completed(_) => TaskState::Completed,
            Outcome::Failed(_) => TaskState::Failed,
            Outcome::Cancelled => TaskState::Cancelled,
            Outcome::Rejected(_) => TaskState::Failed,
        }
    }

    /// The lifecycle state that the outcome stands for.
    pub fn state(&self) -> (s: TaskState)
        ensures
            s == self.spec_state(),
    {
        match self {
            Outcome::Completed(_) => TaskState::Completed,
            Outcome::Failed(_) => TaskState::Failed,
            Outcome::Cancelled => TaskState::Cancelled,
            Outcome::Rejected(_) => TaskState::Failed,
        }
    }
}

} // verus!
