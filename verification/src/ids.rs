//! Identifiers handed out by the runtime.

use vstd::prelude::*;

verus! {

/// Identity of a task, unique among the tasks of one executor.
#[derive(Clone, Copy, Debug, PartialEq, Eq, Structural)]
pub struct TaskId {
    pub raw: u64,
}

/// Identity of one registered interest in a reactor.
#[derive(Clone, Copy, Debug, PartialEq, Eq, Structural)]
pub struct Token {
    pub raw: usize,
}

impl TaskId {
    /// The task identity with the given number.
    pub fn new(raw: u64) -> (id: TaskId)
        ensures
            id.raw == raw,
    {
        TaskId { raw }
    }
}

impl Token {
    /// The token with the given number.
    pub fn new(raw: usize) -> (token: Token)
        ensures
            token.raw == raw,
    {
        Token { raw }
    }
}

} // verus!
