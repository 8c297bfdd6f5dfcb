//! Readiness directions, the events that report them, and resource handles.

use vstd::prelude::*;
use crate::ids::Token;

verus! {

/// Handle of an externally owned resource, such as a non-blocking socket.
/// The runtime never opens or closes what the handle stands for.
#[derive(Clone, Copy, Debug, PartialEq, Eq, Structural)]
pub struct ResourceId {
    pub raw: u64,
}

/// The directions of readiness that a registration asks for.
#[derive(Clone, Copy, Debug, PartialEq, Eq, Structural)]
pub struct Interest {
    pub readable: bool,
    pub writable: bool,
}

/// One report of readiness for a token.
#[derive(Clone, Copy, Debug, PartialEq, Eq, Structural)]
pub struct ReadinessEvent {
    pub token: Token,
    pub readable: bool,
    pub writable: bool,
}

impl ResourceId {
    /// The handle with the given number.
    pub fn new(raw: u64) -> (id: ResourceId)
        ensures
            id.raw == raw,
    {
        ResourceId { raw }
    }
}

impl Interest {
    /// Interest in readability only.
    pub fn readable() -> (i: Interest)
        ensures
            i == (Interest { readable: true, writable: false }),
    {
        Interest { readable: true, writable: false }
    }

    /// Interest in writability only.
    pub fn writable() -> (i: Interest)
        ensures
            i == (Interest { readable: false, writable: true }),
    {
        Interest { readable: false, writable: true }
    }

    /// The union of two interests.
    pub fn add(self, other: Interest) -> (i: Interest)
        ensures
            i.readable == (self.readable || other.readable),
            i.writable == (self.writable || other.writable),
    {
        Interest {
            readable: self.readable || other.readable,
            writable: self.writable || other.writable,
        }
    }

    /// Whether readability is asked for.
    pub fn is_readable(&self) -> (b: bool)
        ensures
            b == self.readable,
    {
        self.readable
    }

    /// Whether writability is asked for.
    pub fn is_writable(&self) -> (b: bool)
        ensures
            b == self.writable,
    {
        self.writable
    }

    /// Whether an event reports at least one direction that is asked for.
    pub open spec fn spec_matches(self, event: ReadinessEvent) -> bool {
        (self.readable && event.readable) || (self.writable && event.writable)
    }

    /// Whether an event reports at least one direction that is asked for.
    pub fn matches(&self, event: &ReadinessEvent) -> (b: bool)
        ensures
            b == self.spec_matches(*event),
    {
        (self.readable && event.readable) || (self.writable && event.writable)
    }
}

impl ReadinessEvent {
    /// An event for `token` with the given directions.
    pub fn new(token: Token, readable: bool, writable: bool) -> (event: ReadinessEvent)
        ensures
            event == (ReadinessEvent { token, readable, writable }),
    {
        ReadinessEvent { token, readable, writable }
    }
}

} // verus!
