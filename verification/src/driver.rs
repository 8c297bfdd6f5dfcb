//! The blocking side of the reactor: waiting for readiness.
//!
//! A [`Driver`] does what the runtime cannot do by itself: it blocks the
//! thread until a watched resource is ready, the timeout has passed, or
//! something interrupts the wait. [`VirtualDriver`] is a driver that never
//! blocks: it plays a script of events on a clock of its own.

use vstd::prelude::*;
use crate::ids::Token;
use crate::interest::ReadinessEvent;
use crate::model::later;
use crate::reactor::ReactorError;
use crate::reactor::Registration;
use crate::timer::saturating_sum;

verus! {

/// What a wait gave: the time at which it returned, the events it saw, and
/// the tokens of the registrations that the multiplexer refused to watch.
pub struct Wakeup {
    pub now: u64,
    pub events: Vec<ReadinessEvent>,
    pub refused: Vec<Token>,
}

/// A source of readiness events that can be waited on.
pub trait Driver {
    /// Whether one wait for `watched` with `timeout` can take the driver from
    /// this state to `after` and give `result`. A kind of driver says here
    /// what its waits do. Unless it does, the relation holds of every wait: of
    /// the outside world nothing is known beforehand.
    open spec fn waited(
        &self,
        after: &Self,
        watched: Seq<Registration>,
        timeout: Option<u64>,
        result: Result<Wakeup, ReactorError>,
    ) -> bool {
        true
    }

    /// Waits until one of the `watched` registrations is ready, `timeout`
    /// milliseconds have passed (`None`: without limit), or the wait is
    /// interrupted. An error means that no wait is possible.
    fn wait(&mut self, watched: &Vec<Registration>, timeout: Option<u64>) -> (result: Result<
        Wakeup,
        ReactorError,
    >)
        ensures
            old(self).waited(final(self), watched@, timeout, result),
    ;
}

/// An event of a script, which fires at time `at` or, where that has passed,
/// at once.
#[derive(Clone, Copy, Debug, PartialEq, Eq, Structural)]
pub struct Scripted {
    pub at: u64,
    pub event: ReadinessEvent,
}

/// A driver on simulated time, which watches whatever it is asked to.
///
/// Its clock starts at 0 and moves only in `wait`. A wait returns when the
/// next scripted event fires or when the timeout has passed, whichever comes
/// first; the script is played front to back, one event per wait.
pub struct VirtualDriver {
    pub now: u64,
    pub script: Vec<Scripted>,
}

/// The time at which a wait of the virtual driver returns, where it returns.
pub open spec fn wait_end(now: u64, script: Seq<Scripted>, timeout: Option<u64>) -> u64 {
    if script.len() > 0 && (timeout is None || later(now, script[0].at) <= saturating_sum(
        now,
        timeout->0,
    )) {
        later(now, script[0].at)
    } else {
        saturating_sum(now, timeout->0)
    }
}

/// Whether a wait of the virtual driver hands out the front of its script.
pub open spec fn wait_fires(now: u64, script: Seq<Scripted>, timeout: Option<u64>) -> bool {
    script.len() > 0 && (timeout is None || later(now, script[0].at) <= saturating_sum(
        now,
        timeout->0,
    ))
}

impl VirtualDriver {
    /// A driver at time 0 with an empty script.
    pub fn new() -> (driver: VirtualDriver)
        ensures
            driver.now == 0,
            driver.script@ == Seq::<Scripted>::empty(),
    {
        VirtualDriver { now: 0, script: Vec::new() }
    }

    /// Appends an event to the script.
    pub fn push(&mut self, at: u64, event: ReadinessEvent)
        ensures
            final(self).now == old(self).now,
            final(self).script@ == old(self).script@.push(Scripted { at, event }),
    {
        self.script.push(Scripted { at, event });
    }
}

impl Driver for VirtualDriver {
    /// A wait fails, and changes nothing, exactly when the script is empty
    /// and no timeout is given: such a wait would never return. Otherwise the
    /// clock moves to [`wait_end`], and the front of the script is handed out
    /// where [`wait_fires`] holds.
    open spec fn waited(
        &self,
        after: &Self,
        watched: Seq<Registration>,
        timeout: Option<u64>,
        result: Result<Wakeup, ReactorError>,
    ) -> bool {
        match result {
            Ok(wakeup) => {
                &&& self.script@.len() > 0 || timeout is Some
                &&& wakeup.now == wait_end(self.now, self.script@, timeout)
                &&& wakeup.refused@ == Seq::<Token>::empty()
                &&& after.now == wakeup.now
                &&& if wait_fires(self.now, self.script@, timeout) {
                    &&& wakeup.events@ == seq![self.script@[0].event]
                    &&& after.script@ == self.script@.skip(1)
                } else {
                    &&& wakeup.events@ == Seq::<ReadinessEvent>::empty()
                    &&& after.script@ == self.script@
                }
            },
            Err(e) => {
                &&& e == ReactorError::WaitFailed
                &&& self.script@.len() == 0
                &&& timeout is None
                &&& after.now == self.now
                &&& after.script@ == self.script@
            },
        }
    }

    fn wait(&mut self, watched: &Vec<Registration>, timeout: Option<u64>) -> (r: Result<
        Wakeup,
        ReactorError,
    >)
    {
        let horizon: Option<u64> = match timeout {
            Some(t) => Some(
                if t > u64::MAX - self.now {
                    u64::MAX
                } else {
                    self.now + t
                },
            ),
            None => None,
        };
        let mut events: Vec<ReadinessEvent> = Vec::new();
        if self.script.len() > 0 {
            let first = self.script[0];
            let at: u64 = if first.at > self.now {
                first.at
            } else {
                self.now
            };
            let fires = match horizon {
                Some(h) => at <= h,
                None => true,
            };
            if fires {
                let _ = self.script.remove(0);
                assert(self.script@ =~= old(self).script@.skip(1));
                events.push(first.event);
                self.now = at;
                return Ok(Wakeup { now: at, events, refused: Vec::new() });
            }
        }
        match horizon {
            Some(h) => {
                self.now = h;
                Ok(Wakeup { now: h, events, refused: Vec::new() })
            },
            None => Err(ReactorError::WaitFailed),
        }
    }
}

} // verus!
