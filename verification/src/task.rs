//! Tasks and the context in which they are polled.

use vstd::prelude::*;
use crate::outcome::PollResult;
use crate::reactor::Reactor;
use crate::reactor::Registration;
use crate::sleep::SleepFuture;
use crate::timer::saturating_sum;
use crate::timer::Timer;
use crate::timer::TimerSource;
use crate::waker::Waker;

verus! {

/// What a task sees while it is polled.
///
/// `waker` is bound to the task that is being polled and `now` is the
/// runtime's current time in milliseconds. Through `reactor` and `timers` the
/// task arranges the wake that it needs before it answers `Pending`. Wakes
/// that the task itself asks for during the poll are collected in `woken` and
/// delivered by the executor when the poll has returned.
pub struct Context {
    pub waker: Waker,
    pub now: u64,
    pub reactor: Reactor,
    pub timers: TimerSource,
    pub woken: Vec<Waker>,
}

/// A suspendable computation that is driven by repeated polling.
///
/// An answer of `Ready` or `Failed` ends the task. Before it answers
/// `Pending` the task has to arrange that its waker is fired later: by a
/// timer, by a reactor registration, or by any other holder of the waker. A
/// task that does not is never polled again.
pub trait Task {
    type Output;

    type Error;

    /// Whether one poll can take the task from this state to `after`, the
    /// context from `before` to `then`, and give `answer`. A kind of task says
    /// here what its polls do. Unless it does, the relation holds of every
    /// poll.
    open spec fn polled(
        &self,
        after: &Self,
        before: Context,
        then: Context,
        answer: PollResult<Self::Output, Self::Error>,
    ) -> bool {
        true
    }

    /// Asks the task to make progress.
    fn poll(&mut self, cx: &mut Context) -> (answer: PollResult<Self::Output, Self::Error>)
        ensures
            old(self).polled(final(self), *old(cx), *final(cx), answer),
    ;
}

impl Context {
    /// A context for `waker` at time `now`, with an empty reactor, no timers
    /// and no wakes.
    pub fn new(waker: Waker, now: u64) -> (cx: Context)
        ensures
            cx.waker == waker,
            cx.now == now,
            cx.reactor@ == Seq::<Registration>::empty(),
            cx.reactor.issued() == 0,
            cx.timers@ == Seq::<Timer>::empty(),
            cx.woken@ == Seq::<Waker>::empty(),
    {
        Context {
            waker,
            now,
            reactor: Reactor::new(),
            timers: TimerSource::new(),
            woken: Vec::new(),
        }
    }

    /// The waker of the task that is being polled.
    pub fn waker(&self) -> (waker: Waker)
        ensures
            waker == self.waker,
    {
        self.waker
    }

    /// The current time in milliseconds.
    pub fn now(&self) -> (now: u64)
        ensures
            now == self.now,
    {
        self.now
    }

    /// Asks for a wake of the task that `waker` is bound to. The executor
    /// delivers it when the running poll has returned.
    pub fn wake(&mut self, waker: &Waker)
        ensures
            final(self).woken@ == old(self).woken@.push(*waker),
            final(self).waker == old(self).waker,
            final(self).now == old(self).now,
            final(self).reactor == old(self).reactor,
            final(self).timers == old(self).timers,
    {
        self.woken.push(*waker);
    }

    /// Asks for another poll of the task that is being polled.
    pub fn wake_by_ref(&mut self)
        ensures
            final(self).woken@ == old(self).woken@.push(old(self).waker),
            final(self).waker == old(self).waker,
            final(self).now == old(self).now,
            final(self).reactor == old(self).reactor,
            final(self).timers == old(self).timers,
    {
        let waker = self.waker;
        self.woken.push(waker);
    }

    /// A suspension point that is over `duration` milliseconds from now.
    pub fn after(&self, duration: u64) -> (sleep: SleepFuture)
        ensures
            sleep.deadline() == saturating_sum(self.now, duration),
    {
        SleepFuture::new(self.now, duration)
    }
}

} // verus!
