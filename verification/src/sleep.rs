//! The time-based suspension point.

use vstd::prelude::*;
use crate::outcome::PollResult;
use crate::task::Context;
use crate::task::Task;
use crate::timer::count_until;
use crate::timer::saturating_sum;
use crate::timer::Timer;

verus! {

/// A task that is pending until its completion time has come.
pub struct SleepFuture {
    completion_time: u64,
}

impl SleepFuture {
    /// The time in milliseconds from which on the sleep is over.
    pub closed spec fn deadline(&self) -> u64 {
        self.completion_time
    }

    /// A sleep that is over `duration` milliseconds after `now`. A completion
    /// time beyond the largest time is held at the largest time.
    pub fn new(now: u64, duration: u64) -> (sleep: SleepFuture)
        ensures
            sleep.deadline() == saturating_sum(now, duration),
    {
        let completion_time: u64 = if duration > u64::MAX - now {
            u64::MAX
        } else {
            now + duration
        };
        SleepFuture { completion_time }
    }

    /// The time in milliseconds from which on the sleep is over.
    pub fn completion_time(&self) -> (time: u64)
        ensures
            time == self.deadline(),
    {
        self.completion_time
    }

    /// Whether the sleep is over at `now`.
    pub fn is_elapsed(&self, now: u64) -> (b: bool)
        ensures
            b == (self.deadline() <= now),
    {
        self.completion_time <= now
    }
}

impl Task for SleepFuture {
    type Output = ();

    type Error = ();

    open spec fn polled(
        &self,
        after: &Self,
        before: Context,
        then: Context,
        answer: PollResult<(), ()>,
    ) -> bool {
        &&& after.deadline() == self.deadline()
        &&& !(answer is Failed)
        &&& answer is Ready <==> self.deadline() <= before.now
        &&& answer is Ready ==> then == before
        &&& answer is Pending ==> {
            &&& then.timers@ == before.timers@.insert(
                count_until(before.timers@, self.deadline()) as int,
                Timer { deadline: self.deadline(), waker: before.waker },
            )
            &&& then.waker == before.waker
            &&& then.now == before.now
            &&& then.reactor == before.reactor
            &&& then.woken == before.woken
        }
    }

    /// Answers `Ready` exactly when the completion time has come. Otherwise
    /// schedules a wake of the polling task at the completion time and answers
    /// `Pending`.
    fn poll(&mut self, cx: &mut Context) -> (r: PollResult<(), ()>)
        ensures
            final(self).deadline() == old(self).deadline(),
            !(r is Failed),
            r is Ready <==> old(self).deadline() <= old(cx).now,
            r is Ready ==> *final(cx) == *old(cx),
            r is Pending ==> {
                &&& final(cx).timers@ == old(cx).timers@.insert(
                    count_until(old(cx).timers@, old(self).deadline()) as int,
                    Timer { deadline: old(self).deadline(), waker: old(cx).waker },
                )
                &&& final(cx).waker == old(cx).waker
                &&& final(cx).now == old(cx).now
                &&& final(cx).reactor == old(cx).reactor
                &&& final(cx).woken == old(cx).woken
            },
    {
        if self.completion_time <= cx.now {
            PollResult::Ready(())
        } else {
            let waker = cx.waker;
            cx.timers.schedule(self.completion_time, waker);
            PollResult::Pending
        }
    }
}

} // verus!
