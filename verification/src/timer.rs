//! The timer source: wakes that are due at a deadline.
//!
//! Time is a count of milliseconds on the runtime's own monotonic clock. The
//! runtime never reads a clock itself: the current time comes in with every
//! delivery of events (see [`crate::executor::Executor::deliver`]).
//!
//! Timers are kept ordered by deadline, and timers with equal deadlines in the
//! order in which they were scheduled, so that wakes come out in deadline
//! order.

use vstd::prelude::*;
use crate::ids::TaskId;
use crate::waker::Waker;

verus! {

/// A wake that is due at `deadline`.
#[derive(Clone, Copy, Debug, PartialEq, Eq, Structural)]
pub struct Timer {
    pub deadline: u64,
    pub waker: Waker,
}

/// The pending timers of one runtime.
pub struct TimerSource {
    entries: Vec<Timer>,
}

impl View for TimerSource {
    type V = Seq<Timer>;

    closed spec fn view(&self) -> Seq<Timer> {
        self.entries@
    }
}

/// Deadlines never decrease along the list.
pub open spec fn sorted(timers: Seq<Timer>) -> bool {
    forall|i: int, j: int| 0 <= i <= j < timers.len() ==> timers[i].deadline <= timers[j].deadline
}

/// How many timers have a deadline at or before `time`.
pub open spec fn count_until(timers: Seq<Timer>, time: u64) -> nat
    decreases timers.len(),
{
    if timers.len() == 0 {
        0
    } else {
        count_until(timers.drop_last(), time) + if timers.last().deadline <= time {
            1nat
        } else {
            0nat
        }
    }
}

/// The wakers of a list of timers, in order.
pub open spec fn wakers_of(timers: Seq<Timer>) -> Seq<Waker> {
    timers.map_values(|t: Timer| t.waker)
}

/// The test that every timer passes that does not belong to `task`.
pub open spec fn not_timer_of(task: TaskId) -> spec_fn(Timer) -> bool {
    |t: Timer| t.waker.task != task
}

/// The timers that do not belong to `task`, in order.
pub open spec fn unscheduled(timers: Seq<Timer>, task: TaskId) -> Seq<Timer> {
    timers.filter(not_timer_of(task))
}

/// `a + b`, or the largest time where that is out of range.
pub open spec fn saturating_sum(a: u64, b: u64) -> u64 {
    if a + b > u64::MAX {
        u64::MAX
    } else {
        (a + b) as u64
    }
}

/// In a sorted list the timers due at `time` are exactly the first
/// `count_until(timers, time)` ones.
pub proof fn lemma_count_splits(timers: Seq<Timer>, time: u64)
    requires
        sorted(timers),
    ensures
        count_until(timers, time) <= timers.len(),
        forall|i: int| 0 <= i < count_until(timers, time) ==> timers[i].deadline <= time,
        forall|i: int| count_until(timers, time) <= i < timers.len() ==> timers[i].deadline > time,
    decreases timers.len(),
{
    if timers.len() > 0 {
        let rest = timers.drop_last();
        assert(sorted(rest)) by {
            assert forall|i: int, j: int| 0 <= i <= j < rest.len() implies rest[i].deadline
                <= rest[j].deadline by {
                assert(rest[i] == timers[i]);
                assert(rest[j] == timers[j]);
            }
        }
        lemma_count_splits(rest, time);
        let k = count_until(rest, time);
        assert forall|i: int| 0 <= i < rest.len() implies rest[i] == timers[i] by {}
        if timers.last().deadline <= time {
            assert(k == rest.len()) by {
                if k < rest.len() {
                    assert(rest[k as int].deadline > time);
                    assert(timers[k as int].deadline <= timers[timers.len() - 1].deadline);
                }
            }
        }
    }
}

/// A position that splits a sorted list at `time` is `count_until`.
pub proof fn lemma_split_is_count(timers: Seq<Timer>, time: u64, k: int)
    requires
        sorted(timers),
        0 <= k <= timers.len(),
        forall|i: int| 0 <= i < k ==> timers[i].deadline <= time,
        forall|i: int| k <= i < timers.len() ==> timers[i].deadline > time,
    ensures
        count_until(timers, time) == k,
{
    lemma_count_splits(timers, time);
    let c = count_until(timers, time) as int;
    if c < k {
        assert(timers[c].deadline > time);
    } else if c > k {
        assert(timers[k].deadline <= time);
    }
}

impl TimerSource {
    #[verifier::type_invariant]
    spec fn inv(self) -> bool {
        sorted(self.entries@)
    }

    /// A timer source with nothing pending.
    pub fn new() -> (timers: TimerSource)
        ensures
            timers@ == Seq::<Timer>::empty(),
    {
        TimerSource { entries: Vec::new() }
    }

    /// The number of pending timers.
    pub fn len(&self) -> (n: usize)
        ensures
            n == self@.len(),
    {
        self.entries.len()
    }

    /// Whether no timer is pending.
    pub fn is_empty(&self) -> (b: bool)
        ensures
            b == (self@.len() == 0),
    {
        self.entries.len() == 0
    }

    /// The earliest pending deadline.
    pub fn next_deadline(&self) -> (earliest: Option<u64>)
        ensures
            sorted(self@),
            match earliest {
                Some(d) => self@.len() > 0 && d == self@[0].deadline && forall|i: int|
                    0 <= i < self@.len() ==> d <= self@[i].deadline,
                None => self@.len() == 0,
            },
    {
        proof {
            use_type_invariant(self);
        }
        if self.entries.len() == 0 {
            None
        } else {
            Some(self.entries[0].deadline)
        }
    }

    /// How many leading entries have a deadline at or before `time`.
    fn split_point(entries: &Vec<Timer>, time: u64) -> (k: usize)
        requires
            sorted(entries@),
        ensures
            k == count_until(entries@, time),
            k <= entries@.len(),
            forall|i: int| 0 <= i < k ==> entries@[i].deadline <= time,
            forall|i: int| k <= i < entries@.len() ==> entries@[i].deadline > time,
    {
        let n: usize = entries.len();
        let mut k: usize = 0;
        while k < n && entries[k].deadline <= time
            invariant
                n == entries@.len(),
                k <= n,
                forall|i: int| 0 <= i < k ==> entries@[i].deadline <= time,
            decreases n - k,
        {
            k += 1;
        }
        proof {
            assert forall|i: int| k <= i < entries@.len() implies entries@[i].deadline > time by {
                assert(entries@[k as int].deadline <= entries@[i].deadline);
            }
            lemma_split_is_count(entries@, time, k as int);
        }
        k
    }

    /// Schedules a wake of `waker` at `deadline`.
    ///
    /// The timer goes behind every pending timer whose deadline is not later.
    pub fn schedule(&mut self, deadline: u64, waker: Waker)
        ensures
            sorted(old(self)@),
            sorted(final(self)@),
            final(self)@ == old(self)@.insert(
                count_until(old(self)@, deadline) as int,
                Timer { deadline, waker },
            ),
    {
        proof {
            use_type_invariant(&*self);
        }
        let mut entries: Vec<Timer> = Vec::new();
        core::mem::swap(&mut self.entries, &mut entries);
        let k = Self::split_point(&entries, deadline);
        let ghost before = entries@;
        entries.insert(k, Timer { deadline, waker });
        proof {
            let after = entries@;
            assert forall|i: int, j: int| 0 <= i <= j < after.len() implies after[i].deadline
                <= after[j].deadline by {
                let i2 = if i < k {
                    i
                } else {
                    i - 1
                };
                let j2 = if j < k {
                    j
                } else {
                    j - 1
                };
                if i != k {
                    assert(after[i] == before[i2]);
                }
                if j != k {
                    assert(after[j] == before[j2]);
                }
            }
        }
        core::mem::swap(&mut self.entries, &mut entries);
    }

    /// Takes out the timers that are due at `now` and returns their wakers,
    /// earliest deadline first.
    pub fn expire(&mut self, now: u64) -> (wakers: Vec<Waker>)
        ensures
            sorted(old(self)@),
            sorted(final(self)@),
            wakers@ == wakers_of(old(self)@.take(count_until(old(self)@, now) as int)),
            final(self)@ == old(self)@.skip(count_until(old(self)@, now) as int),
            forall|i: int| 0 <= i < count_until(old(self)@, now) ==> old(self)@[i].deadline <= now,
            forall|i: int| 0 <= i < final(self)@.len() ==> final(self)@[i].deadline > now,
    {
        proof {
            use_type_invariant(&*self);
        }
        let mut entries: Vec<Timer> = Vec::new();
        core::mem::swap(&mut self.entries, &mut entries);
        let k = Self::split_point(&entries, now);
        let mut rest = entries.split_off(k);
        let mut wakers: Vec<Waker> = Vec::new();
        let mut i: usize = 0;
        while i < k
            invariant
                k == entries@.len(),
                i <= k,
                wakers@ == wakers_of(entries@.take(i as int)),
            decreases k - i,
        {
            wakers.push(entries[i].waker);
            proof {
                assert(wakers@ =~= wakers_of(entries@.take(i + 1)));
            }
            i += 1;
        }
        proof {
            assert(entries@.take(k as int) =~= entries@);
            assert(entries@ =~= old(self)@.take(k as int));
            assert(rest@ =~= old(self)@.skip(k as int));
            assert forall|a: int, b: int| 0 <= a <= b < rest@.len() implies rest@[a].deadline
                <= rest@[b].deadline by {
                assert(rest@[a] == old(self)@[a + k]);
                assert(rest@[b] == old(self)@[b + k]);
            }
        }
        core::mem::swap(&mut self.entries, &mut rest);
        wakers
    }

    /// Drops every timer that belongs to `task`. Returns how many were
    /// dropped.
    pub fn cancel(&mut self, task: TaskId) -> (count: usize)
        ensures
            sorted(final(self)@),
            final(self)@ == unscheduled(old(self)@, task),
            count == old(self)@.len() - final(self)@.len(),
    {
        proof {
            use_type_invariant(&*self);
        }
        let mut entries: Vec<Timer> = Vec::new();
        core::mem::swap(&mut self.entries, &mut entries);
        let mut kept: Vec<Timer> = Vec::new();
        let n: usize = entries.len();
        let mut i: usize = 0;
        let mut count: usize = 0;
        proof {
            reveal(Seq::filter);
            assert(entries@.take(0) =~= Seq::<Timer>::empty());
        }
        while i < n
            invariant
                n == entries@.len(),
                i <= n,
                entries@ == old(self)@,
                sorted(entries@),
                kept@ == unscheduled(entries@.take(i as int), task),
                count + kept@.len() == i,
                sorted(kept@),
                forall|a: int|
                    0 <= a < kept@.len() ==> exists|b: int|
                        0 <= b < i && entries@[b] == #[trigger] kept@[a],
            decreases n - i,
        {
            let entry = entries[i];
            proof {
                reveal(Seq::filter);
                assert(entries@.take(i + 1).drop_last() =~= entries@.take(i as int));
                assert(entries@.take(i + 1).last() == entry);
            }
            if entry.waker.task == task {
                count += 1;
            } else {
                let ghost prev = kept@;
                kept.push(entry);
                proof {
                    assert forall|a: int, b: int| 0 <= a <= b < kept@.len() implies kept@[a].deadline
                        <= kept@[b].deadline by {
                        if b == prev.len() {
                            if a < b {
                                let c = choose|c: int| 0 <= c < i && entries@[c] == prev[a];
                                assert(kept@[a] == entries@[c]);
                                assert(kept@[b] == entries@[i as int]);
                            }
                        } else {
                            assert(kept@[a] == prev[a]);
                            assert(kept@[b] == prev[b]);
                        }
                    }
                    assert forall|a: int| 0 <= a < kept@.len() implies exists|b: int|
                        0 <= b < i + 1 && entries@[b] == #[trigger] kept@[a] by {
                        if a == prev.len() {
                            assert(entries@[i as int] == kept@[a]);
                        } else {
                            let c = choose|c: int| 0 <= c < i && entries@[c] == prev[a];
                            assert(entries@[c] == kept@[a]);
                        }
                    }
                }
            }
            i += 1;
        }
        proof {
            assert(entries@.take(n as int) =~= entries@);
        }
        core::mem::swap(&mut self.entries, &mut kept);
        count
    }
}

} // verus!
