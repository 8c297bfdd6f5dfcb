//! The executor: the task table, the run queue and the scheduling decisions.

use vstd::prelude::*;
use crate::driver::Driver;
use crate::ids::TaskId;
use crate::ids::Token;
use crate::interest::ReadinessEvent;
use crate::model::lemma_complete_accounts_for_all;
use crate::model::lemma_delivery_runs;
use crate::model::lemma_dequeued_wf;
use crate::model::lemma_poll_runs;
use crate::model::lemma_ran_to_chain;
use crate::model::lemma_ran_to_self;
use crate::model::lemma_retired_wf;
use crate::model::lemma_submitted_wf;
use crate::model::lemma_wf_frame;
use crate::model::lemma_wf_same_ids;
use crate::model::lemma_woken_each_wf;
use crate::model::lemma_woken_wf;
use crate::model::not_entry_of;
use crate::model::record;
use crate::model::run_ends;
use crate::model::runs_in;
use crate::model::turn;
use crate::reactor::armed_of;
use crate::model::ExecutorView;
use crate::model::Finished;
use crate::model::Step;
use crate::outcome::Outcome;
use crate::outcome::PollResult;
use crate::outcome::TaskState;
use crate::reactor::has_token;
use crate::reactor::holder_of;
use crate::model::lemma_rejected_each_runs;
use crate::reactor::Reactor;
use crate::reactor::ReactorError;
use crate::run_queue::lemma_without_absent;
use crate::run_queue::RunQueue;
use crate::seqs::lemma_filter_removes_one;
use crate::task::Context;
use crate::task::Task;
use crate::timer::TimerSource;
use crate::waker::Waker;

verus! {

pub use crate::model::RunStatus;

/// A single-threaded executor for tasks of type `T`.
///
/// It owns the tasks, the run queue, the reactor's table and the timers.
pub struct Executor<T: Task> {
    tasks: Vec<(TaskId, T)>,
    queue: RunQueue,
    cx: Context,
    now: u64,
    next_id: u64,
    finished: Vec<Finished<T::Output, T::Error>>,
}

impl<T: Task> View for Executor<T> {
    type V = ExecutorView<T>;

    closed spec fn view(&self) -> ExecutorView<T> {
        ExecutorView {
            tasks: self.tasks@,
            runnable: self.queue@,
            finished: self.finished@,
            issued: self.next_id as nat,
            now: self.now,
            registrations: self.cx.reactor@,
            tokens_issued: self.cx.reactor.issued(),
            timers: self.cx.timers@,
        }
    }
}

impl<T: Task> Executor<T> {
    /// The invariant that every operation keeps.
    pub open spec fn wf(&self) -> bool {
        self@.wf()
    }

    /// The context that the next poll sees.
    pub closed spec fn context(&self) -> Context {
        self.cx
    }

    /// Whether the context is made ready for a poll of `id`: its waker is
    /// bound to `id`, its time is the executor's, no wake is collected in it,
    /// and its reactor and timers are the executor's.
    pub open spec fn prepared_for(&self, id: TaskId) -> bool {
        &&& self.context().waker == (Waker { task: id })
        &&& self.context().now == self@.now
        &&& self.context().woken@ == Seq::<Waker>::empty()
        &&& self.context().reactor@ == self@.registrations
        &&& self.context().reactor.issued() == self@.tokens_issued
        &&& self.context().timers@ == self@.timers
    }

    /// An executor with no task, at time 0.
    pub fn new() -> (executor: Executor<T>)
        ensures
            executor.wf(),
            executor@ == ExecutorView::<T>::empty(),
    {
        Executor {
            tasks: Vec::new(),
            queue: RunQueue::new(),
            cx: Context::new(Waker::new(TaskId::new(0)), 0),
            now: 0,
            next_id: 0,
            finished: Vec::new(),
        }
    }

    /// Where in the table the task `id` stands.
    fn position(&self, id: TaskId) -> (found: Option<usize>)
        ensures
            match found {
                Some(i) => i < self@.tasks.len() && self@.tasks[i as int].0 == id,
                None => !self@.live().contains(id),
            },
    {
        let n: usize = self.tasks.len();
        let mut i: usize = 0;
        while i < n
            invariant
                n == self.tasks@.len(),
                i <= n,
                forall|j: int| 0 <= j < i ==> self.tasks@[j].0 != id,
            decreases n - i,
        {
            if self.tasks[i].0 == id {
                return Some(i);
            }
            i += 1;
        }
        None
    }

    /// Puts `task` into the table and queues it, so that it is polled before
    /// anything else can happen to it. Returns its identity.
    ///
    /// Returns `None`, and changes nothing, exactly when every identity has
    /// been handed out.
    pub fn submit(&mut self, task: T) -> (id: Option<TaskId>)
        requires
            old(self).wf(),
        ensures
            final(self).wf(),
            match id {
                Some(id) => {
                    &&& old(self)@.issued < u64::MAX
                    &&& id.raw == old(self)@.issued
                    &&& !old(self)@.accounted(id)
                    &&& final(self)@ == old(self)@.submitted(task)
                },
                None => old(self)@.issued == u64::MAX && final(self)@ == old(self)@,
            },
    {
        if self.next_id == u64::MAX {
            return None;
        }
        let id = TaskId { raw: self.next_id };
        proof {
            lemma_submitted_wf(self@, task);
            assert(!self@.runnable.contains(id)) by {
                if self@.runnable.contains(id) {
                    let i = choose|i: int| 0 <= i < self@.runnable.len() && self@.runnable[i] == id;
                    assert(self@.live().contains(self@.runnable[i]));
                }
            }
        }
        self.tasks.push((id, task));
        self.queue.enqueue(id);
        self.next_id = self.next_id + 1;
        Some(id)
    }

    /// Marks the task of `waker` runnable.
    ///
    /// A task in the table is queued at the back unless it is queued already.
    /// A wake for any other identity, such as a task that has finished or was
    /// cancelled, does nothing. The task is not polled by this call.
    pub fn wake(&mut self, waker: &Waker)
        requires
            old(self).wf(),
        ensures
            final(self).wf(),
            final(self)@ == old(self)@.woken(waker.task),
    {
        let id = waker.task;
        proof {
            lemma_woken_wf(self@, id);
        }
        match self.position(id) {
            Some(i) => {
                assert(self@.live()[i as int] == id);
                self.queue.enqueue(id);
            },
            None => {},
        }
    }

    /// Takes the task at `idx` out of the table and records `outcome` for it.
    fn retire(&mut self, idx: usize, outcome: Outcome<T::Output, T::Error>) -> (id: TaskId)
        requires
            old(self).wf(),
            idx < old(self)@.tasks.len(),
        ensures
            final(self).wf(),
            id == old(self)@.tasks[idx as int].0,
            final(self)@ == old(self)@.retired(id, outcome),
    {
        let entry = self.tasks.remove(idx);
        let id = entry.0;
        proof {
            let v = old(self)@;
            assert(v.live()[idx as int] == id);
            assert forall|j: int| 0 <= j < v.tasks.len() && j != idx implies not_entry_of::<T>(id)(
                v.tasks[j],
            ) by {
                assert(v.live()[j] == v.tasks[j].0);
                assert(v.live()[idx as int] != v.live()[j]);
            }
            lemma_filter_removes_one(v.tasks, not_entry_of::<T>(id), idx as int);
            lemma_retired_wf(v, id, outcome);
        }
        self.queue.remove(id);
        self.cx.reactor.release(id);
        self.cx.timers.cancel(id);
        self.finished.push(Finished { id, outcome });
        id
    }

    /// Records what a poll of `id` answered.
    ///
    /// `Pending` changes nothing: the task stays in the table and is queued
    /// again only by a wake. `Ready` and `Failed` take the task out of the
    /// table and the queue, drop its timers and the registrations that hold
    /// its waker, and record its outcome. An answer for an identity that is
    /// not in the table changes nothing.
    pub fn settle(&mut self, id: TaskId, result: PollResult<T::Output, T::Error>)
        requires
            old(self).wf(),
        ensures
            final(self).wf(),
            final(self)@ == old(self)@.settled(id, result),
    {
        match result {
            PollResult::Pending => {},
            PollResult::Ready(value) => {
                match self.position(id) {
                    Some(i) => {
                        assert(self@.live()[i as int] == id);
                        self.retire(i, Outcome::Completed(value));
                    },
                    None => {},
                }
            },
            PollResult::Failed(error) => {
                match self.position(id) {
                    Some(i) => {
                        assert(self@.live()[i as int] == id);
                        self.retire(i, Outcome::Failed(error));
                    },
                    None => {},
                }
            },
        }
    }

    /// Cancels the task `id`: it leaves the table and the queue, its timers
    /// and the registrations that hold its waker are dropped, and the outcome
    /// `Cancelled` is recorded. Returns whether the task was in the table;
    /// where it was not, nothing changes.
    pub fn cancel(&mut self, id: TaskId) -> (found: bool)
        requires
            old(self).wf(),
        ensures
            final(self).wf(),
            found == old(self)@.live().contains(id),
            final(self)@ == old(self)@.cancelled(id),
    {
        match self.position(id) {
            Some(i) => {
                assert(self@.live()[i as int] == id);
                self.retire(i, Outcome::Cancelled);
                true
            },
            None => false,
        }
    }

    /// Delivers one wake for each of `wakers`, in order.
    pub fn wake_all(&mut self, wakers: &Vec<Waker>)
        requires
            old(self).wf(),
        ensures
            final(self).wf(),
            final(self)@ == old(self)@.woken_each(wakers@),
    {
        let n: usize = wakers.len();
        let mut i: usize = 0;
        proof {
            assert(wakers@.take(0) =~= Seq::<Waker>::empty());
        }
        while i < n
            invariant
                n == wakers@.len(),
                i <= n,
                self.wf(),
                self@ == old(self)@.woken_each(wakers@.take(i as int)),
            decreases n - i,
        {
            proof {
                assert(wakers@.take(i + 1).drop_last() =~= wakers@.take(i as int));
                assert(wakers@.take(i + 1).last() == wakers@[i as int]);
            }
            self.wake(&wakers[i]);
            i += 1;
        }
        proof {
            assert(wakers@.take(n as int) =~= wakers@);
        }
    }

    /// Takes the task at the front of the run queue for a poll and makes the
    /// context ready for it.
    ///
    /// Returns `None`, and changes nothing, exactly when nothing is runnable.
    pub fn begin_poll(&mut self) -> (next: Option<TaskId>)
        requires
            old(self).wf(),
        ensures
            final(self).wf(),
            match next {
                Some(id) => {
                    &&& old(self)@.runnable.len() > 0
                    &&& id == old(self)@.runnable[0]
                    &&& old(self)@.live().contains(id)
                    &&& final(self)@ == (ExecutorView {
                        runnable: old(self)@.runnable.skip(1),
                        ..old(self)@
                    })
                    &&& final(self).prepared_for(id)
                },
                None => old(self)@.runnable.len() == 0 && final(self)@ == old(self)@,
            },
    {
        match self.queue.dequeue() {
            Some(id) => {
                proof {
                    lemma_dequeued_wf(old(self)@);
                }
                self.cx.waker = Waker::new(id);
                self.cx.now = self.now;
                self.cx.woken = Vec::new();
                Some(id)
            },
            None => None,
        }
    }

    /// Takes in what the poll of `id` answered and asked for.
    ///
    /// The answer is recorded as [`Executor::settle`] says. Then the wakes
    /// that the poll collected in its context are delivered, in order, as by
    /// [`Executor::wake`].
    pub fn finish_poll(&mut self, id: TaskId, result: PollResult<T::Output, T::Error>)
        requires
            old(self).wf(),
        ensures
            final(self).wf(),
            final(self)@ == old(self)@.settled(id, result).woken_each(old(self).context().woken@),
    {
        let mut wakes: Vec<Waker> = Vec::new();
        core::mem::swap(&mut self.cx.woken, &mut wakes);
        self.settle(id, result);
        self.wake_all(&wakes);
    }

    /// Polls the task at the front of the run queue once.
    ///
    /// Returns `None`, and changes nothing, exactly when nothing is runnable.
    /// Otherwise the task is taken from the queue as by
    /// [`Executor::begin_poll`], polled on the context made ready for it, and
    /// what it answered and asked for is taken in as by
    /// [`Executor::finish_poll`]. The identity of the polled task is
    /// returned.
    pub fn poll_next(&mut self) -> (polled: Option<TaskId>)
        requires
            old(self).wf(),
        ensures
            final(self).wf(),
            match polled {
                Some(id) => old(self)@.polls_to(final(self)@, id) && old(self)@.after_poll(
                    final(self)@,
                    id,
                ),
                None => old(self)@.runnable.len() == 0 && final(self)@ == old(self)@,
            },
    {
        let id = match self.begin_poll() {
            Some(id) => id,
            None => {
                return None;
            },
        };
        let ghost v1 = self@;
        let idx = match self.position(id) {
            Some(idx) => idx,
            None => {
                // What was queued is in the table, so this is never reached.
                return Some(id);
            },
        };
        let ghost before = self.cx;
        let entry = &mut self.tasks[idx];
        let result = entry.1.poll(&mut self.cx);
        let ghost answer = result;
        let ghost v2 = self@;
        let ghost then = self.cx;
        let ghost wakes = self.cx.woken@;
        proof {
            assert(v2.tasks.len() == v1.tasks.len());
            assert forall|i: int| 0 <= i < v1.tasks.len() implies v2.tasks[i].0
                == v1.tasks[i].0 by {}
            assert(v2.live() =~= v1.live());
            lemma_wf_same_ids(v1, v2);
            assert(v2.live()[idx as int] == id);
            lemma_without_absent(v2.runnable, id);
            match answer {
                PollResult::Pending => {},
                PollResult::Ready(value) => {
                    lemma_retired_wf(v2, id, Outcome::Completed(value));
                },
                PollResult::Failed(error) => {
                    lemma_retired_wf(v2, id, Outcome::Failed(error));
                },
            }
            lemma_woken_each_wf(v2.settled(id, answer), wakes);
        }
        self.finish_poll(id, result);
        proof {
            let v0 = old(self)@;
            let v3 = v2.settled(id, answer);
            let v4 = self@;
            let body = v2.tasks[idx as int].1;
            assert(v0.hands(id, before));
            assert(v0.tasks[idx as int].1.polled(&body, before, then, answer));
            assert(v2.tasks =~= v0.tasks.update(idx as int, (v0.tasks[idx as int].0, body)));
            assert(v2 == v0.resumed(idx as int, body, then));
            assert(v4 == v0.resumed(idx as int, body, then).settled(id, answer).woken_each(
                then.woken@,
            ));
            assert(v3.runnable == v0.runnable.skip(1));
            assert(v4.runnable.take(v0.runnable.len() - 1) == v0.runnable.skip(1));
            assert forall|i: int| 0 <= i < v0.tasks.len() && v0.tasks[i].0 != id implies v4.tasks.contains(
                #[trigger] v0.tasks[i],
            ) by {
                assert(i != idx);
                assert(v2.tasks[i] == v0.tasks[i]);
                match answer {
                    PollResult::Pending => {
                        assert(v4.tasks[i] == v0.tasks[i]);
                    },
                    _ => {
                        assert forall|j: int|
                            0 <= j < v2.tasks.len() && j != idx implies not_entry_of::<T>(id)(
                            v2.tasks[j],
                        ) by {
                            assert(v2.live()[j] == v2.tasks[j].0);
                            assert(v2.live()[idx as int] != v2.live()[j]);
                        }
                        lemma_filter_removes_one(v2.tasks, not_entry_of::<T>(id), idx as int);
                        let i2 = if i < idx {
                            i
                        } else {
                            i - 1
                        };
                        assert(v4.tasks[i2] == v0.tasks[i]);
                    },
                }
            }
            match answer {
                PollResult::Pending => {},
                PollResult::Ready(value) => {
                    assert(v4.finished == v0.finished.push(record(id, Outcome::Completed(value))));
                },
                PollResult::Failed(error) => {
                    assert(v4.finished == v0.finished.push(record(id, Outcome::Failed(error))));
                },
            }
        }
        Some(id)
    }

    /// Takes in what a wait on the reactor gave: the time `now` at which it
    /// returned and the `events` it saw.
    ///
    /// The clock moves to `now` unless it is ahead of it already. The timers
    /// that are due then fire, earliest first; then each event fires the waker
    /// that is bound to its token, if there is one. Every fired waker is
    /// delivered as by [`Executor::wake`].
    pub fn deliver(&mut self, now: u64, events: &Vec<ReadinessEvent>)
        requires
            old(self).wf(),
        ensures
            final(self).wf(),
            final(self)@ == old(self)@.delivered(now, events@),
    {
        if now > self.now {
            self.now = now;
        }
        let time: u64 = self.now;
        let due = self.cx.timers.expire(time);
        let fired = self.cx.reactor.dispatch(events);
        proof {
            lemma_wf_frame(old(self)@, self@);
            lemma_woken_each_wf(self@, due@);
        }
        self.wake_all(&due);
        self.wake_all(&fired);
    }

    /// Takes in that the multiplexer refused to watch the registration of
    /// `token`.
    ///
    /// The task whose waker is bound under the token, if it is in the table,
    /// is retired with the outcome `Rejected(error)`; its identity is
    /// returned. No other task is touched. A refusal for a token that is not
    /// registered, has no waker, or whose waker belongs to no task of the
    /// table changes nothing.
    pub fn reject(&mut self, token: Token, error: ReactorError) -> (failed: Option<TaskId>)
        requires
            old(self).wf(),
        ensures
            final(self).wf(),
            final(self)@ == old(self)@.rejected(token, error),
            failed == match holder_of(old(self)@.registrations, token) {
                Some(waker) => if old(self)@.live().contains(waker.task) {
                    Some(waker.task)
                } else {
                    None
                },
                None => None,
            },
    {
        match self.cx.reactor.holder(token) {
            Some(waker) => {
                match self.position(waker.task) {
                    Some(i) => {
                        assert(self@.live()[i as int] == waker.task);
                        let id = self.retire(i, Outcome::Rejected(error));
                        Some(id)
                    },
                    None => None,
                }
            },
            None => None,
        }
    }

    /// Takes in one refusal for each of `tokens`, in order, as by
    /// [`Executor::reject`].
    pub fn reject_all(&mut self, tokens: &Vec<Token>, error: ReactorError)
        requires
            old(self).wf(),
        ensures
            final(self).wf(),
            final(self)@ == old(self)@.rejected_each(tokens@, error),
    {
        let n: usize = tokens.len();
        let mut i: usize = 0;
        proof {
            assert(tokens@.take(0) =~= Seq::<Token>::empty());
        }
        while i < n
            invariant
                n == tokens@.len(),
                i <= n,
                self.wf(),
                self@ == old(self)@.rejected_each(tokens@.take(i as int), error),
            decreases n - i,
        {
            proof {
                assert(tokens@.take(i + 1).drop_last() =~= tokens@.take(i as int));
                assert(tokens@.take(i + 1).last() == tokens@[i as int]);
            }
            let _ = self.reject(tokens[i], error);
            i += 1;
        }
        proof {
            assert(tokens@.take(n as int) =~= tokens@);
        }
    }

    /// Ends the registration of `token` in the reactor, for a resource
    /// that its owner is about to close.
    ///
    /// Fails, and changes nothing, exactly when `token` is not registered.
    pub fn deregister(&mut self, token: Token) -> (r: Result<(), ReactorError>)
        requires
            old(self).wf(),
        ensures
            final(self).wf(),
            !has_token(final(self)@.registrations, token),
            match r {
                Ok(_) => exists|i: int|
                    0 <= i < old(self)@.registrations.len() && old(self)@.registrations[i].token
                        == token && final(self)@ == (ExecutorView {
                        registrations: old(self)@.registrations.remove(i),
                        ..old(self)@
                    }),
                Err(e) => e == ReactorError::UnknownToken && !has_token(
                    old(self)@.registrations,
                    token,
                ) && final(self)@ == old(self)@,
            },
    {
        let r = self.cx.reactor.deregister(token);
        proof {
            lemma_wf_frame(old(self)@, self@);
            if r.is_ok() {
                let before = old(self)@.registrations;
                let i = choose|i: int|
                    0 <= i < before.len() && before[i].token == token && self@.registrations
                        == before.remove(i);
                assert(self@ == (ExecutorView { registrations: before.remove(i), ..old(self)@ }));
            }
        }
        r
    }

    /// What the run loop has to do next.
    ///
    /// While something is runnable, that is to poll the task at the front of
    /// the queue. With nothing runnable and the table empty the run is over.
    /// Otherwise it is to wait: until the earliest timer is due, or without
    /// limit where no timer is pending.
    pub fn next_step(&self) -> (step: Step)
        ensures
            step == self@.step(),
    {
        match self.queue.front() {
            Some(id) => Step::Poll(id),
            None => {
                if self.tasks.len() == 0 {
                    Step::Terminated
                } else {
                    match self.cx.timers.next_deadline() {
                        Some(deadline) => {
                            let left: u64 = if deadline >= self.now {
                                deadline - self.now
                            } else {
                                0
                            };
                            Step::Wait(Some(left))
                        },
                        None => Step::Wait(None),
                    }
                }
            },
        }
    }

    /// Runs the loop: polls what is runnable, front of the queue first, and
    /// waits on `driver` when nothing is, until no task is left.
    ///
    /// Each turn is one poll or one wait with the delivery of what it gave.
    /// The run ends with `Complete` when no task is left, with `OutOfBudget`
    /// when `budget` turns are used up and a task is left, and with
    /// `WaitFailed` when a wait of the driver returned an error: the error is
    /// handed on and the executor is as it was before that wait. When the run
    /// is `Complete`, every task that was ever submitted has exactly one
    /// recorded outcome.
    pub fn run_until_complete<D: Driver>(&mut self, driver: &mut D, budget: u64) -> (status:
        RunStatus)
        requires
            old(self).wf(),
        ensures
            final(self).wf(),
            run_ends(old(self)@, *old(driver), final(self)@, *final(driver), budget, status),
            old(self)@.ran_to(final(self)@),
            status is Complete <==> final(self)@.tasks.len() == 0,
            status is Complete ==> final(self)@.finished.len() == final(self)@.issued && forall|
                raw: u64,
            |
                raw < final(self)@.issued ==> final(self)@.finished_ids().contains(TaskId { raw }),
            status is WaitFailed ==> final(self)@.step() is Wait,
    {
        let mut turns: u64 = 0;
        proof {
            lemma_ran_to_self(self@);
        }
        while turns < budget
            invariant
                turns <= budget,
                self.wf(),
                old(self)@.ran_to(self@),
                runs_in(old(self)@, *old(driver), self@, *driver, turns as nat),
            decreases budget - turns,
        {
            let ghost before = self@;
            let ghost waiting = *driver;
            match self.next_step() {
                Step::Terminated => {
                    proof {
                        lemma_complete_accounts_for_all(self@);
                    }
                    return RunStatus::Complete;
                },
                Step::Poll(_) => {
                    let polled = self.poll_next();
                    proof {
                        lemma_poll_runs(before, self@, polled.unwrap());
                        assert(turn(before, waiting, self@, *driver));
                    }
                },
                Step::Wait(timeout) => {
                    let watched = self.cx.reactor.armed();
                    match driver.wait(&watched, timeout) {
                        Ok(wakeup) => {
                            proof {
                                lemma_delivery_runs(before, wakeup.now, wakeup.events@);
                            }
                            self.deliver(wakeup.now, &wakeup.events);
                            let ghost delivered = self@;
                            proof {
                                lemma_rejected_each_runs(
                                    delivered,
                                    wakeup.refused@,
                                    ReactorError::RegistrationRefused,
                                );
                                lemma_ran_to_chain(
                                    before,
                                    delivered,
                                    delivered.rejected_each(
                                        wakeup.refused@,
                                        ReactorError::RegistrationRefused,
                                    ),
                                );
                            }
                            self.reject_all(&wakeup.refused, ReactorError::RegistrationRefused);
                            proof {
                                assert(waiting.waited(
                                    &*driver,
                                    armed_of(before.registrations),
                                    timeout,
                                    Ok(wakeup),
                                ));
                                assert(turn(before, waiting, self@, *driver));
                            }
                        },
                        Err(e) => {
                            proof {
                                assert(waiting.waited(
                                    &*driver,
                                    armed_of(before.registrations),
                                    timeout,
                                    Err(e),
                                ));
                            }
                            return RunStatus::WaitFailed(e);
                        },
                    }
                },
            }
            proof {
                lemma_ran_to_chain(old(self)@, before, self@);
            }
            turns += 1;
        }
        if self.tasks.len() == 0 {
            proof {
                lemma_complete_accounts_for_all(self@);
                if self@.runnable.len() > 0 {
                    assert(self@.live().contains(self@.runnable[0]));
                }
            }
            RunStatus::Complete
        } else {
            RunStatus::OutOfBudget
        }
    }

    /// The current time in milliseconds.
    pub fn now(&self) -> (now: u64)
        ensures
            now == self@.now,
    {
        self.now
    }

    /// The number of tasks in the table.
    pub fn len(&self) -> (n: usize)
        ensures
            n == self@.tasks.len(),
    {
        self.tasks.len()
    }

    /// Whether the table is empty.
    pub fn is_empty(&self) -> (b: bool)
        ensures
            b == (self@.tasks.len() == 0),
    {
        self.tasks.len() == 0
    }

    /// The number of runnable tasks.
    pub fn runnable_len(&self) -> (n: usize)
        ensures
            n == self@.runnable.len(),
    {
        self.queue.len()
    }

    /// Whether the task `id` is in the table.
    pub fn is_live(&self, id: TaskId) -> (b: bool)
        ensures
            b == self@.live().contains(id),
    {
        match self.position(id) {
            Some(i) => {
                assert(self@.live()[i as int] == id);
                true
            },
            None => false,
        }
    }

    /// Whether the task `id` is in the run queue.
    pub fn is_runnable(&self, id: TaskId) -> (b: bool)
        ensures
            b == self@.runnable.contains(id),
    {
        self.queue.contains(id)
    }

    /// The lifecycle state of the task `id`, or `None` where no such task
    /// was ever submitted.
    pub fn state_of(&self, id: TaskId) -> (state: Option<TaskState>)
        requires
            self.wf(),
        ensures
            state == self@.state_of(id),
    {
        if self.queue.contains(id) {
            return Some(TaskState::Runnable);
        }
        if self.is_live(id) {
            return Some(TaskState::Suspended);
        }
        let n: usize = self.finished.len();
        let mut i: usize = 0;
        while i < n
            invariant
                n == self.finished@.len(),
                i <= n,
                self.wf(),
                !self@.runnable.contains(id),
                !self@.live().contains(id),
                forall|j: int| 0 <= j < i ==> self@.finished_ids()[j] != id,
            decreases n - i,
        {
            if self.finished[i].id == id {
                proof {
                    let ids = self@.finished_ids();
                    assert(ids[i as int] == id);
                    let k = ids.index_of(id);
                    assert(0 <= k < ids.len() && ids[k] == id);
                    assert(k == i);
                }
                return Some(self.finished[i].outcome.state());
            }
            i += 1;
        }
        None
    }

    /// The tasks that have left the table, with their outcomes, in the order
    /// in which they left.
    pub fn outcomes(&self) -> (list: &Vec<Finished<T::Output, T::Error>>)
        ensures
            list@ == self@.finished,
    {
        &self.finished
    }

    /// The reactor's table.
    pub fn reactor(&self) -> (reactor: &Reactor)
        ensures
            reactor@ == self@.registrations,
            reactor.issued() == self@.tokens_issued,
    {
        &self.cx.reactor
    }

    /// The pending timers.
    pub fn timers(&self) -> (timers: &TimerSource)
        ensures
            timers@ == self@.timers,
    {
        &self.cx.timers
    }
}

} // verus!
