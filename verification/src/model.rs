//! The executor's state as a mathematical value, and its transitions.
//!
//! Every operation of [`crate::executor::Executor`] is specified as one of the
//! transitions below on an [`ExecutorView`].

use vstd::prelude::*;
use crate::driver::Driver;
use crate::driver::Wakeup;
use crate::ids::TaskId;
use crate::ids::Token;
use crate::interest::ReadinessEvent;
use crate::outcome::Outcome;
use crate::outcome::PollResult;
use crate::reactor::after_events;
use crate::reactor::armed_of;
use crate::reactor::holder_of;
use crate::reactor::ReactorError;
use crate::reactor::released;
use crate::reactor::woken_by_all;
use crate::reactor::Registration;
use crate::run_queue::enqueued;
use crate::run_queue::other_than;
use crate::run_queue::lemma_without_absent;
use crate::run_queue::lemma_without_at;
use crate::run_queue::without;
use crate::seqs::lemma_filter_removes_one;
use crate::seqs::lemma_remove_distinct;
use crate::task::Context;
use crate::task::Task;
use crate::timer::count_until;
use crate::timer::unscheduled;
use crate::timer::wakers_of;
use crate::timer::Timer;
use crate::waker::Waker;

verus! {

/// A task that has left the table, with the way it left.
pub struct Finished<O, E> {
    pub id: TaskId,
    pub outcome: Outcome<O, E>,
}

/// What the run loop does next.
#[derive(Clone, Copy, Debug, PartialEq, Eq, Structural)]
pub enum Step {
    /// Poll the task of this identity, the one at the front of the run queue.
    Poll(TaskId),
    /// Nothing is runnable and tasks are left: wait for events, at most for
    /// the given number of milliseconds, or without limit for `None`.
    Wait(Option<u64>),
    /// No task is left.
    Terminated,
}

/// How a run of the loop ended.
#[derive(Clone, Copy, Debug, PartialEq, Eq, Structural)]
pub enum RunStatus {
    /// No task is left.
    Complete,
    /// The turns that the caller allowed are used up and tasks are left.
    OutOfBudget,
    /// Nothing is runnable, tasks are left, and the driver could not wait:
    /// the error is the one that its wait returned.
    WaitFailed(ReactorError),
}

/// The state of an executor.
pub struct ExecutorView<T: Task> {
    /// The tasks in the table with their identities, in order of submission.
    pub tasks: Seq<(TaskId, T)>,
    /// The run queue, front first.
    pub runnable: Seq<TaskId>,
    /// The tasks that have left the table, in the order in which they left.
    pub finished: Seq<Finished<T::Output, T::Error>>,
    /// How many task identities have been handed out.
    pub issued: nat,
    /// The current time in milliseconds.
    pub now: u64,
    /// The reactor's table.
    pub registrations: Seq<Registration>,
    /// How many tokens the reactor has handed out.
    pub tokens_issued: nat,
    /// The pending timers.
    pub timers: Seq<Timer>,
}

/// The record that `id` left the table with `outcome`.
pub open spec fn record<O, E>(id: TaskId, outcome: Outcome<O, E>) -> Finished<O, E> {
    Finished { id, outcome }
}

/// The later of two times.
pub open spec fn later(a: u64, b: u64) -> u64 {
    if a >= b {
        a
    } else {
        b
    }
}

/// The time left from `now` until `deadline`, 0 where it has passed.
pub open spec fn time_until(deadline: u64, now: u64) -> u64 {
    if deadline >= now {
        (deadline - now) as u64
    } else {
        0
    }
}

/// The identities of a list of table entries.
pub open spec fn ids_of<T>(tasks: Seq<(TaskId, T)>) -> Seq<TaskId> {
    tasks.map_values(|entry: (TaskId, T)| entry.0)
}

/// The test that every table entry but that of `id` passes.
pub open spec fn not_entry_of<T>(id: TaskId) -> spec_fn((TaskId, T)) -> bool {
    |entry: (TaskId, T)| entry.0 != id
}

/// The table without the entry of `id`.
pub open spec fn without_task<T>(tasks: Seq<(TaskId, T)>, id: TaskId) -> Seq<(TaskId, T)> {
    tasks.filter(not_entry_of(id))
}

impl<T: Task> ExecutorView<T> {
    /// The identities of the tasks in the table.
    pub open spec fn live(self) -> Seq<TaskId> {
        ids_of(self.tasks)
    }

    /// The identities of the tasks that have left the table.
    pub open spec fn finished_ids(self) -> Seq<TaskId> {
        self.finished.map_values(|f: Finished<T::Output, T::Error>| f.id)
    }

    /// Whether the task `id` was submitted and is in the table or has left it.
    pub open spec fn accounted(self, id: TaskId) -> bool {
        self.live().contains(id) || self.finished_ids().contains(id)
    }

    /// The lifecycle state of `id`, if it was ever submitted.
    pub open spec fn state_of(self, id: TaskId) -> Option<crate::outcome::TaskState> {
        if self.runnable.contains(id) {
            Some(crate::outcome::TaskState::Runnable)
        } else if self.live().contains(id) {
            Some(crate::outcome::TaskState::Suspended)
        } else if self.finished_ids().contains(id) {
            Some(self.finished[self.finished_ids().index_of(id)].outcome.spec_state())
        } else {
            None
        }
    }

    /// The invariant of an executor.
    ///
    /// No identity is used twice; what is queued is in the table; every
    /// identity handed out belongs to exactly one task, which is in the table
    /// or has exactly one recorded outcome.
    pub open spec fn wf(self) -> bool {
        &&& self.issued <= u64::MAX
        &&& self.live().no_duplicates()
        &&& self.runnable.no_duplicates()
        &&& forall|i: int|
            0 <= i < self.runnable.len() ==> self.live().contains(#[trigger] self.runnable[i])
        &&& forall|i: int| 0 <= i < self.tasks.len() ==> (#[trigger] self.tasks[i]).0.raw < self.issued
        &&& self.finished_ids().no_duplicates()
        &&& forall|i: int|
            0 <= i < self.finished.len() ==> (#[trigger] self.finished[i]).id.raw < self.issued
                && !self.live().contains(self.finished[i].id)
        &&& forall|raw: u64| raw < self.issued ==> #[trigger] self.accounted(TaskId { raw })
    }

    /// The state of a new executor.
    pub open spec fn empty() -> Self {
        ExecutorView {
            tasks: Seq::empty(),
            runnable: Seq::empty(),
            finished: Seq::empty(),
            issued: 0,
            now: 0,
            registrations: Seq::empty(),
            tokens_issued: 0,
            timers: Seq::empty(),
        }
    }

    /// The state after `task` was submitted: it is in the table under the
    /// next identity and queued at the back.
    pub open spec fn submitted(self, task: T) -> Self {
        let id = TaskId { raw: self.issued as u64 };
        ExecutorView {
            tasks: self.tasks.push((id, task)),
            runnable: self.runnable.push(id),
            issued: self.issued + 1,
            ..self
        }
    }

    /// The state after a wake of `id`: a task in the table is queued at the
    /// back unless it is queued already; any other wake changes nothing.
    pub open spec fn woken(self, id: TaskId) -> Self {
        if self.live().contains(id) {
            ExecutorView { runnable: enqueued(self.runnable, id), ..self }
        } else {
            self
        }
    }

    /// The state after one wake for each of `wakers`, in order.
    pub open spec fn woken_each(self, wakers: Seq<Waker>) -> Self
        decreases wakers.len(),
    {
        if wakers.len() == 0 {
            self
        } else {
            self.woken_each(wakers.drop_last()).woken(wakers.last().task)
        }
    }

    /// The state after the task `id` has left the table with `outcome`: its
    /// entry, its place in the queue, its timers and the registrations that
    /// hold its waker are gone, and the outcome is recorded last.
    pub open spec fn retired(self, id: TaskId, outcome: Outcome<T::Output, T::Error>) -> Self {
        ExecutorView {
            tasks: without_task(self.tasks, id),
            runnable: without(self.runnable, id),
            finished: self.finished.push(Finished { id, outcome }),
            registrations: released(self.registrations, id),
            timers: unscheduled(self.timers, id),
            ..self
        }
    }

    /// The state after a poll of `id` answered `result`: `Pending` changes
    /// nothing, a terminal answer retires the task. An answer for a task that
    /// is not in the table changes nothing.
    pub open spec fn settled(self, id: TaskId, result: PollResult<T::Output, T::Error>) -> Self {
        if !self.live().contains(id) {
            self
        } else {
            match result {
                PollResult::Pending => self,
                PollResult::Ready(value) => self.retired(id, Outcome::Completed(value)),
                PollResult::Failed(error) => self.retired(id, Outcome::Failed(error)),
            }
        }
    }

    /// The state after `id` was cancelled. Cancelling what is not in the
    /// table changes nothing.
    pub open spec fn cancelled(self, id: TaskId) -> Self {
        if self.live().contains(id) {
            self.retired(id, Outcome::Cancelled)
        } else {
            self
        }
    }

    /// The state after the reactor's wait returned at time `now` with
    /// `events`: the clock is advanced, never set back; the timers that are
    /// due then fire, earliest first; then the events fire their wakers.
    pub open spec fn delivered(self, now: u64, events: Seq<ReadinessEvent>) -> Self {
        let time = later(self.now, now);
        let due = count_until(self.timers, time) as int;
        let base = ExecutorView {
            now: time,
            timers: self.timers.skip(due),
            registrations: after_events(self.registrations, events),
            ..self
        };
        base.woken_each(wakers_of(self.timers.take(due))).woken_each(
            woken_by_all(self.registrations, events),
        )
    }

    /// Whether `cx` is the context that a poll of `id` sees in this state:
    /// its waker is bound to `id`, its time is the executor's, no wake is
    /// collected in it, and its reactor and timers are the executor's.
    pub open spec fn hands(self, id: TaskId, cx: Context) -> bool {
        &&& cx.waker == (Waker { task: id })
        &&& cx.now == self.now
        &&& cx.woken@ == Seq::<Waker>::empty()
        &&& cx.reactor@ == self.registrations
        &&& cx.reactor.issued() == self.tokens_issued
        &&& cx.timers@ == self.timers
    }

    /// The state at the moment at which the poll of the task at `idx`, taken
    /// from the front of the queue, has returned: the task is as the poll left
    /// it, and so are the reactor's table and the timers, which the poll
    /// reached through its context `then`.
    pub open spec fn resumed(self, idx: int, body: T, then: Context) -> Self {
        ExecutorView {
            tasks: self.tasks.update(idx, (self.tasks[idx].0, body)),
            runnable: self.runnable.skip(1),
            registrations: then.reactor@,
            tokens_issued: then.reactor.issued(),
            timers: then.timers@,
            ..self
        }
    }

    /// Whether `after` comes from this state by one poll of the task `id` at
    /// the front of the queue: the task was polled once on the context made
    /// for it, its answer was settled, and then the wakes that the poll
    /// collected were delivered in order.
    pub open spec fn polls_to(self, after: Self, id: TaskId) -> bool {
        &&& self.runnable.len() > 0
        &&& id == self.runnable[0]
        &&& exists|
            idx: int,
            body: T,
            before: Context,
            then: Context,
            answer: PollResult<T::Output, T::Error>,
        |
            {
                &&& 0 <= idx < self.tasks.len()
                &&& self.tasks[idx].0 == id
                &&& self.hands(id, before)
                &&& #[trigger] self.tasks[idx].1.polled(&body, before, then, answer)
                &&& after == self.resumed(idx, body, then).settled(id, answer).woken_each(
                    then.woken@,
                )
            }
    }

    /// What holds of the state `after` the task `id` at the front of the
    /// queue was polled once, whatever its poll did and answered.
    ///
    /// The clock and the count of identities are as before. The task either
    /// is still in the table, and nothing was recorded, or it has left the
    /// table and its outcome is the one recorded last. Every other task is in
    /// the table as it was. The tasks that were queued behind it are next in
    /// the queue, in their order; wakes asked for during the poll come behind
    /// them.
    pub open spec fn after_poll(self, after: Self, id: TaskId) -> bool {
        &&& self.runnable.len() > 0
        &&& id == self.runnable[0]
        &&& after.issued == self.issued
        &&& after.now == self.now
        &&& after.runnable.len() >= self.runnable.len() - 1
        &&& after.runnable.take(self.runnable.len() - 1) == self.runnable.skip(1)
        &&& {
            ||| after.live() == self.live() && after.finished == self.finished
            ||| exists|outcome: Outcome<T::Output, T::Error>|
                {
                    &&& !(outcome is Cancelled)
                    &&& after.live() == without(self.live(), id)
                    &&& after.finished == self.finished.push(#[trigger] record(id, outcome))
                }
        }
        &&& forall|i: int|
            0 <= i < self.tasks.len() && self.tasks[i].0 != id ==> after.tasks.contains(
                #[trigger] self.tasks[i],
            )
    }

    /// Whether `after` can come from this state by running: polling tasks
    /// and delivering events. No identity is handed out, the clock does not
    /// go back, no task enters the table, and the recorded outcomes stay as
    /// they are, with new ones behind them.
    pub open spec fn ran_to(self, after: Self) -> bool {
        &&& after.issued == self.issued
        &&& after.now >= self.now
        &&& after.finished.len() >= self.finished.len()
        &&& after.finished.take(self.finished.len() as int) == self.finished
        &&& forall|id: TaskId| after.live().contains(id) ==> self.live().contains(id)
    }

    /// The state after the multiplexer refused to watch the registration of
    /// `token`: the task whose waker is bound under the token, if it is in
    /// the table, is retired with the outcome `Rejected(error)`. No other
    /// task is touched, and a refusal for any other token changes nothing.
    pub open spec fn rejected(self, token: Token, error: ReactorError) -> Self {
        match holder_of(self.registrations, token) {
            Some(waker) => if self.live().contains(waker.task) {
                self.retired(waker.task, Outcome::Rejected(error))
            } else {
                self
            },
            None => self,
        }
    }

    /// The state after one refusal for each of `tokens`, in order.
    pub open spec fn rejected_each(self, tokens: Seq<Token>, error: ReactorError) -> Self
        decreases tokens.len(),
    {
        if tokens.len() == 0 {
            self
        } else {
            self.rejected_each(tokens.drop_last(), error).rejected(tokens.last(), error)
        }
    }

    /// What the run loop does next in this state.
    pub open spec fn step(self) -> Step {
        if self.runnable.len() > 0 {
            Step::Poll(self.runnable[0])
        } else if self.tasks.len() == 0 {
            Step::Terminated
        } else if self.timers.len() > 0 {
            Step::Wait(Some(time_until(self.timers[0].deadline, self.now)))
        } else {
            Step::Wait(None)
        }
    }
}

/// Submitting keeps the invariant as long as an identity is left; the new
/// task is in the table, runnable, and was never seen before.
pub proof fn lemma_submitted_wf<T: Task>(v: ExecutorView<T>, task: T)
    requires
        v.wf(),
        v.issued < u64::MAX,
    ensures
        v.submitted(task).wf(),
        !v.accounted(TaskId { raw: v.issued as u64 }),
        v.submitted(task).live() == v.live().push(TaskId { raw: v.issued as u64 }),
{
    let id = TaskId { raw: v.issued as u64 };
    let w = v.submitted(task);
    assert(w.live() =~= v.live().push(id));
    assert(!v.live().contains(id)) by {
        if v.live().contains(id) {
            let i = choose|i: int| 0 <= i < v.live().len() && v.live()[i] == id;
            assert(v.tasks[i].0.raw < v.issued);
        }
    }
    assert(!v.runnable.contains(id)) by {
        if v.runnable.contains(id) {
            let i = choose|i: int| 0 <= i < v.runnable.len() && v.runnable[i] == id;
            assert(v.live().contains(v.runnable[i]));
        }
    }
    assert(!v.finished_ids().contains(id)) by {
        if v.finished_ids().contains(id) {
            let i = choose|i: int| 0 <= i < v.finished_ids().len() && v.finished_ids()[i] == id;
            assert(v.finished[i].id.raw < v.issued);
        }
    }
    assert forall|i: int| 0 <= i < w.runnable.len() implies w.live().contains(
        #[trigger] w.runnable[i],
    ) by {
        if i < v.runnable.len() {
            let x = v.runnable[i];
            assert(v.live().contains(x));
            let j = choose|j: int| 0 <= j < v.live().len() && v.live()[j] == x;
            assert(w.live()[j] == x);
        } else {
            assert(w.live()[v.live().len() as int] == id);
        }
    }
    assert forall|i: int| 0 <= i < w.finished.len() implies !w.live().contains(
        (#[trigger] w.finished[i]).id,
    ) by {
        let x = w.finished[i].id;
        assert(v.finished_ids()[i] == x);
        assert(!v.live().contains(x));
    }
    assert forall|raw: u64| raw < w.issued implies #[trigger] w.accounted(TaskId { raw }) by {
        let x = TaskId { raw };
        if raw < v.issued {
            assert(v.accounted(x));
            if v.live().contains(x) {
                let j = choose|j: int| 0 <= j < v.live().len() && v.live()[j] == x;
                assert(w.live()[j] == x);
            }
        } else {
            assert(w.live()[v.live().len() as int] == x);
        }
    }
}

/// The invariant speaks of the table, the queue, the outcomes and the count of
/// identities only.
pub proof fn lemma_wf_frame<T: Task>(v: ExecutorView<T>, w: ExecutorView<T>)
    requires
        v.wf(),
        w.tasks == v.tasks,
        w.runnable == v.runnable,
        w.finished == v.finished,
        w.issued == v.issued,
    ensures
        w.wf(),
{
    assert forall|raw: u64| raw < w.issued implies #[trigger] w.accounted(TaskId { raw }) by {
        assert(v.accounted(TaskId { raw }));
    }
}

/// Taking the front of the queue keeps the invariant.
pub proof fn lemma_dequeued_wf<T: Task>(v: ExecutorView<T>)
    requires
        v.wf(),
        v.runnable.len() > 0,
    ensures
        (ExecutorView { runnable: v.runnable.skip(1), ..v }).wf(),
        v.live().contains(v.runnable[0]),
        !v.runnable.skip(1).contains(v.runnable[0]),
{
    let w = ExecutorView { runnable: v.runnable.skip(1), ..v };
    assert forall|i: int| 0 <= i < w.runnable.len() implies w.live().contains(
        #[trigger] w.runnable[i],
    ) by {
        assert(w.runnable[i] == v.runnable[i + 1]);
    }
    assert forall|raw: u64| raw < w.issued implies #[trigger] w.accounted(TaskId { raw }) by {
        assert(v.accounted(TaskId { raw }));
    }
    if v.runnable.skip(1).contains(v.runnable[0]) {
        let j = choose|j: int| 0 <= j < v.runnable.skip(1).len() && v.runnable.skip(1)[j] == v.runnable[0];
        assert(v.runnable[j + 1] == v.runnable[0]);
    }
}

/// The invariant does not depend on what the tasks hold, only on their
/// identities.
pub proof fn lemma_wf_same_ids<T: Task>(v: ExecutorView<T>, w: ExecutorView<T>)
    requires
        v.wf(),
        w.live() == v.live(),
        w.runnable == v.runnable,
        w.finished == v.finished,
        w.issued == v.issued,
    ensures
        w.wf(),
{
    assert(ids_of(w.tasks).len() == w.tasks.len());
    assert(ids_of(v.tasks).len() == v.tasks.len());
    assert forall|i: int| 0 <= i < w.tasks.len() implies (#[trigger] w.tasks[i]).0.raw
        < w.issued by {
        assert(ids_of(w.tasks)[i] == w.tasks[i].0);
        assert(ids_of(v.tasks)[i] == v.tasks[i].0);
        assert(v.tasks[i].0.raw < v.issued);
    }
    assert forall|raw: u64| raw < w.issued implies #[trigger] w.accounted(TaskId { raw }) by {
        assert(v.accounted(TaskId { raw }));
    }
}

/// A wake keeps the invariant and touches nothing but the run queue.
pub proof fn lemma_woken_wf<T: Task>(v: ExecutorView<T>, id: TaskId)
    requires
        v.wf(),
    ensures
        v.woken(id).wf(),
        v.woken(id) == (ExecutorView { runnable: v.woken(id).runnable, ..v }),
        forall|x: TaskId| v.runnable.contains(x) ==> v.woken(id).runnable.contains(x),
{
    let w = v.woken(id);
    if v.live().contains(id) && !v.runnable.contains(id) {
        assert forall|x: TaskId| v.runnable.contains(x) implies w.runnable.contains(x) by {
            let j = choose|j: int| 0 <= j < v.runnable.len() && v.runnable[j] == x;
            assert(w.runnable[j] == x);
        }
        assert(w.runnable.no_duplicates()) by {
            assert forall|a: int, b: int|
                0 <= a < w.runnable.len() && 0 <= b < w.runnable.len() && a != b implies w.runnable[a]
                    != w.runnable[b] by {
                if a < v.runnable.len() && b < v.runnable.len() {
                    assert(v.runnable[a] != v.runnable[b]);
                } else if a < v.runnable.len() {
                    assert(v.runnable.contains(v.runnable[a]));
                } else {
                    assert(v.runnable.contains(v.runnable[b]));
                }
            }
        }
        assert forall|i: int| 0 <= i < w.runnable.len() implies w.live().contains(
            #[trigger] w.runnable[i],
        ) by {
            if i < v.runnable.len() {
                assert(w.runnable[i] == v.runnable[i]);
            }
        }
        assert forall|raw: u64| raw < w.issued implies #[trigger] w.accounted(TaskId { raw }) by {
            assert(v.accounted(TaskId { raw }));
        }
    }
}

/// A run of wakes keeps the invariant and touches nothing but the run queue,
/// of which the old queue stays the front part.
pub proof fn lemma_woken_each_wf<T: Task>(v: ExecutorView<T>, wakers: Seq<Waker>)
    requires
        v.wf(),
    ensures
        v.woken_each(wakers).wf(),
        v.woken_each(wakers) == (ExecutorView { runnable: v.woken_each(wakers).runnable, ..v }),
        v.runnable.len() <= v.woken_each(wakers).runnable.len(),
        v.woken_each(wakers).runnable.take(v.runnable.len() as int) == v.runnable,
    decreases wakers.len(),
{
    if wakers.len() == 0 {
        assert(v.runnable.take(v.runnable.len() as int) =~= v.runnable);
    } else {
        let mid = v.woken_each(wakers.drop_last());
        lemma_woken_each_wf(v, wakers.drop_last());
        lemma_woken_wf(mid, wakers.last().task);
        let w = mid.woken(wakers.last().task);
        assert(w.runnable.take(v.runnable.len() as int) =~= mid.runnable.take(
            v.runnable.len() as int,
        ));
    }
}

/// Retiring a task of the table keeps the invariant: the task is gone from
/// table and queue, every other task keeps its place, and its outcome is the
/// one recorded last.
pub proof fn lemma_retired_wf<T: Task>(
    v: ExecutorView<T>,
    id: TaskId,
    outcome: Outcome<T::Output, T::Error>,
)
    requires
        v.wf(),
        v.live().contains(id),
    ensures
        v.retired(id, outcome).wf(),
        v.retired(id, outcome).tasks.len() == v.tasks.len() - 1,
        v.retired(id, outcome).live() == without(v.live(), id),
        !v.retired(id, outcome).live().contains(id),
        !v.retired(id, outcome).runnable.contains(id),
        forall|x: TaskId|
            x != id ==> (v.retired(id, outcome).live().contains(x) <==> v.live().contains(x)),
        forall|x: TaskId|
            x != id ==> (v.retired(id, outcome).runnable.contains(x) <==> v.runnable.contains(x)),
        v.retired(id, outcome).finished_ids() == v.finished_ids().push(id),
{
    let w = v.retired(id, outcome);
    let i = choose|i: int| 0 <= i < v.live().len() && v.live()[i] == id;
    assert(v.tasks[i].0 == id);
    assert forall|j: int| 0 <= j < v.tasks.len() && j != i implies not_entry_of::<T>(id)(
        v.tasks[j],
    ) by {
        assert(v.live()[j] == v.tasks[j].0);
        assert(v.live()[i] != v.live()[j]);
    }
    lemma_filter_removes_one(v.tasks, not_entry_of::<T>(id), i);
    assert(w.tasks == v.tasks.remove(i));
    assert(w.live() =~= v.live().remove(i));
    lemma_remove_distinct(v.live(), i);
    lemma_without_at(v.live(), id, i);
    if v.runnable.contains(id) {
        let j = choose|j: int| 0 <= j < v.runnable.len() && v.runnable[j] == id;
        lemma_without_at(v.runnable, id, j);
        lemma_remove_distinct(v.runnable, j);
    } else {
        lemma_without_absent(v.runnable, id);
    }
    assert forall|k: int| 0 <= k < w.runnable.len() implies w.live().contains(
        #[trigger] w.runnable[k],
    ) by {
        let x = w.runnable[k];
        assert(w.runnable.contains(x));
        assert(x != id);
        assert(v.runnable.contains(x));
        let j = choose|j: int| 0 <= j < v.runnable.len() && v.runnable[j] == x;
        assert(v.live().contains(v.runnable[j]));
    }
    assert forall|k: int| 0 <= k < w.tasks.len() implies (#[trigger] w.tasks[k]).0.raw
        < w.issued by {
        let k2 = if k < i {
            k
        } else {
            k + 1
        };
        assert(w.tasks[k] == v.tasks[k2]);
    }
    assert(w.finished_ids() =~= v.finished_ids().push(id));
    assert(!v.finished_ids().contains(id)) by {
        if v.finished_ids().contains(id) {
            let k = choose|k: int| 0 <= k < v.finished_ids().len() && v.finished_ids()[k] == id;
            assert(!v.live().contains(v.finished[k].id));
        }
    }
    assert(w.finished_ids().no_duplicates()) by {
        assert forall|a: int, b: int|
            0 <= a < w.finished_ids().len() && 0 <= b < w.finished_ids().len() && a
                != b implies w.finished_ids()[a] != w.finished_ids()[b] by {
            if a < v.finished_ids().len() && b < v.finished_ids().len() {
                assert(v.finished_ids()[a] != v.finished_ids()[b]);
            } else if a < v.finished_ids().len() {
                assert(v.finished_ids().contains(v.finished_ids()[a]));
            } else {
                assert(v.finished_ids().contains(v.finished_ids()[b]));
            }
        }
    }
    assert forall|k: int| 0 <= k < w.finished.len() implies (#[trigger] w.finished[k]).id.raw
        < w.issued && !w.live().contains(w.finished[k].id) by {
        if k < v.finished.len() {
            assert(w.finished[k] == v.finished[k]);
            assert(!v.live().contains(v.finished[k].id));
        } else {
            assert(w.finished[k].id == id);
            assert(v.tasks[i].0.raw < v.issued);
        }
    }
    assert forall|raw: u64| raw < w.issued implies #[trigger] w.accounted(TaskId { raw }) by {
        let x = TaskId { raw };
        assert(v.accounted(x));
        if x == id {
            assert(w.finished_ids()[v.finished_ids().len() as int] == id);
        } else if v.finished_ids().contains(x) {
            let k = choose|k: int| 0 <= k < v.finished_ids().len() && v.finished_ids()[k] == x;
            assert(w.finished_ids()[k] == x);
        }
    }
}

/// A delivery keeps the invariant. It changes neither the table nor the
/// recorded outcomes, and the old queue stays the front part of the new one.
pub proof fn lemma_delivered_wf<T: Task>(v: ExecutorView<T>, now: u64, events: Seq<ReadinessEvent>)
    requires
        v.wf(),
    ensures
        v.delivered(now, events).wf(),
        v.delivered(now, events).tasks == v.tasks,
        v.delivered(now, events).finished == v.finished,
        v.delivered(now, events).issued == v.issued,
        v.delivered(now, events).now == later(v.now, now),
        v.delivered(now, events).runnable.take(v.runnable.len() as int) == v.runnable,
{
    let time = later(v.now, now);
    let due = count_until(v.timers, time) as int;
    let base = ExecutorView {
        now: time,
        timers: v.timers.skip(due),
        registrations: after_events(v.registrations, events),
        ..v
    };
    lemma_wf_frame(v, base);
    let first = wakers_of(v.timers.take(due));
    lemma_woken_each_wf(base, first);
    let mid = base.woken_each(first);
    lemma_woken_each_wf(mid, woken_by_all(v.registrations, events));
    let w = mid.woken_each(woken_by_all(v.registrations, events));
    assert(w.runnable.take(v.runnable.len() as int) =~= mid.runnable.take(v.runnable.len() as int));
}

/// Every state can come from itself by running.
pub proof fn lemma_ran_to_self<T: Task>(a: ExecutorView<T>)
    ensures
        a.ran_to(a),
{
    assert(a.finished.take(a.finished.len() as int) =~= a.finished);
}

/// Retiring a task of the table is a step of running.
pub proof fn lemma_retire_runs<T: Task>(
    v: ExecutorView<T>,
    id: TaskId,
    outcome: Outcome<T::Output, T::Error>,
)
    requires
        v.wf(),
        v.live().contains(id),
    ensures
        v.retired(id, outcome).wf(),
        v.ran_to(v.retired(id, outcome)),
{
    lemma_retired_wf(v, id, outcome);
    let w = v.retired(id, outcome);
    assert(w.finished.take(v.finished.len() as int) =~= v.finished);
    assert forall|x: TaskId| w.live().contains(x) implies v.live().contains(x) by {
        if x == id {
        }
    }
}

/// A run of refusals keeps the invariant and is a step of running.
pub proof fn lemma_rejected_each_runs<T: Task>(
    v: ExecutorView<T>,
    tokens: Seq<Token>,
    error: ReactorError,
)
    requires
        v.wf(),
    ensures
        v.rejected_each(tokens, error).wf(),
        v.ran_to(v.rejected_each(tokens, error)),
    decreases tokens.len(),
{
    if tokens.len() == 0 {
        lemma_ran_to_self(v);
    } else {
        let mid = v.rejected_each(tokens.drop_last(), error);
        lemma_rejected_each_runs(v, tokens.drop_last(), error);
        let last = mid.rejected(tokens.last(), error);
        match holder_of(mid.registrations, tokens.last()) {
            Some(waker) => {
                if mid.live().contains(waker.task) {
                    lemma_retire_runs(mid, waker.task, Outcome::Rejected(error));
                } else {
                    lemma_ran_to_self(mid);
                }
            },
            None => {
                lemma_ran_to_self(mid);
            },
        }
        lemma_ran_to_chain(v, mid, last);
    }
}

/// Running is transitive.
pub proof fn lemma_ran_to_chain<T: Task>(a: ExecutorView<T>, b: ExecutorView<T>, c: ExecutorView<T>)
    requires
        a.ran_to(b),
        b.ran_to(c),
    ensures
        a.ran_to(c),
{
    assert(c.finished.take(a.finished.len() as int) =~= b.finished.take(a.finished.len() as int));
}

/// A poll is a step of running.
pub proof fn lemma_poll_runs<T: Task>(v: ExecutorView<T>, after: ExecutorView<T>, id: TaskId)
    requires
        v.wf(),
        v.after_poll(after, id),
    ensures
        v.ran_to(after),
{
    if after.live() == v.live() && after.finished == v.finished {
        assert(after.finished.take(v.finished.len() as int) =~= v.finished);
    } else {
        let outcome = choose|outcome: Outcome<T::Output, T::Error>|
            {
                &&& !(outcome is Cancelled)
                &&& after.live() == without(v.live(), id)
                &&& after.finished == v.finished.push(#[trigger] record(id, outcome))
            };
        assert(after.finished.take(v.finished.len() as int) =~= v.finished);
        assert forall|x: TaskId| after.live().contains(x) implies v.live().contains(x) by {
            v.live().lemma_filter_contains_rev(other_than(id), x);
        }
    }
}

/// A delivery is a step of running.
pub proof fn lemma_delivery_runs<T: Task>(v: ExecutorView<T>, now: u64, events: Seq<ReadinessEvent>)
    requires
        v.wf(),
    ensures
        v.ran_to(v.delivered(now, events)),
{
    lemma_delivered_wf(v, now, events);
    assert(v.finished.take(v.finished.len() as int) =~= v.finished);
}

/// When the table is empty, every task that was ever submitted has exactly
/// one recorded outcome.
pub proof fn lemma_complete_accounts_for_all<T: Task>(v: ExecutorView<T>)
    requires
        v.wf(),
        v.tasks.len() == 0,
    ensures
        v.finished_ids().no_duplicates(),
        v.finished.len() == v.issued,
        forall|raw: u64| raw < v.issued ==> v.finished_ids().contains(TaskId { raw }),
        forall|i: int| 0 <= i < v.finished.len() ==> (#[trigger] v.finished[i]).id.raw < v.issued,
{
    assert forall|raw: u64| raw < v.issued implies v.finished_ids().contains(TaskId { raw }) by {
        assert(v.accounted(TaskId { raw }));
    }
    lemma_distinct_below_count(v.finished_ids(), v.issued);
}

/// A list of distinct identities that holds exactly the numbers below `n` has
/// length `n`.
pub proof fn lemma_distinct_below_count(ids: Seq<TaskId>, n: nat)
    requires
        ids.no_duplicates(),
        n <= u64::MAX,
        forall|i: int| 0 <= i < ids.len() ==> (#[trigger] ids[i]).raw < n,
        forall|raw: u64| raw < n ==> ids.contains(TaskId { raw }),
    ensures
        ids.len() == n,
    decreases n,
{
    if n == 0 {
        if ids.len() > 0 {
            assert(ids[0].raw < n);
        }
    } else {
        let top = TaskId { raw: (n - 1) as u64 };
        assert(ids.contains(top));
        let i = choose|i: int| 0 <= i < ids.len() && ids[i] == top;
        let rest = ids.remove(i);
        lemma_remove_distinct(ids, i);
        assert forall|k: int| 0 <= k < rest.len() implies (#[trigger] rest[k]).raw < n - 1 by {
            let k2 = if k < i {
                k
            } else {
                k + 1
            };
            assert(rest[k] == ids[k2]);
            assert(ids[k2].raw < n);
            assert(rest.contains(rest[k]));
        }
        assert forall|raw: u64| raw < n - 1 implies rest.contains(TaskId { raw }) by {
            assert(ids.contains(TaskId { raw }));
        }
        lemma_distinct_below_count(rest, (n - 1) as nat);
    }
}

/// Whether one turn of the run loop can take the executor from `v` to `w`
/// and the driver from `d` to `e`.
///
/// While something is runnable, a turn is one poll of the task at the front of
/// the queue, and the driver is left alone. With nothing runnable and tasks
/// left, a turn is one wait of the driver, for what the reactor has armed and
/// with the timeout that the step names, which returned without error,
/// followed by the delivery of what the wait gave and by one refusal for each
/// registration that the wait reports as refused. With no task left there is
/// no turn.
pub open spec fn turn<T: Task, D: Driver>(v: ExecutorView<T>, d: D, w: ExecutorView<T>, e: D) -> bool {
    match v.step() {
        Step::Poll(id) => v.polls_to(w, id) && e == d,
        Step::Wait(timeout) => exists|wakeup: Wakeup|
            {
                &&& #[trigger] d.waited(&e, armed_of(v.registrations), timeout, Ok(wakeup))
                &&& w == v.delivered(wakeup.now, wakeup.events@).rejected_each(
                    wakeup.refused@,
                    ReactorError::RegistrationRefused,
                )
            },
        Step::Terminated => false,
    }
}

/// Whether `n` turns of the run loop, one after the other, can take the
/// executor from `v` to `w` and the driver from `d` to `e`.
pub open spec fn runs_in<T: Task, D: Driver>(
    v: ExecutorView<T>,
    d: D,
    w: ExecutorView<T>,
    e: D,
    n: nat,
) -> bool
    decreases n,
{
    if n == 0 {
        w == v && e == d
    } else {
        exists|m: ExecutorView<T>, c: D|
            runs_in(v, d, m, c, (n - 1) as nat) && #[trigger] turn(m, c, w, e)
    }
}

/// Whether a run of at most `budget` turns from executor state `v` and
/// driver state `d` can end in `w` and `e` with `status`.
///
/// The run takes turns as long as one is allowed and a task is left. It is
/// `Complete` when it stops because no task is left, `OutOfBudget` when it
/// stops after exactly `budget` turns with a task left, and `WaitFailed` with
/// the driver's error when the wait that the next turn called for returned
/// that error, which leaves the executor as it was before that wait.
pub open spec fn run_ends<T: Task, D: Driver>(
    v: ExecutorView<T>,
    d: D,
    w: ExecutorView<T>,
    e: D,
    budget: u64,
    status: RunStatus,
) -> bool {
    exists|n: nat, c: D|
        {
            &&& n <= budget
            &&& #[trigger] runs_in(v, d, w, c, n)
            &&& match status {
                RunStatus::Complete => c == e && w.step() is Terminated,
                RunStatus::OutOfBudget => c == e && n == budget && !(w.step() is Terminated),
                RunStatus::WaitFailed(error) => {
                    &&& n < budget
                    &&& w.step() matches Step::Wait(timeout)
                    &&& c.waited(&e, armed_of(w.registrations), timeout, Err(error))
                },
            }
        }
}

} // verus!
