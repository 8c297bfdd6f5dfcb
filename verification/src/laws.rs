//! Laws of the runtime, stated over the executor's model and proved.

use vstd::prelude::*;
use crate::ids::TaskId;
use crate::interest::ReadinessEvent;
use crate::model::lemma_complete_accounts_for_all;
use crate::model::lemma_delivered_wf;
use crate::model::lemma_dequeued_wf;
use crate::model::lemma_distinct_below_count;
use crate::model::lemma_submitted_wf;
use crate::model::lemma_woken_wf;
use crate::model::lemma_retired_wf;
use crate::model::record;
use crate::model::ExecutorView;
use crate::model::Step;
use crate::outcome::Outcome;
use crate::outcome::PollResult;
use crate::sleep::SleepFuture;
use crate::task::Context;
use crate::task::Task;
use crate::timer::saturating_sum;

verus! {

/// The invariant holds of a new executor, and every transition keeps it.
pub proof fn law_invariant_is_kept<T: Task>(
    v: ExecutorView<T>,
    task: T,
    id: TaskId,
    result: PollResult<T::Output, T::Error>,
    now: u64,
    events: Seq<ReadinessEvent>,
)
    requires
        v.wf(),
    ensures
        ExecutorView::<T>::empty().wf(),
        v.issued < u64::MAX ==> v.submitted(task).wf(),
        v.woken(id).wf(),
        v.settled(id, result).wf(),
        v.cancelled(id).wf(),
        v.delivered(now, events).wf(),
{
    if v.issued < u64::MAX {
        lemma_submitted_wf(v, task);
    }
    lemma_woken_wf(v, id);
    if v.live().contains(id) {
        lemma_retired_wf(v, id, Outcome::Cancelled);
        match result {
            PollResult::Pending => {},
            PollResult::Ready(value) => lemma_retired_wf(v, id, Outcome::Completed(value)),
            PollResult::Failed(error) => lemma_retired_wf(v, id, Outcome::Failed(error)),
        }
    }
    lemma_delivered_wf(v, now, events);
}

/// A finished run yields every output: once the table is empty, each task
/// that was ever submitted has exactly one recorded outcome, and running
/// never changes an outcome that is recorded.
pub proof fn law_finished_run_accounts_for_every_task<T: Task>(
    before: ExecutorView<T>,
    after: ExecutorView<T>,
)
    requires
        before.wf(),
        after.wf(),
        before.ran_to(after),
        after.tasks.len() == 0,
    ensures
        after.finished.len() == before.issued,
        after.finished_ids().no_duplicates(),
        forall|raw: u64| raw < before.issued ==> after.finished_ids().contains(TaskId { raw }),
        forall|i: int| 0 <= i < before.finished.len() ==> after.finished[i] == before.finished[i],
{
    lemma_complete_accounts_for_all(after);
    assert forall|i: int| 0 <= i < before.finished.len() implies after.finished[i]
        == before.finished[i] by {
        assert(after.finished.take(before.finished.len() as int)[i] == before.finished[i]);
    }
}

/// Every task that was ever submitted is in the table or has left it, never
/// both: the table and the recorded outcomes together hold as many tasks as
/// identities were handed out.
pub proof fn law_live_or_finished<T: Task>(v: ExecutorView<T>)
    requires
        v.wf(),
    ensures
        v.tasks.len() + v.finished.len() == v.issued,
{
    let all = v.live() + v.finished_ids();
    assert forall|i: int, j: int|
        0 <= i < v.live().len() && 0 <= j < v.finished_ids().len() implies v.live()[i]
        != v.finished_ids()[j] by {
        assert(v.finished_ids()[j] == v.finished[j].id);
        assert(v.live().contains(v.live()[i]));
    }
    vstd::seq_lib::lemma_no_dup_in_concat(v.live(), v.finished_ids());
    assert forall|i: int| 0 <= i < all.len() implies (#[trigger] all[i]).raw < v.issued by {
        if i < v.live().len() {
            assert(all[i] == v.tasks[i].0);
        } else {
            assert(all[i] == v.finished[i - v.live().len()].id);
        }
    }
    assert forall|raw: u64| raw < v.issued implies all.contains(TaskId { raw }) by {
        let x = TaskId { raw };
        assert(v.accounted(x));
        if v.live().contains(x) {
            let i = choose|i: int| 0 <= i < v.live().len() && v.live()[i] == x;
            assert(all[i] == x);
        } else {
            let i = choose|i: int| 0 <= i < v.finished_ids().len() && v.finished_ids()[i] == x;
            assert(all[v.live().len() + i] == x);
        }
    }
    lemma_distinct_below_count(all, v.issued);
}

/// The run is over as soon as every task has answered for good: when as
/// many outcomes are recorded as tasks were submitted, no task is left and
/// the loop stops.
pub proof fn law_run_ends_when_all_answered<T: Task>(v: ExecutorView<T>)
    requires
        v.wf(),
        v.finished.len() == v.issued,
    ensures
        v.tasks.len() == 0,
        v.step() is Terminated,
{
    law_live_or_finished(v);
    if v.runnable.len() > 0 {
        assert(v.live().contains(v.runnable[0]));
    }
}

/// Waking is idempotent: a second wake of the same task, with no poll in
/// between, changes nothing, so the task is queued at most once.
pub proof fn law_wake_idempotent<T: Task>(v: ExecutorView<T>, id: TaskId)
    ensures
        v.woken(id).woken(id) == v.woken(id),
{
    if v.live().contains(id) && !v.runnable.contains(id) {
        assert(v.runnable.push(id)[v.runnable.len() as int] == id);
    }
}

/// A wake never queues a task twice, whatever was queued before.
pub proof fn law_wake_queues_once<T: Task>(v: ExecutorView<T>, id: TaskId)
    requires
        v.wf(),
    ensures
        v.woken(id).runnable.no_duplicates(),
        v.live().contains(id) ==> v.woken(id).runnable.contains(id),
        !v.live().contains(id) ==> v.woken(id) == v,
{
    lemma_woken_wf(v, id);
    if v.live().contains(id) && !v.runnable.contains(id) {
        assert(v.runnable.push(id)[v.runnable.len() as int] == id);
    }
}

/// Cancellation is safe: once a task is cancelled, firing its waker changes
/// nothing. The task does not come back into the run queue, and the reactor's
/// table and the timers stay as the cancellation left them.
pub proof fn law_wake_after_cancel<T: Task>(v: ExecutorView<T>, id: TaskId)
    requires
        v.wf(),
    ensures
        v.cancelled(id).wf(),
        !v.cancelled(id).live().contains(id),
        !v.cancelled(id).runnable.contains(id),
        v.cancelled(id).woken(id) == v.cancelled(id),
{
    if v.live().contains(id) {
        lemma_retired_wf(v, id, Outcome::Cancelled);
    } else {
        if v.runnable.contains(id) {
            let i = choose|i: int| 0 <= i < v.runnable.len() && v.runnable[i] == id;
            assert(v.live().contains(v.runnable[i]));
        }
    }
}

/// A terminal answer ends the task for good: it leaves the table, its
/// outcome is the one recorded last, and a later wake of it changes nothing.
pub proof fn law_terminal_answer_retires<T: Task>(
    v: ExecutorView<T>,
    id: TaskId,
    result: PollResult<T::Output, T::Error>,
)
    requires
        v.wf(),
        v.live().contains(id),
        result.terminal(),
    ensures
        v.settled(id, result).wf(),
        v.settled(id, result).tasks.len() == v.tasks.len() - 1,
        !v.settled(id, result).live().contains(id),
        v.settled(id, result).finished == v.finished.push(record(id, result.outcome())),
        v.settled(id, result).woken(id) == v.settled(id, result),
{
    lemma_retired_wf(v, id, result.outcome());
}

/// A task that answers `Pending` holds up nobody: whatever the poll of the
/// task at the front did, the tasks that were queued behind it are next, in
/// their order.
pub proof fn law_poll_keeps_others_runnable<T: Task>(
    v: ExecutorView<T>,
    after: ExecutorView<T>,
    id: TaskId,
)
    requires
        v.wf(),
        v.after_poll(after, id),
    ensures
        forall|k: int| 1 <= k < v.runnable.len() ==> after.runnable[k - 1] == v.runnable[k],
        v.runnable.len() > 1 ==> after.step() == Step::Poll(v.runnable[1]),
{
    assert forall|k: int| 1 <= k < v.runnable.len() implies after.runnable[k - 1]
        == v.runnable[k] by {
        assert(after.runnable.take(v.runnable.len() - 1)[k - 1] == v.runnable.skip(1)[k - 1]);
    }
}

/// A task that answers `Pending` and arranges no wake stays in the table
/// and out of the queue, and changes nothing else.
pub proof fn law_pending_suspends<T: Task>(v: ExecutorView<T>)
    requires
        v.wf(),
        v.runnable.len() > 0,
    ensures
        ({
            let id = v.runnable[0];
            let after = (ExecutorView { runnable: v.runnable.skip(1), ..v }).settled(
                id,
                PollResult::Pending,
            );
            &&& after.wf()
            &&& after.live().contains(id)
            &&& !after.runnable.contains(id)
            &&& v.after_poll(after, id)
        }),
{
    let id = v.runnable[0];
    let after = ExecutorView { runnable: v.runnable.skip(1), ..v };
    lemma_dequeued_wf(v);
    assert(after.runnable.take(v.runnable.len() - 1) =~= v.runnable.skip(1));
    assert forall|i: int| 0 <= i < v.tasks.len() && v.tasks[i].0 != id implies after.tasks.contains(
        #[trigger] v.tasks[i],
    ) by {
        assert(after.tasks[i] == v.tasks[i]);
    }
}

/// The run loop waits only when nothing is runnable and tasks are left, and
/// it is over only when no task is left.
pub proof fn law_step_blocks_only_when_idle<T: Task>(v: ExecutorView<T>)
    requires
        v.wf(),
    ensures
        v.step() is Wait ==> v.runnable.len() == 0 && v.tasks.len() > 0,
        v.step() is Terminated <==> v.tasks.len() == 0,
        v.step() is Poll <==> v.runnable.len() > 0,
{
    if v.runnable.len() > 0 {
        assert(v.live().contains(v.runnable[0]));
    }
}

/// A sleep is never over early: before `duration` milliseconds have passed
/// since its creation, its completion time has not come. This holds where
/// the completion time is in the range of the clock; beyond it the completion
/// time is held at the largest time.
pub proof fn law_sleep_not_early(created: u64, duration: u64, now: u64)
    requires
        created + duration <= u64::MAX,
        now < created + duration,
    ensures
        !(saturating_sum(created, duration) <= now),
        saturating_sum(created, duration) >= created,
{
}

/// A poll of a sleep answers `Ready` only when its time has come: for a sleep
/// made at `created` for `duration` milliseconds, a poll at a time before
/// `created + duration` answers `Pending`, and a poll at or after it answers
/// `Ready`. This holds where the completion time is in the range of the
/// clock.
pub proof fn law_sleep_poll_is_on_time(
    sleep: SleepFuture,
    after: SleepFuture,
    created: u64,
    duration: u64,
    before: Context,
    then: Context,
    answer: PollResult<(), ()>,
)
    requires
        sleep.deadline() == saturating_sum(created, duration),
        created + duration <= u64::MAX,
        sleep.polled(&after, before, then, answer),
    ensures
        answer is Ready <==> before.now >= created + duration,
        before.now < created + duration ==> answer is Pending,
        after.deadline() == sleep.deadline(),
{
}

} // verus!
