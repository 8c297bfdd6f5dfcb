//! The queue of task identities that are known to be runnable.

use vstd::prelude::*;
use std::collections::VecDeque;
use crate::ids::TaskId;
use crate::seqs::lemma_filter_keeps_all;
use crate::seqs::lemma_filter_removes_one;
use crate::seqs::lemma_remove_distinct;

verus! {

/// An ordered queue of task identities in which no identity occurs twice.
pub struct RunQueue {
    items: VecDeque<TaskId>,
}

impl View for RunQueue {
    type V = Seq<TaskId>;

    closed spec fn view(&self) -> Seq<TaskId> {
        self.items@
    }
}

/// The queue after a request to add `id`: unchanged where it is already
/// queued, else with `id` at the back.
pub open spec fn enqueued(queue: Seq<TaskId>, id: TaskId) -> Seq<TaskId> {
    if queue.contains(id) {
        queue
    } else {
        queue.push(id)
    }
}

/// The test that every identity but `id` passes.
pub open spec fn other_than(id: TaskId) -> spec_fn(TaskId) -> bool {
    |other: TaskId| other != id
}

/// The queue without `id`, the order of the others kept.
pub open spec fn without(queue: Seq<TaskId>, id: TaskId) -> Seq<TaskId> {
    queue.filter(other_than(id))
}

impl RunQueue {
    /// No identity is queued twice.
    pub open spec fn wf(&self) -> bool {
        self@.no_duplicates()
    }

    /// The empty queue.
    pub fn new() -> (queue: RunQueue)
        ensures
            queue@ == Seq::<TaskId>::empty(),
            queue.wf(),
    {
        RunQueue { items: VecDeque::new() }
    }

    /// The number of queued identities.
    pub fn len(&self) -> (n: usize)
        ensures
            n == self@.len(),
    {
        self.items.len()
    }

    /// Whether nothing is queued.
    pub fn is_empty(&self) -> (b: bool)
        ensures
            b == (self@.len() == 0),
    {
        self.items.len() == 0
    }

    /// The identity that the next `dequeue` hands out.
    pub fn front(&self) -> (head: Option<TaskId>)
        ensures
            head == (if self@.len() == 0 {
                None
            } else {
                Some(self@[0])
            }),
    {
        if self.items.len() == 0 {
            None
        } else {
            Some(self.items[0])
        }
    }

    /// The position of `id` in the queue, if it is queued.
    pub fn position(&self, id: TaskId) -> (found: Option<usize>)
        ensures
            match found {
                Some(i) => i < self@.len() && self@[i as int] == id && forall|j: int|
                    0 <= j < i ==> self@[j] != id,
                None => !self@.contains(id),
            },
    {
        let n: usize = self.items.len();
        let mut i: usize = 0;
        while i < n
            invariant
                n == self.items@.len(),
                i <= n,
                forall|j: int| 0 <= j < i ==> self.items@[j] != id,
            decreases n - i,
        {
            if self.items[i] == id {
                return Some(i);
            }
            i += 1;
        }
        None
    }

    /// Whether `id` is queued.
    pub fn contains(&self, id: TaskId) -> (b: bool)
        ensures
            b == self@.contains(id),
    {
        self.position(id).is_some()
    }

    /// Queues `id` at the back unless it is queued already. Returns whether
    /// the queue changed.
    pub fn enqueue(&mut self, id: TaskId) -> (added: bool)
        requires
            old(self).wf(),
        ensures
            final(self).wf(),
            final(self)@ == enqueued(old(self)@, id),
            added == !old(self)@.contains(id),
    {
        if self.contains(id) {
            false
        } else {
            self.items.push_back(id);
            true
        }
    }

    /// Takes the identity at the front, the one queued longest.
    pub fn dequeue(&mut self) -> (head: Option<TaskId>)
        requires
            old(self).wf(),
        ensures
            final(self).wf(),
            match head {
                Some(id) => old(self)@.len() > 0 && id == old(self)@[0] && final(self)@ == old(
                    self,
                )@.skip(1) && !final(self)@.contains(id),
                None => old(self)@.len() == 0 && final(self)@ == old(self)@,
            },
    {
        let head = self.items.pop_front();
        proof {
            if head.is_some() {
                assert(self@ =~= old(self)@.skip(1));
            }
        }
        head
    }

    /// Takes `id` out of the queue wherever it stands. Returns whether it was
    /// queued.
    pub fn remove(&mut self, id: TaskId) -> (removed: bool)
        requires
            old(self).wf(),
        ensures
            final(self).wf(),
            final(self)@ == without(old(self)@, id),
            !final(self)@.contains(id),
            removed == old(self)@.contains(id),
    {
        match self.position(id) {
            Some(i) => {
                let _ = self.items.remove(i);
                proof {
                    lemma_without_at(old(self)@, id, i as int);
                }
                true
            },
            None => {
                proof {
                    lemma_without_absent(old(self)@, id);
                }
                false
            },
        }
    }
}

/// Where `id` is not queued, taking it out changes nothing.
pub proof fn lemma_without_absent(queue: Seq<TaskId>, id: TaskId)
    requires
        !queue.contains(id),
    ensures
        without(queue, id) == queue,
{
    lemma_filter_keeps_all(queue, other_than(id));
}

/// In a queue without duplicates, taking out the identity found at `i` removes
/// exactly that position.
pub proof fn lemma_without_at(queue: Seq<TaskId>, id: TaskId, i: int)
    requires
        queue.no_duplicates(),
        0 <= i < queue.len(),
        queue[i] == id,
    ensures
        without(queue, id) == queue.remove(i),
        !queue.remove(i).contains(id),
        queue.remove(i).no_duplicates(),
{
    lemma_filter_removes_one(queue, other_than(id), i);
    lemma_remove_distinct(queue, i);
}

} // verus!
