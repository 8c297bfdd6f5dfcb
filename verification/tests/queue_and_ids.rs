use async_lab::ids::TaskId;
use async_lab::ids::Token;
use async_lab::interest::Interest;
use async_lab::interest::ReadinessEvent;
use async_lab::interest::ResourceId;
use async_lab::outcome::Outcome;
use async_lab::outcome::PollResult;
use async_lab::outcome::TaskState;
use async_lab::run_queue::RunQueue;
use async_lab::waker::Waker;

#[test]
fn ids_carry_their_numbers() {
    assert_eq!(TaskId::new(4).raw, 4);
    assert_eq!(Token::new(6).raw, 6);
    assert_eq!(ResourceId::new(8).raw, 8);
    assert_eq!(TaskId::new(4), TaskId { raw: 4 });
    assert_ne!(TaskId::new(4), TaskId::new(5));
}

#[test]
fn waker_is_bound_to_one_task() {
    let w = Waker::new(TaskId::new(3));
    assert_eq!(w.task_id(), TaskId::new(3));
    let copy = w;
    assert_eq!(copy, w);
}

#[test]
fn run_queue_is_fifo() {
    let mut q = RunQueue::new();
    assert!(q.is_empty());
    assert_eq!(q.front(), None);
    assert!(q.enqueue(TaskId::new(2)));
    assert!(q.enqueue(TaskId::new(0)));
    assert!(q.enqueue(TaskId::new(1)));
    assert_eq!(q.len(), 3);
    assert_eq!(q.front(), Some(TaskId::new(2)));
    assert_eq!(q.dequeue(), Some(TaskId::new(2)));
    assert_eq!(q.dequeue(), Some(TaskId::new(0)));
    assert_eq!(q.dequeue(), Some(TaskId::new(1)));
    assert_eq!(q.dequeue(), None);
    assert!(q.is_empty());
}

#[test]
fn run_queue_holds_each_identity_once() {
    let mut q = RunQueue::new();
    assert!(q.enqueue(TaskId::new(5)));
    assert!(!q.enqueue(TaskId::new(5)));
    assert!(q.enqueue(TaskId::new(6)));
    assert!(!q.enqueue(TaskId::new(5)));
    assert_eq!(q.len(), 2);
    assert!(q.contains(TaskId::new(5)));
    assert_eq!(q.position(TaskId::new(6)), Some(1));
    assert_eq!(q.position(TaskId::new(7)), None);
    assert_eq!(q.dequeue(), Some(TaskId::new(5)));
    assert!(q.enqueue(TaskId::new(5)));
    assert_eq!(q.dequeue(), Some(TaskId::new(6)));
    assert_eq!(q.dequeue(), Some(TaskId::new(5)));
}

#[test]
fn run_queue_remove_keeps_the_order_of_the_rest() {
    let mut q = RunQueue::new();
    for raw in 0..4u64 {
        q.enqueue(TaskId::new(raw));
    }
    assert!(q.remove(TaskId::new(1)));
    assert!(!q.remove(TaskId::new(1)));
    assert!(!q.contains(TaskId::new(1)));
    assert_eq!(q.dequeue(), Some(TaskId::new(0)));
    assert_eq!(q.dequeue(), Some(TaskId::new(2)));
    assert_eq!(q.dequeue(), Some(TaskId::new(3)));
    assert_eq!(q.dequeue(), None);
}

#[test]
fn interest_directions() {
    let r = Interest::readable();
    let w = Interest::writable();
    assert!(r.is_readable() && !r.is_writable());
    assert!(!w.is_readable() && w.is_writable());
    let both = r.add(w);
    assert!(both.is_readable() && both.is_writable());
    let read_event = ReadinessEvent::new(Token::new(0), true, false);
    let write_event = ReadinessEvent::new(Token::new(0), false, true);
    let no_event = ReadinessEvent::new(Token::new(0), false, false);
    assert!(r.matches(&read_event));
    assert!(!r.matches(&write_event));
    assert!(w.matches(&write_event));
    assert!(both.matches(&read_event) && both.matches(&write_event));
    assert!(!both.matches(&no_event));
}

#[test]
fn poll_result_kinds() {
    let ready: PollResult<u8, u8> = PollResult::Ready(1);
    let pending: PollResult<u8, u8> = PollResult::Pending;
    let failed: PollResult<u8, u8> = PollResult::Failed(2);
    assert!(ready.is_ready() && !ready.is_pending() && !ready.is_failed());
    assert!(!pending.is_ready() && pending.is_pending() && !pending.is_failed());
    assert!(!failed.is_ready() && !failed.is_pending() && failed.is_failed());
}

#[test]
fn outcome_states() {
    let done: Outcome<u8, u8> = Outcome::Completed(1);
    let failed: Outcome<u8, u8> = Outcome::Failed(2);
    let cancelled: Outcome<u8, u8> = Outcome::Cancelled;
    assert_eq!(done.state(), TaskState::Completed);
    assert_eq!(failed.state(), TaskState::Failed);
    assert_eq!(cancelled.state(), TaskState::Cancelled);
}
