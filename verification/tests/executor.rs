use async_lab::driver::Driver;
use async_lab::driver::VirtualDriver;
use async_lab::driver::Wakeup;
use async_lab::reactor::ReactorError;
use async_lab::reactor::Registration;
use async_lab::executor::Executor;
use async_lab::executor::RunStatus;
use async_lab::ids::TaskId;
use async_lab::ids::Token;
use async_lab::interest::Interest;
use async_lab::interest::ReadinessEvent;
use async_lab::interest::ResourceId;
use async_lab::io::Attempt;
use async_lab::io::IoError;
use async_lab::io::IoFuture;
use async_lab::io::Resource;
use async_lab::model::Step;
use async_lab::outcome::Outcome;
use async_lab::outcome::PollResult;
use async_lab::outcome::TaskState;
use async_lab::sleep::SleepFuture;
use async_lab::task::Context;
use async_lab::task::Task;
use async_lab::waker::Waker;
use std::cell::Cell;
use std::rc::Rc;

/// The tasks of these tests.
enum Job {
    /// Sleeps for the given time, then yields the label.
    Delay { millis: u64, sleep: Option<SleepFuture>, label: &'static str },
    /// Yields the label at the first poll.
    Now(&'static str),
    /// Fails at the first poll.
    Fail(&'static str),
    /// Answers `Pending` and arranges no wake.
    Hang,
    /// Asks for another poll the given number of times, then yields the label.
    Yield { left: u32, label: &'static str },
    /// Counts its polls and wakes another task.
    Nudge { other: TaskId, polls: Rc<Cell<u32>> },
    /// Subscribes to a resource and to a timer, and never finishes.
    Listen { resource: u64, millis: u64 },
}

impl Task for Job {
    type Output = &'static str;
    type Error = &'static str;

    fn poll(&mut self, cx: &mut Context) -> PollResult<&'static str, &'static str> {
        match self {
            Job::Delay { millis, sleep, label } => {
                if sleep.is_none() {
                    *sleep = Some(cx.after(*millis));
                }
                match sleep.as_mut().unwrap().poll(cx) {
                    PollResult::Ready(()) => PollResult::Ready(*label),
                    _ => PollResult::Pending,
                }
            }
            Job::Now(label) => PollResult::Ready(*label),
            Job::Fail(error) => PollResult::Failed(*error),
            Job::Hang => PollResult::Pending,
            Job::Yield { left, label } => {
                if *left == 0 {
                    PollResult::Ready(*label)
                } else {
                    *left -= 1;
                    cx.wake_by_ref();
                    PollResult::Pending
                }
            }
            Job::Listen { resource, millis } => {
                let waker = cx.waker();
                cx.reactor.subscribe(ResourceId::new(*resource), Interest::readable(), waker).unwrap();
                cx.timers.schedule(cx.now() + *millis, waker);
                PollResult::Pending
            }
            Job::Nudge { other, polls } => {
                polls.set(polls.get() + 1);
                cx.wake(&Waker::new(*other));
                PollResult::Ready("nudged")
            }
        }
    }
}

fn delay(millis: u64, label: &'static str) -> Job {
    Job::Delay { millis, sleep: None, label }
}

fn finished(exec: &Executor<Job>) -> Vec<(u64, Option<&'static str>)> {
    exec.outcomes()
        .iter()
        .map(|f| {
            (
                f.id.raw,
                match &f.outcome {
                    Outcome::Completed(v) => Some(*v),
                    _ => None,
                },
            )
        })
        .collect()
}

#[test]
fn new_executor_is_idle() {
    let exec: Executor<Job> = Executor::new();
    assert!(exec.is_empty());
    assert_eq!(exec.len(), 0);
    assert_eq!(exec.runnable_len(), 0);
    assert_eq!(exec.now(), 0);
    assert_eq!(exec.next_step(), Step::Terminated);
    assert!(exec.outcomes().is_empty());
    assert!(exec.reactor().is_empty());
    assert!(exec.timers().is_empty());
}

#[test]
fn submit_hands_out_identities_in_order_and_queues_the_task() {
    let mut exec = Executor::new();
    assert_eq!(exec.submit(Job::Now("a")), Some(TaskId::new(0)));
    assert_eq!(exec.submit(Job::Now("b")), Some(TaskId::new(1)));
    assert_eq!(exec.len(), 2);
    assert_eq!(exec.runnable_len(), 2);
    assert!(exec.is_live(TaskId::new(1)));
    assert!(exec.is_runnable(TaskId::new(1)));
    assert!(!exec.is_live(TaskId::new(2)));
    assert_eq!(exec.next_step(), Step::Poll(TaskId::new(0)));
}

#[test]
fn run_yields_the_outputs_in_completion_order() {
    let mut exec = Executor::new();
    exec.submit(Job::Now("a"));
    exec.submit(Job::Yield { left: 2, label: "b" });
    exec.submit(Job::Now("c"));
    let mut driver = VirtualDriver::new();
    assert_eq!(exec.run_until_complete(&mut driver, 100), RunStatus::Complete);
    assert_eq!(finished(&exec), vec![(0, Some("a")), (2, Some("c")), (1, Some("b"))]);
    assert!(exec.is_empty());
    assert_eq!(exec.next_step(), Step::Terminated);
}

#[test]
fn wake_twice_queues_once() {
    let mut exec = Executor::new();
    let a = exec.submit(Job::Hang).unwrap();
    let b = exec.submit(Job::Hang).unwrap();
    assert_eq!(exec.poll_next(), Some(a));
    assert_eq!(exec.poll_next(), Some(b));
    assert_eq!(exec.runnable_len(), 0);
    exec.wake(&Waker::new(b));
    exec.wake(&Waker::new(b));
    assert_eq!(exec.runnable_len(), 1);
    exec.wake(&Waker::new(a));
    exec.wake(&Waker::new(b));
    assert_eq!(exec.runnable_len(), 2);
    assert_eq!(exec.poll_next(), Some(b));
    assert_eq!(exec.poll_next(), Some(a));
    assert_eq!(exec.poll_next(), None);
}

#[test]
fn wake_of_an_unknown_task_does_nothing() {
    let mut exec = Executor::new();
    exec.submit(Job::Hang);
    exec.wake(&Waker::new(TaskId::new(17)));
    assert_eq!(exec.runnable_len(), 1);
    assert_eq!(exec.len(), 1);
}

#[test]
fn cancelled_task_stays_out_when_its_waker_fires() {
    let mut exec = Executor::new();
    let a = exec.submit(Job::Listen { resource: 5, millis: 50 }).unwrap();
    let b = exec.submit(Job::Listen { resource: 6, millis: 70 }).unwrap();
    assert_eq!(exec.poll_next(), Some(a));
    assert_eq!(exec.poll_next(), Some(b));
    assert_eq!(exec.timers().len(), 2);
    assert_eq!(exec.reactor().armed().len(), 2);
    let token = exec.reactor().armed()[0].token;
    assert!(exec.cancel(a));
    assert!(!exec.cancel(a));
    assert!(!exec.is_live(a));
    assert_eq!(exec.timers().len(), 1);
    assert_eq!(exec.reactor().lookup(token), None);
    let table = exec.reactor().armed();
    assert_eq!(table.len(), 1);
    // the orphaned waker fires, by hand and through a late event
    exec.wake(&Waker::new(a));
    exec.wake(&Waker::new(a));
    exec.deliver(1, &vec![ReadinessEvent::new(token, true, true)]);
    assert!(!exec.is_runnable(a));
    assert_eq!(exec.runnable_len(), 0);
    assert_eq!(exec.reactor().armed(), table);
    assert_eq!(exec.len(), 1);
    assert_eq!(exec.outcomes().len(), 1);
    assert_eq!(exec.outcomes()[0].id, a);
    assert!(matches!(exec.outcomes()[0].outcome, Outcome::Cancelled));
    // the other task is untouched and still wakes
    exec.deliver(70, &Vec::new());
    assert_eq!(exec.next_step(), Step::Poll(b));
}

#[test]
fn timers_run_concurrently_and_finish_in_deadline_order() {
    let mut exec = Executor::new();
    let a = exec.submit(delay(250, "A")).unwrap();
    let b = exec.submit(delay(100, "B")).unwrap();
    let mut driver = VirtualDriver::new();
    assert_eq!(exec.run_until_complete(&mut driver, 100), RunStatus::Complete);
    assert_eq!(finished(&exec), vec![(b.raw, Some("B")), (a.raw, Some("A"))]);
    assert_eq!(exec.now(), 250);
    assert_eq!(driver.now, 250);
}

#[test]
fn many_timers_finish_in_order_of_their_durations() {
    let durations: [u64; 6] = [70, 10, 50, 30, 60, 20];
    let mut exec = Executor::new();
    for d in durations {
        exec.submit(delay(d, "t"));
    }
    let mut driver = VirtualDriver::new();
    assert_eq!(exec.run_until_complete(&mut driver, 1_000), RunStatus::Complete);
    let order: Vec<u64> = exec.outcomes().iter().map(|f| durations[f.id.raw as usize]).collect();
    assert_eq!(order, vec![10, 20, 30, 50, 60, 70]);
    assert_eq!(exec.now(), 70);
}

#[test]
fn wait_is_until_the_earliest_deadline() {
    let mut exec = Executor::new();
    exec.submit(delay(250, "A"));
    exec.submit(delay(100, "B"));
    exec.poll_next();
    exec.poll_next();
    assert_eq!(exec.next_step(), Step::Wait(Some(100)));
    exec.deliver(40, &Vec::new());
    assert_eq!(exec.now(), 40);
    assert_eq!(exec.next_step(), Step::Wait(Some(60)));
    // the clock is never set back
    exec.deliver(30, &Vec::new());
    assert_eq!(exec.now(), 40);
    exec.deliver(100, &Vec::new());
    assert_eq!(exec.next_step(), Step::Poll(TaskId::new(1)));
    exec.poll_next();
    assert_eq!(exec.next_step(), Step::Wait(Some(150)));
    exec.deliver(400, &Vec::new());
    assert_eq!(exec.next_step(), Step::Poll(TaskId::new(0)));
    exec.poll_next();
    assert_eq!(exec.next_step(), Step::Terminated);
}

#[test]
fn failed_task_does_not_stop_the_others() {
    let mut exec = Executor::new();
    let bad = exec.submit(Job::Fail("boom")).unwrap();
    let good = exec.submit(delay(10, "fine")).unwrap();
    let mut driver = VirtualDriver::new();
    assert_eq!(exec.run_until_complete(&mut driver, 100), RunStatus::Complete);
    let out = exec.outcomes();
    assert_eq!(out.len(), 2);
    assert_eq!(out[0].id, bad);
    assert!(matches!(out[0].outcome, Outcome::Failed("boom")));
    assert_eq!(out[1].id, good);
    assert!(matches!(out[1].outcome, Outcome::Completed("fine")));
}

#[test]
fn hung_task_does_not_stall_the_others() {
    let mut exec = Executor::new();
    let hung = exec.submit(Job::Hang).unwrap();
    exec.submit(Job::Yield { left: 3, label: "y" });
    exec.submit(delay(20, "d"));
    let mut driver = VirtualDriver::new();
    // everything else finishes; then nothing can wake the hung task
    assert_eq!(
        exec.run_until_complete(&mut driver, 100),
        RunStatus::WaitFailed(ReactorError::WaitFailed)
    );
    assert_eq!(finished(&exec), vec![(1, Some("y")), (2, Some("d"))]);
    assert_eq!(exec.len(), 1);
    assert!(exec.is_live(hung));
    assert!(!exec.is_runnable(hung));
    assert_eq!(exec.next_step(), Step::Wait(None));
}

#[test]
fn run_stops_when_the_budget_is_used_up() {
    let mut exec = Executor::new();
    exec.submit(Job::Yield { left: 10, label: "y" });
    let mut driver = VirtualDriver::new();
    assert_eq!(exec.run_until_complete(&mut driver, 4), RunStatus::OutOfBudget);
    assert_eq!(exec.len(), 1);
    assert_eq!(exec.run_until_complete(&mut driver, 0), RunStatus::OutOfBudget);
    assert_eq!(exec.run_until_complete(&mut driver, 7), RunStatus::Complete);
    assert_eq!(finished(&exec), vec![(0, Some("y"))]);
    assert_eq!(exec.run_until_complete(&mut driver, 0), RunStatus::Complete);
}

#[test]
fn settle_records_terminal_answers_only() {
    let mut exec = Executor::new();
    let a = exec.submit(Job::Hang).unwrap();
    let b = exec.submit(Job::Hang).unwrap();
    exec.settle(a, PollResult::Pending);
    assert_eq!(exec.len(), 2);
    assert_eq!(exec.runnable_len(), 2);
    exec.settle(a, PollResult::Ready("done"));
    assert!(!exec.is_live(a));
    assert!(!exec.is_runnable(a));
    assert!(exec.is_runnable(b));
    // an answer for a task that is gone changes nothing
    exec.settle(a, PollResult::Failed("late"));
    exec.settle(TaskId::new(40), PollResult::Ready("nobody"));
    assert_eq!(exec.outcomes().len(), 1);
    assert!(matches!(exec.outcomes()[0].outcome, Outcome::Completed("done")));
    exec.settle(b, PollResult::Failed("bad"));
    assert!(matches!(exec.outcomes()[1].outcome, Outcome::Failed("bad")));
    assert!(exec.is_empty());
}

#[test]
fn wakes_asked_for_during_a_poll_come_behind_the_queue() {
    let mut exec = Executor::new();
    let sleeper = exec.submit(Job::Hang).unwrap();
    assert_eq!(exec.poll_next(), Some(sleeper));
    let polls = Rc::new(Cell::new(0));
    let nudger = exec.submit(Job::Nudge { other: sleeper, polls: polls.clone() }).unwrap();
    let last = exec.submit(Job::Now("z")).unwrap();
    assert_eq!(exec.poll_next(), Some(nudger));
    assert_eq!(polls.get(), 1);
    assert_eq!(exec.next_step(), Step::Poll(last));
    assert_eq!(exec.poll_next(), Some(last));
    assert_eq!(exec.poll_next(), Some(sleeper));
    assert_eq!(exec.poll_next(), None);
}

/// A resource that is not ready until `ready` is set, and counts its tries.
struct Mock {
    ready: Rc<Cell<bool>>,
    tries: Rc<Cell<u32>>,
    broken: bool,
}

impl Resource for Mock {
    type Item = u32;
    type Error = &'static str;

    fn try_once(&mut self) -> Attempt<u32, &'static str> {
        self.tries.set(self.tries.get() + 1);
        if self.broken {
            Attempt::Failed("reset")
        } else if self.ready.get() {
            Attempt::Done(42)
        } else {
            Attempt::WouldBlock
        }
    }
}

#[test]
fn io_task_is_polled_once_pending_and_once_ready() {
    let ready = Rc::new(Cell::new(false));
    let tries = Rc::new(Cell::new(0));
    let mock = Mock { ready: ready.clone(), tries: tries.clone(), broken: false };
    let mut exec: Executor<IoFuture<Mock>> = Executor::new();
    let id = exec.submit(IoFuture::new(mock, ResourceId::new(3), Interest::readable())).unwrap();
    assert_eq!(exec.poll_next(), Some(id));
    assert_eq!(tries.get(), 1);
    assert!(exec.is_live(id) && !exec.is_runnable(id));
    let armed = exec.reactor().armed();
    assert_eq!(armed.len(), 1);
    assert_eq!(armed[0].resource, ResourceId::new(3));
    assert_eq!(armed[0].waker, Some(Waker::new(id)));
    let token = armed[0].token;
    // no readiness, no poll
    assert_eq!(exec.next_step(), Step::Wait(None));
    exec.deliver(5, &Vec::new());
    exec.deliver(6, &vec![ReadinessEvent::new(token, false, true)]);
    exec.deliver(7, &vec![ReadinessEvent::new(Token::new(token.raw + 1), true, false)]);
    assert_eq!(exec.poll_next(), None);
    assert_eq!(tries.get(), 1);
    // the trigger
    ready.set(true);
    exec.deliver(8, &vec![ReadinessEvent::new(token, true, false)]);
    assert_eq!(exec.next_step(), Step::Poll(id));
    assert_eq!(exec.poll_next(), Some(id));
    assert_eq!(tries.get(), 2);
    assert_eq!(exec.poll_next(), None);
    assert!(exec.is_empty());
    assert!(matches!(exec.outcomes()[0].outcome, Outcome::Completed(42)));
    assert_eq!(exec.reactor().armed().len(), 0);
}

#[test]
fn io_task_subscribes_again_while_its_resource_is_not_ready() {
    let ready = Rc::new(Cell::new(true));
    let tries = Rc::new(Cell::new(0));
    let mut exec: Executor<IoFuture<Mock>> = Executor::new();
    let waiting = Mock { ready: Rc::new(Cell::new(false)), tries: tries.clone(), broken: false };
    let id = exec.submit(IoFuture::new(waiting, ResourceId::new(1), Interest::readable())).unwrap();
    exec.poll_next();
    let other = Mock { ready, tries: tries.clone(), broken: false };
    let id2 = exec.submit(IoFuture::new(other, ResourceId::new(2), Interest::readable())).unwrap();
    let mut driver = VirtualDriver::new();
    driver.push(30, ReadinessEvent::new(Token::new(0), true, false));
    // the second task is ready at once; the first is woken by the script, is
    // still not ready, subscribes again, and then nothing more can come
    assert_eq!(
        exec.run_until_complete(&mut driver, 100),
        RunStatus::WaitFailed(ReactorError::WaitFailed)
    );
    assert_eq!(tries.get(), 3);
    assert_eq!(exec.now(), 30);
    assert!(exec.is_live(id));
    assert!(!exec.is_live(id2));
    assert_eq!(exec.reactor().armed().len(), 1);
}

#[test]
fn io_task_fails_with_the_error_of_its_resource() {
    let mock = Mock { ready: Rc::new(Cell::new(false)), tries: Rc::new(Cell::new(0)), broken: true };
    let mut exec: Executor<IoFuture<Mock>> = Executor::new();
    let id = exec.submit(IoFuture::new(mock, ResourceId::new(3), Interest::readable())).unwrap();
    let mut driver = VirtualDriver::new();
    assert_eq!(exec.run_until_complete(&mut driver, 10), RunStatus::Complete);
    assert_eq!(exec.outcomes()[0].id, id);
    assert!(matches!(exec.outcomes()[0].outcome, Outcome::Failed(IoError::Resource("reset"))));
    assert!(exec.reactor().is_empty());
}

#[test]
fn finished_task_releases_its_timers() {
    let mut exec = Executor::new();
    let a = exec.submit(delay(100, "a")).unwrap();
    exec.poll_next();
    assert_eq!(exec.timers().len(), 1);
    exec.settle(a, PollResult::Ready("early"));
    assert_eq!(exec.timers().len(), 0);
    assert_eq!(exec.next_step(), Step::Terminated);
}

#[test]
fn state_follows_the_lifecycle() {
    let mut exec = Executor::new();
    let a = exec.submit(delay(10, "a")).unwrap();
    let b = exec.submit(Job::Fail("b")).unwrap();
    let c = exec.submit(Job::Hang).unwrap();
    assert_eq!(exec.state_of(a), Some(TaskState::Runnable));
    assert_eq!(exec.state_of(TaskId::new(3)), None);
    exec.poll_next();
    assert_eq!(exec.state_of(a), Some(TaskState::Suspended));
    exec.poll_next();
    assert_eq!(exec.state_of(b), Some(TaskState::Failed));
    exec.deliver(10, &Vec::new());
    assert_eq!(exec.state_of(a), Some(TaskState::Runnable));
    exec.cancel(c);
    assert_eq!(exec.state_of(c), Some(TaskState::Cancelled));
    while exec.poll_next().is_some() {}
    assert_eq!(exec.state_of(a), Some(TaskState::Completed));
}

#[test]
fn begin_and_finish_frame_a_poll() {
    let mut exec = Executor::new();
    let a = exec.submit(Job::Hang).unwrap();
    let b = exec.submit(Job::Hang).unwrap();
    assert_eq!(exec.begin_poll(), Some(a));
    assert!(exec.is_live(a) && !exec.is_runnable(a));
    exec.finish_poll(a, PollResult::Pending);
    assert_eq!(exec.state_of(a), Some(TaskState::Suspended));
    assert_eq!(exec.begin_poll(), Some(b));
    exec.finish_poll(b, PollResult::Ready("b"));
    assert_eq!(exec.begin_poll(), None);
    assert_eq!(exec.state_of(b), Some(TaskState::Completed));
    assert_eq!(exec.len(), 1);
}

#[test]
fn wake_all_delivers_in_order() {
    let mut exec = Executor::new();
    let a = exec.submit(Job::Hang).unwrap();
    let b = exec.submit(Job::Hang).unwrap();
    exec.poll_next();
    exec.poll_next();
    exec.wake_all(&vec![Waker::new(b), Waker::new(TaskId::new(9)), Waker::new(a), Waker::new(b)]);
    assert_eq!(exec.runnable_len(), 2);
    assert_eq!(exec.poll_next(), Some(b));
    assert_eq!(exec.poll_next(), Some(a));
}

#[test]
fn host_can_end_a_registration() {
    let mut exec = Executor::new();
    let a = exec.submit(Job::Listen { resource: 5, millis: 50 }).unwrap();
    exec.poll_next();
    let token = exec.reactor().armed()[0].token;
    assert_eq!(exec.deregister(token), Ok(()));
    assert_eq!(exec.deregister(token), Err(ReactorError::UnknownToken));
    assert!(exec.reactor().is_empty());
    // the event of the closed resource wakes nobody; the timer still does
    exec.deliver(10, &vec![ReadinessEvent::new(token, true, false)]);
    assert_eq!(exec.next_step(), Step::Wait(Some(40)));
    exec.deliver(50, &Vec::new());
    assert_eq!(exec.next_step(), Step::Poll(a));
}

#[test]
fn io_task_completes_when_the_script_signals_readiness() {
    let ready = Rc::new(Cell::new(false));
    let tries = Rc::new(Cell::new(0));
    let mock = Mock { ready: ready.clone(), tries: tries.clone(), broken: false };
    let mut exec: Executor<IoFuture<Mock>> = Executor::new();
    let id = exec.submit(IoFuture::new(mock, ResourceId::new(1), Interest::readable())).unwrap();
    assert_eq!(exec.poll_next(), Some(id));
    assert_eq!(tries.get(), 1);
    ready.set(true);
    let mut driver = VirtualDriver::new();
    driver.push(20, ReadinessEvent::new(Token::new(0), true, false));
    assert_eq!(exec.run_until_complete(&mut driver, 10), RunStatus::Complete);
    assert_eq!(tries.get(), 2);
    assert_eq!(exec.now(), 20);
    assert!(matches!(exec.outcomes()[0].outcome, Outcome::Completed(42)));
}

#[test]
fn ready_after_counts_down_its_waits() {
    let mut resource = async_lab::io::ReadyAfter { waits: 2, value: 9 };
    assert!(matches!(resource.try_once(), Attempt::WouldBlock));
    assert_eq!(resource.waits, 1);
    assert!(matches!(resource.try_once(), Attempt::WouldBlock));
    assert!(matches!(resource.try_once(), Attempt::Done(9)));
    assert!(matches!(resource.try_once(), Attempt::Done(9)));
    assert_eq!((resource.waits, resource.value), (0, 9));
}

#[test]
fn io_task_on_a_counting_resource_is_polled_until_ready() {
    let resource = async_lab::io::ReadyAfter { waits: 1, value: 5 };
    let mut exec: Executor<IoFuture<async_lab::io::ReadyAfter>> = Executor::new();
    let id = exec.submit(IoFuture::new(resource, ResourceId::new(4), Interest::readable())).unwrap();
    let mut driver = VirtualDriver::new();
    driver.push(15, ReadinessEvent::new(Token::new(0), true, false));
    assert_eq!(exec.run_until_complete(&mut driver, 10), RunStatus::Complete);
    assert_eq!(exec.outcomes()[0].id, id);
    assert!(matches!(exec.outcomes()[0].outcome, Outcome::Completed(5)));
    assert_eq!(exec.now(), 15);
}

#[test]
fn refused_registration_fails_its_task_only() {
    let mut exec = Executor::new();
    let a = exec.submit(Job::Listen { resource: 5, millis: 50 }).unwrap();
    let b = exec.submit(Job::Listen { resource: 6, millis: 70 }).unwrap();
    exec.poll_next();
    exec.poll_next();
    let token_a = exec.reactor().armed()[0].token;
    let token_b = exec.reactor().armed()[1].token;
    assert_eq!(exec.reject(Token::new(44), ReactorError::RegistrationRefused), None);
    assert_eq!(exec.len(), 2);
    assert_eq!(exec.reject(token_a, ReactorError::RegistrationRefused), Some(a));
    assert_eq!(exec.reject(token_a, ReactorError::RegistrationRefused), None);
    assert_eq!(exec.state_of(a), Some(TaskState::Failed));
    assert!(matches!(
        exec.outcomes()[0].outcome,
        Outcome::Rejected(ReactorError::RegistrationRefused)
    ));
    // the other task keeps its registration and its timer
    assert!(exec.is_live(b));
    assert_eq!(exec.reactor().holder(token_b), Some(Waker::new(b)));
    assert_eq!(exec.reactor().lookup(token_a), None);
    assert_eq!(exec.timers().len(), 1);
}

/// A driver whose multiplexer refuses to watch one resource.
struct Picky {
    refuses: u64,
    now: u64,
}

impl Driver for Picky {
    fn wait(
        &mut self,
        watched: &Vec<Registration>,
        timeout: Option<u64>,
    ) -> Result<Wakeup, ReactorError> {
        let refused: Vec<Token> =
            watched.iter().filter(|r| r.resource.raw == self.refuses).map(|r| r.token).collect();
        match timeout {
            Some(t) if refused.is_empty() => self.now += t,
            Some(_) => {}
            None => return Err(ReactorError::WaitFailed),
        }
        Ok(Wakeup { now: self.now, events: Vec::new(), refused })
    }
}

#[test]
fn run_goes_on_after_a_refused_registration() {
    let mut exec = Executor::new();
    let a = exec.submit(Job::Listen { resource: 5, millis: 50 }).unwrap();
    let b = exec.submit(delay(30, "b")).unwrap();
    let mut driver = Picky { refuses: 5, now: 0 };
    assert_eq!(exec.run_until_complete(&mut driver, 20), RunStatus::Complete);
    assert_eq!(exec.outcomes()[0].id, a);
    assert!(matches!(
        exec.outcomes()[0].outcome,
        Outcome::Rejected(ReactorError::RegistrationRefused)
    ));
    assert_eq!(exec.outcomes()[1].id, b);
    assert!(matches!(exec.outcomes()[1].outcome, Outcome::Completed("b")));
    assert_eq!(exec.now(), 30);
}

#[test]
fn reject_all_takes_the_refusals_in_order() {
    let mut exec = Executor::new();
    let a = exec.submit(Job::Listen { resource: 1, millis: 5 }).unwrap();
    let b = exec.submit(Job::Listen { resource: 2, millis: 5 }).unwrap();
    let c = exec.submit(Job::Listen { resource: 3, millis: 5 }).unwrap();
    while exec.poll_next().is_some() {}
    let tokens: Vec<Token> = exec.reactor().armed().iter().map(|r| r.token).collect();
    exec.reject_all(&vec![tokens[2], tokens[0], tokens[2]], ReactorError::RegistrationRefused);
    let order: Vec<TaskId> = exec.outcomes().iter().map(|f| f.id).collect();
    assert_eq!(order, vec![c, a]);
    assert!(exec.is_live(b));
}
