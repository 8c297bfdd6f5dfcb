use async_lab::driver::Driver;
use async_lab::driver::VirtualDriver;
use async_lab::ids::TaskId;
use async_lab::ids::Token;
use async_lab::interest::Interest;
use async_lab::interest::ReadinessEvent;
use async_lab::interest::ResourceId;
use async_lab::io::resolve_attempt;
use async_lab::io::Attempt;
use async_lab::io::IoError;
use async_lab::outcome::PollResult;
use async_lab::reactor::Reactor;
use async_lab::reactor::ReactorError;
use async_lab::reactor::Registration;
use async_lab::sleep::SleepFuture;
use async_lab::task::Context;
use async_lab::task::Task;
use async_lab::timer::Timer;
use async_lab::timer::TimerSource;
use async_lab::waker::Waker;

fn waker(raw: u64) -> Waker {
    Waker::new(TaskId::new(raw))
}

#[test]
fn tokens_are_fresh_and_counted() {
    let mut r = Reactor::new();
    assert!(r.is_empty());
    assert_eq!(r.create_token(), Ok(Token::new(0)));
    assert_eq!(r.register(ResourceId::new(10), Interest::readable()), Ok(Token::new(1)));
    assert_eq!(r.create_token(), Ok(Token::new(2)));
    assert_eq!(r.register(ResourceId::new(11), Interest::writable()), Ok(Token::new(3)));
    assert_eq!(r.len(), 2);
}

#[test]
fn registering_again_replaces_the_interest_under_the_same_token() {
    let mut r = Reactor::new();
    let t = r.register(ResourceId::new(10), Interest::readable()).unwrap();
    assert_eq!(r.bind_waker(t, waker(1)), Ok(()));
    assert_eq!(r.register(ResourceId::new(10), Interest::writable()), Ok(t));
    assert_eq!(r.len(), 1);
    assert_eq!(
        r.lookup(t),
        Some(Registration {
            token: t,
            resource: ResourceId::new(10),
            interest: Interest::writable(),
            waker: Some(waker(1)),
        })
    );
}

#[test]
fn bind_waker_overwrites_and_rejects_unknown_tokens() {
    let mut r = Reactor::new();
    let t = r.register(ResourceId::new(1), Interest::readable()).unwrap();
    assert_eq!(r.lookup(t).unwrap().waker, None);
    assert_eq!(r.bind_waker(t, waker(1)), Ok(()));
    assert_eq!(r.bind_waker(t, waker(2)), Ok(()));
    assert_eq!(r.lookup(t).unwrap().waker, Some(waker(2)));
    assert_eq!(r.bind_waker(Token::new(99), waker(3)), Err(ReactorError::UnknownToken));
    assert_eq!(r.lookup(Token::new(99)), None);
    assert_eq!(r.len(), 1);
}

#[test]
fn deregister_ends_a_registration() {
    let mut r = Reactor::new();
    let a = r.register(ResourceId::new(1), Interest::readable()).unwrap();
    let b = r.register(ResourceId::new(2), Interest::readable()).unwrap();
    assert_eq!(r.deregister(a), Ok(()));
    assert_eq!(r.deregister(a), Err(ReactorError::UnknownToken));
    assert_eq!(r.lookup(a), None);
    assert!(r.lookup(b).is_some());
    // a token is never handed out twice
    assert_eq!(r.register(ResourceId::new(1), Interest::readable()), Ok(Token::new(2)));
}

#[test]
fn dispatch_fires_bound_wakers_once() {
    let mut r = Reactor::new();
    let a = r.register(ResourceId::new(1), Interest::readable()).unwrap();
    let b = r.register(ResourceId::new(2), Interest::writable()).unwrap();
    let c = r.register(ResourceId::new(3), Interest::readable()).unwrap();
    r.bind_waker(a, waker(1)).unwrap();
    r.bind_waker(b, waker(2)).unwrap();
    let events = vec![
        ReadinessEvent::new(b, true, false),  // wrong direction: dropped
        ReadinessEvent::new(c, true, false),  // no waker bound: dropped
        ReadinessEvent::new(Token::new(77), true, true),  // unknown token: dropped
        ReadinessEvent::new(b, false, true),
        ReadinessEvent::new(a, true, true),
        ReadinessEvent::new(a, true, false),  // waker already taken: dropped
    ];
    assert_eq!(r.dispatch(&events), vec![waker(2), waker(1)]);
    assert_eq!(r.lookup(a).unwrap().waker, None);
    assert_eq!(r.lookup(b).unwrap().waker, None);
    assert_eq!(r.len(), 3);
    assert_eq!(r.dispatch(&events), Vec::<Waker>::new());
}

#[test]
fn armed_lists_what_has_a_waker() {
    let mut r = Reactor::new();
    let a = r.register(ResourceId::new(1), Interest::readable()).unwrap();
    let _b = r.register(ResourceId::new(2), Interest::writable()).unwrap();
    let c = r.register(ResourceId::new(3), Interest::readable()).unwrap();
    r.bind_waker(c, waker(5)).unwrap();
    r.bind_waker(a, waker(4)).unwrap();
    let armed = r.armed();
    assert_eq!(armed.len(), 2);
    assert_eq!(armed[0].token, a);
    assert_eq!(armed[0].waker, Some(waker(4)));
    assert_eq!(armed[1].token, c);
    assert_eq!(armed[1].resource, ResourceId::new(3));
}

#[test]
fn subscribe_registers_and_binds() {
    let mut r = Reactor::new();
    let t = r.subscribe(ResourceId::new(9), Interest::readable(), waker(1)).unwrap();
    assert_eq!(t, Token::new(0));
    assert_eq!(r.lookup(t).unwrap().waker, Some(waker(1)));
    assert_eq!(r.subscribe(ResourceId::new(9), Interest::writable(), waker(2)), Ok(t));
    let reg = r.lookup(t).unwrap();
    assert_eq!(reg.interest, Interest::writable());
    assert_eq!(reg.waker, Some(waker(2)));
    assert_eq!(r.len(), 1);
}

#[test]
fn release_drops_what_a_task_holds() {
    let mut r = Reactor::new();
    let a = r.subscribe(ResourceId::new(1), Interest::readable(), waker(1)).unwrap();
    let b = r.subscribe(ResourceId::new(2), Interest::readable(), waker(2)).unwrap();
    let c = r.subscribe(ResourceId::new(3), Interest::readable(), waker(1)).unwrap();
    let d = r.register(ResourceId::new(4), Interest::readable()).unwrap();
    assert_eq!(r.release(TaskId::new(1)), 2);
    assert_eq!(r.lookup(a), None);
    assert_eq!(r.lookup(c), None);
    assert!(r.lookup(b).is_some());
    assert!(r.lookup(d).is_some());
    assert_eq!(r.release(TaskId::new(1)), 0);
}

#[test]
fn timers_come_out_in_deadline_order() {
    let mut t = TimerSource::new();
    assert_eq!(t.next_deadline(), None);
    t.schedule(300, waker(3));
    t.schedule(100, waker(1));
    t.schedule(200, waker(2));
    t.schedule(100, waker(4));
    assert_eq!(t.len(), 4);
    assert_eq!(t.next_deadline(), Some(100));
    assert_eq!(t.expire(99), Vec::<Waker>::new());
    assert_eq!(t.expire(200), vec![waker(1), waker(4), waker(2)]);
    assert_eq!(t.next_deadline(), Some(300));
    assert_eq!(t.expire(u64::MAX), vec![waker(3)]);
    assert!(t.is_empty());
}

#[test]
fn timer_cancel_drops_only_that_task() {
    let mut t = TimerSource::new();
    t.schedule(10, waker(1));
    t.schedule(20, waker(2));
    t.schedule(30, waker(1));
    assert_eq!(t.cancel(TaskId::new(1)), 2);
    assert_eq!(t.cancel(TaskId::new(1)), 0);
    assert_eq!(t.len(), 1);
    assert_eq!(t.expire(100), vec![waker(2)]);
}

#[test]
fn sleep_completion_time_is_exact_and_saturates() {
    assert_eq!(SleepFuture::new(1_000, 250).completion_time(), 1_250);
    assert_eq!(SleepFuture::new(0, 0).completion_time(), 0);
    assert_eq!(SleepFuture::new(u64::MAX - 1, 1).completion_time(), u64::MAX);
    assert_eq!(SleepFuture::new(u64::MAX - 1, 2).completion_time(), u64::MAX);
    assert_eq!(SleepFuture::new(5, u64::MAX).completion_time(), u64::MAX);
    let s = SleepFuture::new(10, 5);
    assert!(!s.is_elapsed(14));
    assert!(s.is_elapsed(15));
}

#[test]
fn sleep_is_pending_until_its_time_and_schedules_a_wake() {
    let mut cx = Context::new(waker(7), 100);
    let mut sleep = cx.after(50);
    assert_eq!(sleep.completion_time(), 150);
    assert!(sleep.poll(&mut cx).is_pending());
    assert_eq!(cx.timers.len(), 1);
    assert_eq!(cx.timers.next_deadline(), Some(150));
    cx.now = 149;
    assert!(sleep.poll(&mut cx).is_pending());
    cx.now = 150;
    let timers_before = cx.timers.len();
    assert!(sleep.poll(&mut cx).is_ready());
    assert_eq!(cx.timers.len(), timers_before);
    assert_eq!(cx.timers.expire(150), vec![waker(7), waker(7)]);
}

#[test]
fn context_collects_wakes() {
    let mut cx = Context::new(waker(1), 0);
    assert_eq!(cx.waker(), waker(1));
    cx.wake(&waker(2));
    cx.wake_by_ref();
    assert_eq!(cx.woken, vec![waker(2), waker(1)]);
}

#[test]
fn resolve_attempt_done_and_failed_leave_the_context_alone() {
    let mut cx = Context::new(waker(1), 0);
    let r: PollResult<u32, IoError<&str>> =
        resolve_attempt(Attempt::Done(5), ResourceId::new(1), Interest::readable(), &mut cx);
    assert!(matches!(r, PollResult::Ready(5)));
    let r: PollResult<u32, IoError<&str>> = resolve_attempt(
        Attempt::Failed("broken"),
        ResourceId::new(1),
        Interest::readable(),
        &mut cx,
    );
    assert!(matches!(r, PollResult::Failed(IoError::Resource("broken"))));
    assert!(cx.reactor.is_empty());
    assert!(cx.timers.is_empty());
    assert!(cx.woken.is_empty());
}

#[test]
fn resolve_attempt_would_block_subscribes() {
    let mut cx = Context::new(waker(4), 0);
    let r: PollResult<u32, IoError<&str>> =
        resolve_attempt(Attempt::WouldBlock, ResourceId::new(8), Interest::readable(), &mut cx);
    assert!(r.is_pending());
    assert_eq!(
        cx.reactor.armed(),
        vec![Registration {
            token: Token::new(0),
            resource: ResourceId::new(8),
            interest: Interest::readable(),
            waker: Some(waker(4)),
        }]
    );
}

#[test]
fn virtual_driver_plays_its_script() {
    let mut d = VirtualDriver::new();
    let watched: Vec<Registration> = Vec::new();
    assert_eq!(d.wait(&watched, None).err(), Some(ReactorError::WaitFailed));
    let w = d.wait(&watched, Some(40)).unwrap();
    assert_eq!((w.now, w.events.len()), (40, 0));
    let e1 = ReadinessEvent::new(Token::new(1), true, false);
    let e2 = ReadinessEvent::new(Token::new(2), false, true);
    d.push(100, e1);
    d.push(10, e2);
    // the timeout comes first
    let w = d.wait(&watched, Some(50)).unwrap();
    assert_eq!((w.now, w.events.len()), (90, 0));
    // the event comes first
    let w = d.wait(&watched, Some(50)).unwrap();
    assert_eq!((w.now, w.events), (100, vec![e1]));
    // an event whose time has passed fires at once
    let w = d.wait(&watched, None).unwrap();
    assert_eq!((w.now, w.events), (100, vec![e2]));
    assert_eq!(d.wait(&watched, None).err(), Some(ReactorError::WaitFailed));
    let w = d.wait(&watched, Some(u64::MAX)).unwrap();
    assert_eq!(w.now, u64::MAX);
}

#[test]
fn timer_is_a_plain_value() {
    let t = Timer { deadline: 5, waker: waker(1) };
    assert_eq!(t, Timer { deadline: 5, waker: waker(1) });
}

#[test]
fn tokens_run_out() {
    let mut r = Reactor::starting_at(usize::MAX - 1);
    assert_eq!(r.create_token(), Ok(Token::new(usize::MAX - 1)));
    assert_eq!(r.create_token(), Err(ReactorError::TokensExhausted));
    assert_eq!(
        r.register(ResourceId::new(1), Interest::readable()),
        Err(ReactorError::TokensExhausted)
    );
    assert_eq!(
        r.subscribe(ResourceId::new(1), Interest::readable(), waker(1)),
        Err(ReactorError::TokensExhausted)
    );
    assert!(r.is_empty());
}

#[test]
fn registered_resource_needs_no_fresh_token() {
    let mut r = Reactor::starting_at(usize::MAX - 1);
    let t = r.register(ResourceId::new(1), Interest::readable()).unwrap();
    assert_eq!(t, Token::new(usize::MAX - 1));
    assert_eq!(r.subscribe(ResourceId::new(1), Interest::writable(), waker(1)), Ok(t));
    assert_eq!(r.register(ResourceId::new(1), Interest::readable()), Ok(t));
}

#[test]
fn resolve_attempt_fails_when_the_reactor_has_no_token_left() {
    let mut cx = Context::new(waker(1), 0);
    cx.reactor = Reactor::starting_at(usize::MAX);
    let r: PollResult<u32, IoError<&str>> =
        resolve_attempt(Attempt::WouldBlock, ResourceId::new(8), Interest::readable(), &mut cx);
    assert!(matches!(r, PollResult::Failed(IoError::Reactor(ReactorError::TokensExhausted))));
    assert!(cx.reactor.is_empty());
}

#[test]
fn drawn_token_takes_a_registration() {
    let mut r = Reactor::new();
    let t = r.create_token().unwrap();
    assert_eq!(r.bind_waker(t, waker(1)), Err(ReactorError::UnknownToken));
    assert_eq!(r.register_with(t, ResourceId::new(4), Interest::readable()), Ok(()));
    assert_eq!(r.bind_waker(t, waker(1)), Ok(()));
    assert_eq!(
        r.lookup(t),
        Some(Registration {
            token: t,
            resource: ResourceId::new(4),
            interest: Interest::readable(),
            waker: Some(waker(1)),
        })
    );
    // the same pair again replaces the interest and keeps the waker
    assert_eq!(r.register_with(t, ResourceId::new(4), Interest::writable()), Ok(()));
    assert_eq!(r.lookup(t).unwrap().interest, Interest::writable());
    assert_eq!(r.lookup(t).unwrap().waker, Some(waker(1)));
    assert_eq!(r.len(), 1);
    // registering the resource without a token finds the drawn one
    assert_eq!(r.register(ResourceId::new(4), Interest::readable()), Ok(t));
}

#[test]
fn register_with_rejects_tokens_never_drawn_and_pairs_in_use() {
    let mut r = Reactor::new();
    assert_eq!(
        r.register_with(Token::new(0), ResourceId::new(1), Interest::readable()),
        Err(ReactorError::UnknownToken)
    );
    let a = r.create_token().unwrap();
    let b = r.create_token().unwrap();
    assert_eq!(r.register_with(a, ResourceId::new(1), Interest::readable()), Ok(()));
    assert_eq!(
        r.register_with(a, ResourceId::new(2), Interest::readable()),
        Err(ReactorError::InUse)
    );
    assert_eq!(
        r.register_with(b, ResourceId::new(1), Interest::readable()),
        Err(ReactorError::InUse)
    );
    assert_eq!(r.register_with(b, ResourceId::new(2), Interest::readable()), Ok(()));
    assert_eq!(
        r.register_with(a, ResourceId::new(2), Interest::readable()),
        Err(ReactorError::InUse)
    );
    assert_eq!(
        r.register_with(Token::new(2), ResourceId::new(3), Interest::readable()),
        Err(ReactorError::UnknownToken)
    );
    assert_eq!(r.len(), 2);
}

#[test]
fn holder_is_the_waker_bound_under_a_token() {
    let mut r = Reactor::new();
    let a = r.register(ResourceId::new(1), Interest::readable()).unwrap();
    assert_eq!(r.holder(a), None);
    r.bind_waker(a, waker(3)).unwrap();
    assert_eq!(r.holder(a), Some(waker(3)));
    assert_eq!(r.holder(Token::new(9)), None);
}

#[test]
fn virtual_driver_refuses_nothing() {
    let mut d = VirtualDriver::new();
    let w = d.wait(&Vec::new(), Some(1)).unwrap();
    assert!(w.refused.is_empty());
}
