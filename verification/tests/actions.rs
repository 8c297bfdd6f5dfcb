use async_lab::action::Action;
use async_lab::action::ActionSet;
use async_lab::ids::TaskId;
use async_lab::outcome::PollResult;
use async_lab::task::Context;
use async_lab::task::Task;
use async_lab::waker::Waker;
use std::cell::RefCell;

fn action(id: usize, input: &str) -> Action {
    Action { id, input: input.to_string() }
}

#[test]
fn perform_immediate_prefixes_the_input() {
    assert_eq!(action(1, "First action").perform_immediate(), "Tuned First action");
    assert_eq!(action(2, "").perform_immediate(), "Tuned ");
}

#[test]
fn perform_immediate_leaves_the_action_usable() {
    let a = action(7, "x");
    assert_eq!(a.perform_immediate(), "Tuned x");
    assert_eq!(a.perform_immediate(), "Tuned x");
    assert_eq!(a.id, 7);
    assert_eq!(a.input, "x");
}

#[test]
fn perform_callback_hands_over_the_result_once() {
    let seen: RefCell<Vec<String>> = RefCell::new(Vec::new());
    action(2, "Second action").perform_callback(|res| seen.borrow_mut().push(res));
    assert_eq!(seen.into_inner(), vec!["Tuned Second action".to_string()]);
}

#[test]
fn action_set_starts_empty() {
    let mut set = ActionSet::new();
    assert_eq!(set.len(), 0);
    assert!(set.poll().is_none());
    assert_eq!(set.len(), 0);
}

#[test]
fn action_set_completes_the_last_added_first() {
    let mut set = ActionSet::new();
    set.add(action(1, "First action"));
    set.add(action(2, "Second action"));
    assert_eq!(set.len(), 2);
    assert_eq!(set.poll(), Some(vec![(2, "Tuned Second action".to_string())]));
    assert_eq!(set.len(), 1);
    assert_eq!(set.poll(), Some(vec![(1, "Tuned First action".to_string())]));
    assert_eq!(set.poll(), None);
}

#[test]
fn action_as_task_is_ready_at_first_poll() {
    let mut a = action(3, "job");
    let mut cx = Context::new(Waker::new(TaskId::new(9)), 5);
    match a.poll(&mut cx) {
        PollResult::Ready(res) => assert_eq!(res, "Tuned job"),
        _ => panic!("an action never suspends"),
    }
    assert_eq!(cx.now(), 5);
    assert!(cx.woken.is_empty());
    assert!(cx.timers.is_empty());
    assert!(cx.reactor.is_empty());
}
