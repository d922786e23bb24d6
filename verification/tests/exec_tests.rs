use mini_tokio::delay::{Delay, Poll};
use mini_tokio::sched::MiniTokio;
use mini_tokio::task::{Computation, PollError, Task};

#[test]
fn zero_duration_ready_on_first_poll() {
    // A 0-duration deadline completes on the very first poll, with no
    // background timer armed.
    let mut mt = MiniTokio::new();
    mt.spawn(Computation::timer(0));
    mt.run();
    assert_eq!(mt.completed_count(), 1);
    assert_eq!(mt.timers_armed(), 0);
    assert_eq!(mt.timers_pending(), 0);
    assert_eq!(mt.now(), 0);
    let c = mt.completion(0).unwrap();
    assert_eq!(c.task, 0);
    assert_eq!(c.result, "ok");
}

#[test]
fn one_tick_deadline_needs_exactly_one_wake() {
    // A 1-tick deadline arms exactly one background timer, and the
    // computation is observed ready only after that wake is processed.
    let mut mt = MiniTokio::new();
    mt.spawn(Computation::timer(1));
    assert_eq!(mt.queue_len(), 1);
    mt.dispatch();
    assert_eq!(mt.completed_count(), 0);
    assert_eq!(mt.timers_armed(), 1);
    assert_eq!(mt.timers_pending(), 1);
    assert_eq!(mt.next_deadline(), Some(1));
    mt.set_now(1);
    mt.fire_due();
    assert_eq!(mt.timers_pending(), 0);
    assert_eq!(mt.queue_len(), 1);
    assert_eq!(mt.completed_count(), 0);
    mt.dispatch();
    assert_eq!(mt.completed_count(), 1);
    assert_eq!(mt.completion(0).unwrap().task, 0);
    mt.run();
    assert_eq!(mt.completed_count(), 1);
    assert_eq!(mt.timers_armed(), 1);
}

#[test]
fn run_completes_single_delay_and_returns() {
    // Spawning one delay and running completes it; the clock stops at
    // the deadline and the queue is empty.
    let mut mt = MiniTokio::new();
    mt.spawn(Computation::timer(5));
    mt.run();
    assert!(!mt.has_work());
    assert_eq!(mt.completed_count(), 1);
    assert_eq!(mt.now(), 5);
    assert_eq!(mt.queue_len(), 0);
    assert_eq!(mt.timers_pending(), 0);
}

#[test]
fn completions_come_in_wake_order_not_spawn_order() {
    // The later deadline is spawned first; completions follow the
    // order the wakes arrive in, not the spawn order.
    let mut mt = MiniTokio::new();
    mt.spawn(Computation::timer(5));
    mt.spawn(Computation::timer(2));
    mt.run();
    assert_eq!(mt.completed_count(), 2);
    assert_eq!(mt.completion(0).unwrap().task, 1);
    assert_eq!(mt.completion(1).unwrap().task, 0);
    assert_eq!(mt.now(), 5);
}

#[test]
fn duplicate_wakes_yield_one_completion() {
    // Waking a pending task three times leaves three queue entries but
    // exactly one eventual completion.
    let mut mt = MiniTokio::new();
    mt.spawn(Computation::timer(3));
    mt.dispatch();
    assert_eq!(mt.queue_len(), 0);
    mt.wake(0);
    mt.wake(0);
    mt.wake(0);
    assert_eq!(mt.queue_len(), 3);
    mt.run();
    assert_eq!(mt.completed_count(), 1);
    assert_eq!(mt.completion(0).unwrap().task, 0);
}

#[test]
fn wake_of_unknown_handle_is_dropped() {
    let mut mt = MiniTokio::new();
    mt.spawn(Computation::timer(1));
    mt.wake(7);
    assert_eq!(mt.queue_len(), 1);
}

#[test]
fn run_on_idle_scheduler_returns_at_once() {
    let mut mt = MiniTokio::new();
    mt.run();
    assert_eq!(mt.completed_count(), 0);
    assert_eq!(mt.now(), 0);
}

#[test]
fn deadline_already_past_completes_without_timer() {
    let mut mt = MiniTokio::new();
    mt.set_now(4);
    mt.spawn(Computation::timer(2));
    mt.run();
    assert_eq!(mt.completed_count(), 1);
    assert_eq!(mt.timers_armed(), 0);
    assert_eq!(mt.now(), 4);
}

#[test]
fn reentrant_poll_is_signalled_not_silent() {
    // While the computation is out for a poll, a second poll must
    // observe the fatal re-entrancy condition and change nothing.
    let mut t = Task::new(Computation::timer(7));
    let c = t.begin_poll().unwrap();
    let r = t.poll(0, 0);
    assert!(matches!(r, Err(PollError::ReentrantPoll)));
    assert!(matches!(t.begin_poll(), Err(PollError::ReentrantPoll)));
    t.end_poll(c);
    let r2 = t.poll(7, 0);
    assert!(matches!(r2, Ok(Poll::Ready(_))));
    assert!(t.done);
}

#[test]
fn delay_stores_and_replaces_wake_handle() {
    // The first pending poll stores the handle and asks for one
    // background timer; a later poll from a different poller only
    // replaces the stored handle.
    let mut d = Delay::new(10);
    match d.poll(0, 1) {
        Poll::Pending { arm_at } => assert_eq!(arm_at, Some(10)),
        Poll::Ready(_) => panic!("not due yet"),
    }
    assert_eq!(d.waker, Some(1));
    match d.poll(5, 2) {
        Poll::Pending { arm_at } => assert_eq!(arm_at, None),
        Poll::Ready(_) => panic!("not due yet"),
    }
    assert_eq!(d.waker, Some(2));
    match d.poll(10, 2) {
        Poll::Ready(msg) => assert_eq!(msg, "ok"),
        Poll::Pending { .. } => panic!("due now"),
    }
    assert_eq!(d.waker, Some(2));
}

#[test]
fn two_timers_with_equal_deadlines_fire_in_arming_order() {
    let mut mt = MiniTokio::new();
    mt.spawn(Computation::timer(3));
    mt.spawn(Computation::timer(3));
    mt.run();
    assert_eq!(mt.completed_count(), 2);
    assert_eq!(mt.completion(0).unwrap().task, 0);
    assert_eq!(mt.completion(1).unwrap().task, 1);
    assert_eq!(mt.timers_armed(), 2);
}
