//! A task couples one resumable computation with a completion flag.
//! The computation sits behind a take/restore pair that models the
//! exclusive access a poll must hold: while a poll is in progress the
//! slot is empty, and a second poll attempted in that window is
//! signalled as the fatal re-entrancy condition instead of touching
//! the computation.

use crate::delay::{Delay, Poll, ready_text};
use vstd::prelude::*;

verus! {

/// A resumable unit of work. Every variant yields `Pending` or
/// `Ready(result)` when polled; the scheduler stays agnostic to which
/// variant it drives.
#[derive(Clone, Copy, Debug, PartialEq, Eq)]
pub enum Computation {
    /// A computation that finishes once the timer it holds is due.
    Timer(Delay),
}

/// The fatal conditions a task can signal instead of a poll outcome.
#[derive(Clone, Copy, Debug, PartialEq, Eq)]
pub enum PollError {
    /// The computation was already under poll: a re-entrant poll is a
    /// programming error and is refused without touching any state.
    ReentrantPoll,
}

/// Whether the computation `c`, polled at tick `now`, finishes.
pub open spec fn comp_ready(c: Computation, now: u64) -> bool {
    match c {
        Computation::Timer(d) => now >= d.when,
    }
}

/// The computation `c` as it stands after a poll at tick `now` on
/// behalf of wake handle `waker`.
pub open spec fn comp_after_poll(c: Computation, now: u64, waker: usize) -> Computation {
    match c {
        Computation::Timer(d) => if now >= d.when {
            c
        } else {
            Computation::Timer(Delay { when: d.when, waker: Some(waker) })
        },
    }
}

/// The background-timer request a pending poll of `c` at tick `now`
/// makes: the deadline, the first time only.
pub open spec fn comp_arm_request(c: Computation, now: u64) -> Option<u64> {
    match c {
        Computation::Timer(d) => if now < d.when && d.waker is None {
            Some(d.when)
        } else {
            None
        },
    }
}

impl Computation {
    /// A fresh timer computation, due at tick `when`.
    pub fn timer(when: u64) -> (c: Computation)
        ensures
            c == (Computation::Timer(Delay { when, waker: None::<usize> })),
    {
        Computation::Timer(Delay::new(when))
    }

    /// Drives the computation one step at tick `now`, on behalf of the
    /// wake handle `waker`.
    pub fn poll(&mut self, now: u64, waker: usize) -> (r: Poll)
        ensures
            *final(self) == comp_after_poll(*old(self), now, waker),
            comp_ready(*old(self), now) ==> (r matches Poll::Ready(msg) && msg@ == ready_text()),
            !comp_ready(*old(self), now) ==> r == (Poll::Pending {
                arm_at: comp_arm_request(*old(self), now),
            }),
    {
        match self {
            Computation::Timer(d) => d.poll(now, waker),
        }
    }
}

/// One computation paired with its completion flag. The `computation`
/// slot is empty exactly while a poll of it is in progress.
#[derive(Clone, Copy, Debug, PartialEq, Eq)]
pub struct Task {
    /// The owned computation; `None` while it is out for a poll.
    pub computation: Option<Computation>,
    /// Set once the computation has been observed `Ready`; a retired
    /// task is never polled again by the scheduler.
    pub done: bool,
}

/// Whether the task's computation is currently out for a poll.
pub open spec fn mid_poll(t: Task) -> bool {
    t.computation is None
}

/// The task `t` as it stands after a poll at tick `now` on behalf of
/// wake handle `waker`: unchanged while mid-poll, retired once ready.
pub open spec fn task_after_poll(t: Task, now: u64, waker: usize) -> Task {
    match t.computation {
        None => t,
        Some(c) => if comp_ready(c, now) {
            Task { computation: Some(comp_after_poll(c, now, waker)), done: true }
        } else {
            Task { computation: Some(comp_after_poll(c, now, waker)), done: t.done }
        },
    }
}

/// Whether the task `t`, polled at tick `now`, finishes.
pub open spec fn task_ready(t: Task, now: u64) -> bool {
    t.computation matches Some(c) && comp_ready(c, now)
}

/// The background-timer request a poll of `t` at tick `now` makes.
pub open spec fn task_arm_request(t: Task, now: u64) -> Option<u64> {
    match t.computation {
        None => None,
        Some(c) => if comp_ready(c, now) {
            None
        } else {
            comp_arm_request(c, now)
        },
    }
}

impl Task {
    /// A fresh, not yet completed task around `computation`.
    pub fn new(computation: Computation) -> (t: Task)
        ensures
            t == (Task { computation: Some(computation), done: false }),
    {
        Task { computation: Some(computation), done: false }
    }

    /// Takes the computation out for a poll, modelling the exclusive
    /// access a poll holds. While a poll is already in progress this
    /// signals the fatal re-entrancy condition and changes nothing.
    pub fn begin_poll(&mut self) -> (r: Result<Computation, PollError>)
        ensures
            mid_poll(*old(self)) ==> r == Err::<Computation, PollError>(PollError::ReentrantPoll)
                && *final(self) == *old(self),
            !mid_poll(*old(self)) ==> r == Ok::<Computation, PollError>(
                old(self).computation->Some_0,
            ) && *final(self) == (Task { computation: None::<Computation>, done: old(self).done }),
    {
        match self.computation.take() {
            None => Err(PollError::ReentrantPoll),
            Some(c) => Ok(c),
        }
    }

    /// Restores the computation after a poll, releasing the exclusive
    /// access taken by `begin_poll`.
    pub fn end_poll(&mut self, computation: Computation)
        requires
            mid_poll(*old(self)),
        ensures
            *final(self) == (Task { computation: Some(computation), done: old(self).done }),
    {
        self.computation = Some(computation);
    }

    /// Drives the task one step at tick `now`, on behalf of the wake
    /// handle `waker`. A task already under poll is not touched: the
    /// fatal re-entrancy condition is signalled instead.
    pub fn poll(&mut self, now: u64, waker: usize) -> (r: Result<Poll, PollError>)
        ensures
            *final(self) == task_after_poll(*old(self), now, waker),
            mid_poll(*old(self)) ==> r == Err::<Poll, PollError>(PollError::ReentrantPoll),
            !mid_poll(*old(self)) && task_ready(*old(self), now) ==> (r matches Ok(p) && (
            p matches Poll::Ready(msg) && msg@ == ready_text())),
            !mid_poll(*old(self)) && !task_ready(*old(self), now) ==> r == Ok::<Poll, PollError>(
                Poll::Pending { arm_at: task_arm_request(*old(self), now) },
            ),
    {
        let taken = self.begin_poll();
        match taken {
            Err(e) => Err(e),
            Ok(mut c) => {
                let p = c.poll(now, waker);
                self.end_poll(c);
                match p {
                    Poll::Ready(msg) => {
                        self.done = true;
                        Ok(Poll::Ready(msg))
                    },
                    Poll::Pending { arm_at } => Ok(Poll::Pending { arm_at }),
                }
            },
        }
    }
}

} // verus!
