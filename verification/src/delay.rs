//! A poll-based timer. A `Delay` holds the tick at which it becomes due
//! and the identity of the wake handle stored by an earlier poll, if any.
//! Polling a due timer reports `Ready` with its result text and changes
//! nothing; polling one that is not yet due stores the caller's wake
//! handle and, the first time only, asks the caller to arm a background
//! timer for the deadline.

use vstd::prelude::*;

verus! {

/// What one poll of a computation reports back to its caller.
pub enum Poll {
    /// The computation finished with this result text.
    Ready(String),
    /// Not finished. When `arm_at` is `Some(w)`, the poller is asked to
    /// arm a background timer that delivers a wake once the clock
    /// reaches tick `w`; at most one such request is made over the
    /// lifetime of a timer.
    Pending { arm_at: Option<u64> },
}

/// The result text of a finished timer.
pub open spec fn ready_text() -> Seq<char> {
    "ok"@
}

/// A timer that becomes due at tick `when`.
#[derive(Clone, Copy, Debug, PartialEq, Eq)]
pub struct Delay {
    /// The tick at which the timer is due.
    pub when: u64,
    /// The identity of the wake handle stored by an earlier poll, if any.
    /// It is also the witness that a background timer has been armed.
    pub waker: Option<usize>,
}

impl Delay {
    /// A fresh timer, due at tick `when`, with no wake handle stored.
    pub fn new(when: u64) -> (d: Delay)
        ensures
            d == (Delay { when, waker: None::<usize> }),
    {
        Delay { when, waker: None }
    }

    /// Drives the timer one step at tick `now`, on behalf of the wake
    /// handle `waker`. Once due it reports `Ready` and changes nothing.
    /// Before that it stores `waker`, replacing any handle stored
    /// earlier, and asks for a background timer exactly when none was
    /// armed before.
    pub fn poll(&mut self, now: u64, waker: usize) -> (r: Poll)
        ensures
            now >= old(self).when ==> (r matches Poll::Ready(msg) && msg@ == ready_text())
                && *final(self) == *old(self),
            now < old(self).when ==> r == (Poll::Pending {
                arm_at: if old(self).waker is None { Some(old(self).when) } else { None::<u64> },
            }) && *final(self) == (Delay { when: old(self).when, waker: Some(waker) }),
    {
        if now >= self.when {
            Poll::Ready("ok".to_string())
        } else {
            let arm_at = if self.waker.is_none() { Some(self.when) } else { None };
            self.waker = Some(waker);
            Poll::Pending { arm_at }
        }
    }
}

} // verus!
