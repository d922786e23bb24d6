//! The scheduler: a FIFO run queue of task handles, the tasks
//! themselves, the armed background timers and a tick clock. Its whole
//! behaviour is captured by a small deterministic transition model
//! ([`Sched`] and the `*_spec` functions); every method's contract ties
//! the executable state to that model, and the laws about it are proved
//! in [`crate::laws`].
//!
//! One consumer drains the queue; wake handles and background timers
//! only ever append to it. A background timer here is a recorded
//! deadline: the scheduler's own clock fires it in [`MiniTokio::run`],
//! and a real-time driver can instead read [`MiniTokio::next_deadline`],
//! sleep, and hand the wake back through [`MiniTokio::set_now`] and
//! [`MiniTokio::fire_due`].

use crate::delay::{Poll, ready_text};
use crate::list::List;
use crate::task::{
    Computation, Task, mid_poll, task_after_poll, task_arm_request, task_ready,
};
use vstd::prelude::*;

verus! {

/// A background timer armed for task `task`: once the clock reaches
/// tick `when`, the task is woken (enqueued) and the entry is dropped.
#[derive(Clone, Copy, Debug, PartialEq, Eq)]
pub struct TimerEntry {
    /// The tick at which the timer fires.
    pub when: u64,
    /// The task its wake is delivered to.
    pub task: usize,
}

/// A surfaced result: task `task` completed with `result`.
#[derive(Debug, PartialEq, Eq)]
pub struct Completion {
    /// The completed task.
    pub task: usize,
    /// The result text its computation produced.
    pub result: String,
}

/// The abstract value of a [`Completion`].
pub struct CompletionModel {
    /// The completed task.
    pub task: usize,
    /// The result text its computation produced.
    pub result: Seq<char>,
}

impl View for Completion {
    type V = CompletionModel;

    open spec fn view(&self) -> CompletionModel {
        CompletionModel { task: self.task, result: self.result@ }
    }
}

/// The abstract state of the scheduler.
#[verifier::ext_equal]
pub struct Sched {
    /// Every task ever spawned, in spawn order; a task's handle is its
    /// position here.
    pub tasks: Seq<Task>,
    /// The run queue: task handles awaiting a poll, front first.
    pub queue: Seq<usize>,
    /// The armed background timers, in arming order.
    pub timers: Seq<TimerEntry>,
    /// The current tick.
    pub now: u64,
    /// The surfaced results, in completion order.
    pub completed: Seq<CompletionModel>,
}

/// The scheduler as it starts: no tasks, an empty queue, no timers.
pub open spec fn init_spec(start: u64) -> Sched {
    Sched {
        tasks: Seq::empty(),
        queue: Seq::empty(),
        timers: Seq::empty(),
        now: start,
        completed: Seq::empty(),
    }
}

/// Spawning appends a fresh task and enqueues its handle at once; the
/// first poll is left to the run loop.
pub open spec fn spawn_spec(s: Sched, c: Computation) -> Sched {
    Sched {
        tasks: s.tasks.push(Task { computation: Some(c), done: false }),
        queue: s.queue.push(s.tasks.len() as usize),
        ..s
    }
}

/// Waking a task enqueues its handle once more; every wake yields one
/// entry, duplicates included. A handle that names no task is dropped.
pub open spec fn wake_spec(s: Sched, id: usize) -> Sched {
    if id < s.tasks.len() {
        Sched { queue: s.queue.push(id), ..s }
    } else {
        s
    }
}

/// The clock only moves forward; an earlier tick is ignored.
pub open spec fn set_now_spec(s: Sched, t: u64) -> Sched {
    if t >= s.now {
        Sched { now: t, ..s }
    } else {
        s
    }
}

/// One consumer step: the front queue entry is taken; a handle that
/// names no task, a retired task or one already under poll is dropped;
/// otherwise the task is polled at the current tick with its own
/// handle, and the poll's outcome is recorded: a completion, or a
/// background timer if the poll asked for one.
pub open spec fn dispatch_spec(s: Sched) -> Sched {
    if s.queue.len() == 0 {
        s
    } else {
        let id = s.queue.first();
        let rest = s.queue.drop_first();
        if id >= s.tasks.len() {
            Sched { queue: rest, ..s }
        } else {
            let t = s.tasks[id as int];
            if t.done || mid_poll(t) {
                Sched { queue: rest, ..s }
            } else {
                let t2 = task_after_poll(t, s.now, id);
                if task_ready(t, s.now) {
                    Sched {
                        queue: rest,
                        tasks: s.tasks.update(id as int, t2),
                        completed: s.completed.push(
                            CompletionModel { task: id, result: ready_text() },
                        ),
                        ..s
                    }
                } else {
                    Sched {
                        queue: rest,
                        tasks: s.tasks.update(id as int, t2),
                        timers: match task_arm_request(t, s.now) {
                            Some(w) => s.timers.push(TimerEntry { when: w, task: id }),
                            None => s.timers,
                        },
                        ..s
                    }
                }
            }
        }
    }
}

/// The earliest deadline among the armed timers (0 when none is armed).
pub open spec fn min_due(timers: Seq<TimerEntry>) -> u64
    decreases timers.len(),
{
    if timers.len() == 0 {
        0
    } else if timers.len() == 1 {
        timers[0].when
    } else {
        let m = min_due(timers.drop_last());
        if timers.last().when < m {
            timers.last().when
        } else {
            m
        }
    }
}

/// The tasks of the timers already due at tick `now`, in arming order.
pub open spec fn due_tasks(timers: Seq<TimerEntry>, now: u64) -> Seq<usize>
    decreases timers.len(),
{
    if timers.len() == 0 {
        Seq::empty()
    } else {
        let p = due_tasks(timers.drop_last(), now);
        if timers.last().when <= now {
            p.push(timers.last().task)
        } else {
            p
        }
    }
}

/// The timers not yet due at tick `now`, in arming order.
pub open spec fn live_timers(timers: Seq<TimerEntry>, now: u64) -> Seq<TimerEntry>
    decreases timers.len(),
{
    if timers.len() == 0 {
        Seq::empty()
    } else {
        let p = live_timers(timers.drop_last(), now);
        if timers.last().when <= now {
            p
        } else {
            p.push(timers.last())
        }
    }
}

/// Moving the clock to the earliest armed deadline, when that lies
/// ahead of the current tick.
pub open spec fn advance_spec(s: Sched) -> Sched {
    if s.timers.len() == 0 {
        s
    } else {
        let w = min_due(s.timers);
        if w > s.now {
            Sched { now: w, ..s }
        } else {
            s
        }
    }
}

/// Every due timer fires: its task is woken (enqueued, in arming
/// order) and the entry is dropped.
pub open spec fn fire_due_spec(s: Sched) -> Sched {
    Sched {
        queue: s.queue + due_tasks(s.timers, s.now),
        timers: live_timers(s.timers, s.now),
        ..s
    }
}

/// Nothing is left to do: the queue is empty and no timer is armed.
pub open spec fn sched_done(s: Sched) -> bool {
    s.queue.len() == 0 && s.timers.len() == 0
}

/// One step of the run loop: drain the queue first; once it is empty,
/// let the clock catch up to the earliest armed deadline and fire the
/// due timers.
pub open spec fn sched_step(s: Sched) -> Sched {
    if s.queue.len() > 0 {
        dispatch_spec(s)
    } else if s.timers.len() > 0 {
        fire_due_spec(advance_spec(s))
    } else {
        s
    }
}

/// Whether the task may still ask for a background timer: it is not
/// retired and its timer has not stored a wake handle yet.
pub open spec fn can_arm(t: Task) -> bool {
    !t.done && (t.computation matches Some(Computation::Timer(d)) && d.waker is None)
}

/// How many tasks may still ask for a background timer.
pub open spec fn arms_avail(tasks: Seq<Task>) -> nat
    decreases tasks.len(),
{
    if tasks.len() == 0 {
        0
    } else {
        arms_avail(tasks.drop_last()) + (if can_arm(tasks.last()) {
            1nat
        } else {
            0nat
        })
    }
}

/// Whether the task's timer has stored a wake handle, the witness
/// that a background timer was armed for it.
pub open spec fn is_armed(t: Task) -> bool {
    t.computation matches Some(Computation::Timer(d)) && d.waker is Some
}

/// How many tasks have ever had a background timer armed. A stored
/// wake handle is never dropped again, so this only grows.
pub open spec fn armed_count(tasks: Seq<Task>) -> nat
    decreases tasks.len(),
{
    if tasks.len() == 0 {
        0
    } else {
        armed_count(tasks.drop_last()) + (if is_armed(tasks.last()) {
            1nat
        } else {
            0nat
        })
    }
}

/// The run loop's termination measure: every step strictly shrinks it.
pub open spec fn phi(s: Sched) -> nat {
    s.queue.len() + 2 * s.timers.len() + 3 * arms_avail(s.tasks)
}

/// Replacing one task changes `arms_avail` by that task's contribution
/// alone.
proof fn lemma_arms_update(tasks: Seq<Task>, i: int, t2: Task)
    requires
        0 <= i < tasks.len(),
    ensures
        arms_avail(tasks.update(i, t2)) + (if can_arm(tasks[i]) {
            1nat
        } else {
            0nat
        }) == arms_avail(tasks) + (if can_arm(t2) {
            1nat
        } else {
            0nat
        }),
    decreases tasks.len(),
{
    let u = tasks.update(i, t2);
    if i == tasks.len() - 1 {
        assert(u.drop_last() =~= tasks.drop_last());
        assert(u.last() == t2);
    } else {
        assert(u.drop_last() =~= tasks.drop_last().update(i, t2));
        assert(u.last() == tasks.last());
        lemma_arms_update(tasks.drop_last(), i, t2);
    }
}

/// Firing splits the timers without loss: due and live parts together
/// have the length of the whole.
proof fn lemma_due_split(timers: Seq<TimerEntry>, now: u64)
    ensures
        due_tasks(timers, now).len() + live_timers(timers, now).len() == timers.len(),
    decreases timers.len(),
{
    if timers.len() > 0 {
        lemma_due_split(timers.drop_last(), now);
    }
}

/// The earliest deadline is attained by some armed timer and bounds
/// all of them from below.
proof fn lemma_min_due_is_min(timers: Seq<TimerEntry>)
    requires
        timers.len() > 0,
    ensures
        exists|j: int| 0 <= j < timers.len() && #[trigger] timers[j].when == min_due(timers),
        forall|j: int| 0 <= j < timers.len() ==> #[trigger] timers[j].when >= min_due(timers),
    decreases timers.len(),
{
    if timers.len() > 1 {
        lemma_min_due_is_min(timers.drop_last());
        let p = timers.drop_last();
        assert forall|j: int| 0 <= j < timers.len() implies #[trigger] timers[j].when >= min_due(
            timers,
        ) by {
            if j < timers.len() - 1 {
                assert(timers[j] == p[j]);
            }
        }
        if timers.last().when < min_due(p) {
            assert(timers[timers.len() - 1].when == min_due(timers));
        } else {
            let j = choose|j: int| 0 <= j < p.len() && #[trigger] p[j].when == min_due(p);
            assert(timers[j].when == min_due(timers));
        }
    } else {
        assert(timers[0].when == min_due(timers));
    }
}

/// Where some timer is due, firing wakes at least one task.
proof fn lemma_due_nonempty(timers: Seq<TimerEntry>, now: u64)
    requires
        exists|j: int| 0 <= j < timers.len() && #[trigger] timers[j].when <= now,
    ensures
        due_tasks(timers, now).len() >= 1,
    decreases timers.len(),
{
    if timers.last().when <= now {
    } else {
        let j = choose|j: int| 0 <= j < timers.len() && #[trigger] timers[j].when <= now;
        assert(timers.drop_last()[j].when <= now);
        lemma_due_nonempty(timers.drop_last(), now);
    }
}

/// Every step of the run loop strictly shrinks the measure.
pub proof fn lemma_step_phi(s: Sched)
    requires
        !sched_done(s),
    ensures
        phi(sched_step(s)) < phi(s),
{
    if s.queue.len() > 0 {
        let id = s.queue.first();
        if id < s.tasks.len() {
            let t = s.tasks[id as int];
            if !t.done && !mid_poll(t) {
                let t2 = task_after_poll(t, s.now, id);
                lemma_arms_update(s.tasks, id as int, t2);
            }
        }
    } else {
        let s1 = advance_spec(s);
        lemma_min_due_is_min(s.timers);
        lemma_due_nonempty(s1.timers, s1.now);
        lemma_due_split(s1.timers, s1.now);
    }
}

/// Running the scheduler to quiescence: steps are taken until nothing
/// is queued and no timer is armed.
pub open spec fn sched_run(s: Sched) -> Sched
    decreases phi(s),
    via sched_run_decreases
{
    if sched_done(s) {
        s
    } else {
        sched_run(sched_step(s))
    }
}

#[via_fn]
proof fn sched_run_decreases(s: Sched) {
    if !sched_done(s) {
        lemma_step_phi(s);
    }
}

/// The scheduler. It owns the run queue and every spawned task, and
/// drives them to completion through repeated poll/wake cycles.
pub struct MiniTokio {
    tasks: Vec<Task>,
    queue: List<usize>,
    timers: Vec<TimerEntry>,
    now: u64,
    completed: Vec<Completion>,
}

impl View for MiniTokio {
    type V = Sched;

    closed spec fn view(&self) -> Sched {
        Sched {
            tasks: self.tasks@,
            queue: self.queue@,
            timers: self.timers@,
            now: self.now,
            completed: self.completed@.map_values(|c: Completion| c@),
        }
    }
}

impl MiniTokio {
    /// A scheduler with nothing spawned, at tick 0.
    pub fn new() -> (mt: MiniTokio)
        ensures
            mt@ == init_spec(0),
    {
        let mt = MiniTokio {
            tasks: Vec::new(),
            queue: List::new(),
            timers: Vec::new(),
            now: 0,
            completed: Vec::new(),
        };
        proof {
            assert(mt@ =~= init_spec(0));
        }
        mt
    }

    /// Wraps the computation in a fresh task and enqueues it at once;
    /// the first poll is left to the run loop.
    pub fn spawn(&mut self, c: Computation)
        ensures
            final(self)@ == spawn_spec(old(self)@, c),
    {
        let id = self.tasks.len();
        self.tasks.push(Task::new(c));
        self.queue.push_back(id);
        proof {
            assert(self@ =~= spawn_spec(old(self)@, c));
        }
    }

    /// Delivers one wake to the task: one more queue entry, duplicates
    /// included. A handle that names no task is dropped.
    pub fn wake(&mut self, id: usize)
        ensures
            final(self)@ == wake_spec(old(self)@, id),
    {
        if id < self.tasks.len() {
            self.queue.push_back(id);
        }
        proof {
            assert(self@ =~= wake_spec(old(self)@, id));
        }
    }

    /// Moves the clock forward to tick `t`; an earlier tick is ignored.
    pub fn set_now(&mut self, t: u64)
        ensures
            final(self)@ == set_now_spec(old(self)@, t),
    {
        if t >= self.now {
            self.now = t;
        }
        proof {
            assert(self@ =~= set_now_spec(old(self)@, t));
        }
    }

    /// The current tick.
    pub fn now(&self) -> (t: u64)
        ensures
            t == self@.now,
    {
        self.now
    }

    /// How many tasks were ever spawned.
    pub fn task_count(&self) -> (n: usize)
        ensures
            n == self@.tasks.len(),
    {
        self.tasks.len()
    }

    /// How many queue entries await the consumer.
    pub fn queue_len(&self) -> (n: usize)
        ensures
            n == self@.queue.len(),
    {
        self.queue.size()
    }

    /// How many background timers are armed right now.
    pub fn timers_pending(&self) -> (n: usize)
        ensures
            n == self@.timers.len(),
    {
        self.timers.len()
    }

    /// How many results have been surfaced so far.
    pub fn completed_count(&self) -> (n: usize)
        ensures
            n == self@.completed.len(),
    {
        self.completed.len()
    }

    /// The `i`-th surfaced result, in completion order.
    pub fn completion(&self, i: usize) -> (r: Option<&Completion>)
        ensures
            i < self@.completed.len() ==> (r matches Some(c) && c@ == self@.completed[i as int]),
            i >= self@.completed.len() ==> r is None,
    {
        if i < self.completed.len() {
            Some(&self.completed[i])
        } else {
            None
        }
    }

    /// Whether anything is left to do: a queued task or an armed timer.
    pub fn has_work(&self) -> (b: bool)
        ensures
            b == !sched_done(self@),
    {
        self.queue.size() != 0 || self.timers.len() != 0
    }

    /// One consumer step: takes the front queue entry and polls the
    /// task it names at the current tick, recording the completion or
    /// the requested background timer. Entries naming no task, a
    /// retired task or one already under poll are dropped.
    pub fn dispatch(&mut self)
        ensures
            final(self)@ == dispatch_spec(old(self)@),
    {
        let next = self.queue.pop_front();
        match next {
            None => {
                proof {
                    assert(self@ =~= dispatch_spec(old(self)@));
                }
            },
            Some(id) => {
                if id >= self.tasks.len() {
                    proof {
                        assert(self@ =~= dispatch_spec(old(self)@));
                    }
                    return ;
                }
                let mut t = self.tasks[id];
                if t.done {
                    proof {
                        assert(self@ =~= dispatch_spec(old(self)@));
                    }
                    return ;
                }
                let now = self.now;
                match t.poll(now, id) {
                    Err(_) => {
                        proof {
                            assert(self@ =~= dispatch_spec(old(self)@));
                        }
                    },
                    Ok(Poll::Ready(msg)) => {
                        let slot = &mut self.tasks[id];
                        *slot = t;
                        self.completed.push(Completion { task: id, result: msg });
                        proof {
                            assert(self@ =~= dispatch_spec(old(self)@));
                        }
                    },
                    Ok(Poll::Pending { arm_at }) => {
                        let slot = &mut self.tasks[id];
                        *slot = t;
                        match arm_at {
                            Some(w) => {
                                self.timers.push(TimerEntry { when: w, task: id });
                            },
                            None => {},
                        }
                        proof {
                            assert(self@ =~= dispatch_spec(old(self)@));
                        }
                    },
                }
            },
        }
    }

    /// The earliest deadline among the armed timers.
    fn min_when(&self) -> (m: u64)
        requires
            self@.timers.len() > 0,
        ensures
            m == min_due(self@.timers),
    {
        let mut m = self.timers[0].when;
        let mut i: usize = 1;
        proof {
            assert(self.timers@.subrange(0, 1)[0] == self.timers@[0]);
        }
        while i < self.timers.len()
            invariant
                1 <= i <= self.timers@.len(),
                m == min_due(self.timers@.subrange(0, i as int)),
            decreases self.timers@.len() - i,
        {
            proof {
                let post = self.timers@.subrange(0, i as int + 1);
                assert(post.drop_last() =~= self.timers@.subrange(0, i as int));
                assert(post.last() == self.timers@[i as int]);
            }
            let w = self.timers[i].when;
            if w < m {
                m = w;
            }
            i = i + 1;
        }
        proof {
            assert(self.timers@.subrange(0, self.timers@.len() as int) =~= self.timers@);
        }
        m
    }

    /// The deadline the next wake will come from, if a timer is armed.
    pub fn next_deadline(&self) -> (r: Option<u64>)
        ensures
            self@.timers.len() == 0 ==> r is None,
            self@.timers.len() > 0 ==> r == Some(min_due(self@.timers)),
    {
        if self.timers.len() == 0 {
            None
        } else {
            Some(self.min_when())
        }
    }

    /// Lets the clock catch up to the earliest armed deadline.
    fn advance(&mut self)
        requires
            old(self)@.timers.len() > 0,
        ensures
            final(self)@ == advance_spec(old(self)@),
    {
        let w = self.min_when();
        if w > self.now {
            self.now = w;
        }
        proof {
            assert(self@ =~= advance_spec(old(self)@));
        }
    }

    /// Fires every timer already due: each wakes its task (one queue
    /// entry, in arming order) and is dropped.
    pub fn fire_due(&mut self)
        ensures
            final(self)@ == fire_due_spec(old(self)@),
    {
        let now = self.now;
        let n = self.timers.len();
        let mut live: Vec<TimerEntry> = Vec::new();
        let mut i: usize = 0;
        proof {
            assert(self.queue@ =~= old(self).queue@ + due_tasks(
                self.timers@.subrange(0, 0),
                now,
            ));
            assert(live@ =~= live_timers(self.timers@.subrange(0, 0), now));
        }
        while i < n
            invariant
                0 <= i <= n,
                n == self.timers@.len(),
                self.timers@ == old(self).timers@,
                self.tasks@ == old(self).tasks@,
                self.completed@ == old(self).completed@,
                self.now == old(self).now,
                now == self.now,
                self.queue@ == old(self).queue@ + due_tasks(
                    self.timers@.subrange(0, i as int),
                    now,
                ),
                live@ == live_timers(self.timers@.subrange(0, i as int), now),
            decreases n - i,
        {
            proof {
                let post = self.timers@.subrange(0, i as int + 1);
                assert(post.drop_last() =~= self.timers@.subrange(0, i as int));
                assert(post.last() == self.timers@[i as int]);
            }
            let e = self.timers[i];
            if e.when <= now {
                self.queue.push_back(e.task);
                proof {
                    assert(self.queue@ =~= old(self).queue@ + due_tasks(
                        self.timers@.subrange(0, i as int + 1),
                        now,
                    ));
                }
            } else {
                live.push(e);
            }
            i = i + 1;
        }
        proof {
            assert(self.timers@.subrange(0, n as int) =~= self.timers@);
        }
        self.timers = live;
        proof {
            assert(self@ =~= fire_due_spec(old(self)@));
        }
    }

    /// How many tasks have stored a wake handle in their timer, that
    /// is, how many background timers were ever armed.
    pub fn timers_armed(&self) -> (n: usize)
        ensures
            n == armed_count(self@.tasks),
    {
        let mut n: usize = 0;
        let mut i: usize = 0;
        while i < self.tasks.len()
            invariant
                0 <= i <= self.tasks@.len(),
                n <= i,
                n == armed_count(self.tasks@.subrange(0, i as int)),
            decreases self.tasks@.len() - i,
        {
            proof {
                let post = self.tasks@.subrange(0, i as int + 1);
                assert(post.drop_last() =~= self.tasks@.subrange(0, i as int));
                assert(post.last() == self.tasks@[i as int]);
            }
            let t = self.tasks[i];
            let armed = match t.computation {
                Some(Computation::Timer(d)) => d.waker.is_some(),
                None => false,
            };
            if armed {
                n = n + 1;
            }
            i = i + 1;
        }
        proof {
            assert(self.tasks@.subrange(0, self.tasks@.len() as int) =~= self.tasks@);
        }
        n
    }

    /// One step of the run loop.
    fn step_once(&mut self)
        requires
            !sched_done(old(self)@),
        ensures
            final(self)@ == sched_step(old(self)@),
    {
        if !self.queue.is_empty() {
            self.dispatch();
        } else {
            self.advance();
            self.fire_due();
        }
    }

    /// Drains the scheduler: polls queued tasks, lets the clock catch
    /// up to armed deadlines and fires them, until nothing is queued
    /// and no timer is armed. Everything it does is pinned down by the
    /// transition model: the final state is `sched_run` of the initial
    /// one.
    pub fn run(&mut self)
        ensures
            final(self)@ == sched_run(old(self)@),
            sched_done(final(self)@),
    {
        loop
            invariant_except_break
                sched_run(self@) == sched_run(old(self)@),
            ensures
                sched_done(self@) && self@ == sched_run(old(self)@),
            decreases phi(self@),
        {
            let more = self.has_work();
            if !more {
                break ;
            }
            let ghost pre = self@;
            self.step_once();
            proof {
                lemma_step_phi(pre);
            }
        }
    }
}

} // verus!
