//! The laws of the scheduler, stated over the transition model of
//! [`crate::sched`] and proved once and for all: a well-formedness
//! invariant that every transition preserves, and what running to
//! quiescence guarantees — every spawned task completes exactly once,
//! wakes are delivered at least once without duplicating completions,
//! and completions come in wake order rather than spawn order.

use crate::delay::{Delay, ready_text};
use crate::sched::{
    CompletionModel, Sched, TimerEntry, advance_spec, dispatch_spec, due_tasks, fire_due_spec,
    init_spec, lemma_step_phi, live_timers, min_due, phi, sched_done, sched_run, sched_step,
    set_now_spec, spawn_spec, wake_spec,
};
use crate::task::{Computation, Task, mid_poll, task_after_poll, task_ready};
use vstd::prelude::*;

verus! {

/// A timer entry is consistent: it names a spawned task whose
/// computation is a timer with exactly this deadline.
pub open spec fn timer_ok(s: Sched, e: TimerEntry) -> bool {
    &&& e.task < s.tasks.len()
    &&& (s.tasks[e.task as int].computation matches Some(Computation::Timer(d)) && d.when
        == e.when)
}

/// Whether some armed timer will wake task `id`.
pub open spec fn has_timer(timers: Seq<TimerEntry>, id: usize) -> bool {
    exists|j: int| 0 <= j < timers.len() && (#[trigger] timers[j]).task == id
}

/// A task that is not yet retired can still be reached: a timer task
/// that has not stored a wake handle sits in the queue awaiting its
/// first poll, and one that has is either covered by an armed timer or
/// already woken (queued with its deadline reached).
pub open spec fn task_live_ok(s: Sched, i: int) -> bool {
    match s.tasks[i].computation {
        Some(Computation::Timer(d)) => {
            &&& (!s.tasks[i].done && d.waker is None) ==> s.queue.contains(i as usize)
            &&& (!s.tasks[i].done && d.waker is Some) ==> (has_timer(s.timers, i as usize) || (
            s.queue.contains(i as usize) && s.now >= d.when))
        },
        None => true,
    }
}

/// A surfaced result is consistent: it names a spawned, retired task
/// and carries the timer result text.
pub open spec fn completion_ok(s: Sched, c: CompletionModel) -> bool {
    &&& c.task < s.tasks.len()
    &&& s.tasks[c.task as int].done
    &&& c.result == ready_text()
}

/// How many surfaced results name task `id`.
pub open spec fn count_for(completed: Seq<CompletionModel>, id: usize) -> nat
    decreases completed.len(),
{
    if completed.len() == 0 {
        0
    } else {
        count_for(completed.drop_last(), id) + (if completed.last().task == id {
            1nat
        } else {
            0nat
        })
    }
}

/// How many tasks are retired.
pub open spec fn count_done(tasks: Seq<Task>) -> nat
    decreases tasks.len(),
{
    if tasks.len() == 0 {
        0
    } else {
        count_done(tasks.drop_last()) + (if tasks.last().done {
            1nat
        } else {
            0nat
        })
    }
}

/// The scheduler invariant. It holds of a fresh scheduler, every
/// transition preserves it (fresh computations spawned), and together
/// with quiescence it forces every task to be retired.
pub open spec fn sched_wf(s: Sched) -> bool {
    &&& s.tasks.len() <= usize::MAX
    &&& forall|k: int| 0 <= k < s.queue.len() ==> (#[trigger] s.queue[k]) < s.tasks.len()
    &&& forall|j: int| 0 <= j < s.timers.len() ==> timer_ok(s, #[trigger] s.timers[j])
    &&& forall|i: int| 0 <= i < s.tasks.len() ==> !mid_poll(#[trigger] s.tasks[i])
    &&& forall|i: int| 0 <= i < s.tasks.len() ==> #[trigger] task_live_ok(s, i)
    &&& forall|j: int|
        0 <= j < s.completed.len() ==> completion_ok(s, #[trigger] s.completed[j])
    &&& forall|i: int|
        0 <= i < s.tasks.len() ==> count_for(s.completed, i as usize) == (
        if (#[trigger] s.tasks[i]).done {
            1nat
        } else {
            0nat
        })
    &&& s.completed.len() == count_done(s.tasks)
}

/// A computation as `spawn` expects it: fresh, with no wake handle
/// stored yet.
pub open spec fn fresh_comp(c: Computation) -> bool {
    c matches Computation::Timer(d) && d.waker is None
}

proof fn lemma_contains_push<A>(q: Seq<A>, x: A, y: A)
    requires
        q.contains(y),
    ensures
        q.push(x).contains(y),
{
    let k = choose|k: int| 0 <= k < q.len() && q[k] == y;
    assert(q.push(x)[k] == y);
}

proof fn lemma_contains_concat_left<A>(a: Seq<A>, b: Seq<A>, y: A)
    requires
        a.contains(y),
    ensures
        (a + b).contains(y),
{
    let k = choose|k: int| 0 <= k < a.len() && a[k] == y;
    assert((a + b)[k] == y);
}

proof fn lemma_contains_concat_right<A>(a: Seq<A>, b: Seq<A>, y: A)
    requires
        b.contains(y),
    ensures
        (a + b).contains(y),
{
    let k = choose|k: int| 0 <= k < b.len() && b[k] == y;
    assert((a + b)[a.len() + k] == y);
}

proof fn lemma_contains_drop_first_ne<A>(q: Seq<A>, y: A)
    requires
        q.contains(y),
        q.len() > 0,
        y != q.first(),
    ensures
        q.drop_first().contains(y),
{
    let k = choose|k: int| 0 <= k < q.len() && q[k] == y;
    assert(q.drop_first()[k - 1] == y);
}

proof fn lemma_count_for_push(completed: Seq<CompletionModel>, c: CompletionModel, id: usize)
    ensures
        count_for(completed.push(c), id) == count_for(completed, id) + (if c.task == id {
            1nat
        } else {
            0nat
        }),
{
    assert(completed.push(c).drop_last() =~= completed);
    assert(completed.push(c).last() == c);
}

proof fn lemma_count_for_absent(completed: Seq<CompletionModel>, id: usize)
    requires
        forall|j: int| 0 <= j < completed.len() ==> (#[trigger] completed[j]).task != id,
    ensures
        count_for(completed, id) == 0,
    decreases completed.len(),
{
    if completed.len() > 0 {
        assert(completed.last() == completed[completed.len() - 1]);
        lemma_count_for_absent(completed.drop_last(), id);
    }
}

proof fn lemma_count_done_push(tasks: Seq<Task>, t: Task)
    ensures
        count_done(tasks.push(t)) == count_done(tasks) + (if t.done {
            1nat
        } else {
            0nat
        }),
{
    assert(tasks.push(t).drop_last() =~= tasks);
    assert(tasks.push(t).last() == t);
}

proof fn lemma_count_done_update(tasks: Seq<Task>, i: int, t2: Task)
    requires
        0 <= i < tasks.len(),
    ensures
        count_done(tasks.update(i, t2)) + (if tasks[i].done {
            1nat
        } else {
            0nat
        }) == count_done(tasks) + (if t2.done {
            1nat
        } else {
            0nat
        }),
    decreases tasks.len(),
{
    let u = tasks.update(i, t2);
    if i == tasks.len() - 1 {
        assert(u.drop_last() =~= tasks.drop_last());
        assert(u.last() == t2);
    } else {
        assert(u.drop_last() =~= tasks.drop_last().update(i, t2));
        assert(u.last() == tasks.last());
        lemma_count_done_update(tasks.drop_last(), i, t2);
    }
}

proof fn lemma_count_done_all(tasks: Seq<Task>)
    requires
        forall|i: int| 0 <= i < tasks.len() ==> (#[trigger] tasks[i]).done,
    ensures
        count_done(tasks) == tasks.len(),
    decreases tasks.len(),
{
    if tasks.len() > 0 {
        assert(tasks.last() == tasks[tasks.len() - 1]);
        lemma_count_done_all(tasks.drop_last());
    }
}

/// A fresh scheduler is well formed.
pub proof fn lemma_init_wf(start: u64)
    ensures
        sched_wf(init_spec(start)),
{
    let s = init_spec(start);
    assert(count_done(s.tasks) == 0);
    assert forall|i: int| 0 <= i < s.tasks.len() implies count_for(s.completed, i as usize) == (
    if s.tasks[i].done {
        1nat
    } else {
        0nat
    }) by {}
}

/// Spawning a fresh computation preserves the invariant.
pub proof fn lemma_spawn_wf(s: Sched, c: Computation)
    requires
        sched_wf(s),
        fresh_comp(c),
        s.tasks.len() < usize::MAX,
    ensures
        sched_wf(spawn_spec(s, c)),
{
    let s2 = spawn_spec(s, c);
    let id = s.tasks.len() as usize;
    let t = Task { computation: Some(c), done: false };
    lemma_count_done_push(s.tasks, t);
    assert forall|j: int|
        0 <= j < s2.completed.len() implies completion_ok(s2, #[trigger] s2.completed[j]) by {
        assert(completion_ok(s, s.completed[j]));
        assert(s2.tasks[s.completed[j].task as int] == s.tasks[s.completed[j].task as int]);
    }
    assert forall|i: int|
        0 <= i < s2.tasks.len() implies count_for(s2.completed, i as usize) == (
    if (#[trigger] s2.tasks[i]).done {
        1nat
    } else {
        0nat
    }) by {
        if i < s.tasks.len() {
            assert(s2.tasks[i] == s.tasks[i]);
        } else {
            assert(forall|j: int|
                0 <= j < s.completed.len() ==> (#[trigger] s.completed[j]).task != i as usize)
                by {
                assert forall|j: int|
                    0 <= j < s.completed.len() implies (#[trigger] s.completed[j]).task
                    != i as usize by {
                    assert(completion_ok(s, s.completed[j]));
                }
            }
            lemma_count_for_absent(s.completed, i as usize);
        }
    }
    assert forall|j: int| 0 <= j < s2.timers.len() implies timer_ok(s2, #[trigger] s2.timers[j])
        by {
        assert(timer_ok(s, s.timers[j]));
        assert(s2.tasks[s.timers[j].task as int] == s.tasks[s.timers[j].task as int]);
    }
    assert forall|i: int| 0 <= i < s2.tasks.len() implies #[trigger] task_live_ok(s2, i) by {
        if i < s.tasks.len() {
            assert(task_live_ok(s, i));
            assert(s2.tasks[i] == s.tasks[i]);
            if s.queue.contains(i as usize) {
                lemma_contains_push(s.queue, id, i as usize);
            }
            match s.tasks[i].computation {
                Some(Computation::Timer(d)) => {
                    if !s.tasks[i].done && d.waker is Some && has_timer(s.timers, i as usize) {
                        assert(has_timer(s2.timers, i as usize));
                    }
                },
                None => {},
            }
        } else {
            assert(s2.tasks[i] == t);
            assert(s2.queue[s.queue.len() as int] == id);
            assert(s2.queue.contains(id));
        }
    }
}

/// Waking a task preserves the invariant.
pub proof fn lemma_wake_wf(s: Sched, id: usize)
    requires
        sched_wf(s),
    ensures
        sched_wf(wake_spec(s, id)),
{
    if id < s.tasks.len() {
        let s2 = wake_spec(s, id);
        assert forall|i: int| 0 <= i < s2.tasks.len() implies #[trigger] task_live_ok(s2, i) by {
            assert(task_live_ok(s, i));
            if s.queue.contains(i as usize) {
                lemma_contains_push(s.queue, id, i as usize);
            }
        }
    }
}

/// Moving the clock forward preserves the invariant.
pub proof fn lemma_set_now_wf(s: Sched, t: u64)
    requires
        sched_wf(s),
    ensures
        sched_wf(set_now_spec(s, t)),
{
    let s2 = set_now_spec(s, t);
    assert forall|i: int| 0 <= i < s2.tasks.len() implies #[trigger] task_live_ok(s2, i) by {
        assert(task_live_ok(s, i));
    }
}

/// Letting the clock catch up to the earliest deadline preserves the
/// invariant.
pub proof fn lemma_advance_wf(s: Sched)
    requires
        sched_wf(s),
    ensures
        sched_wf(advance_spec(s)),
{
    let s2 = advance_spec(s);
    assert forall|i: int| 0 <= i < s2.tasks.len() implies #[trigger] task_live_ok(s2, i) by {
        assert(task_live_ok(s, i));
    }
}

proof fn lemma_due_contains(timers: Seq<TimerEntry>, now: u64, j: int)
    requires
        0 <= j < timers.len(),
        timers[j].when <= now,
    ensures
        due_tasks(timers, now).contains(timers[j].task),
    decreases timers.len(),
{
    if j == timers.len() - 1 {
        let d = due_tasks(timers, now);
        assert(d[d.len() - 1] == timers[j].task);
    } else {
        assert(timers.drop_last()[j] == timers[j]);
        lemma_due_contains(timers.drop_last(), now, j);
        let p = due_tasks(timers.drop_last(), now);
        let k = choose|k: int| 0 <= k < p.len() && p[k] == timers[j].task;
        if timers.last().when <= now {
            assert(due_tasks(timers, now)[k] == timers[j].task);
        }
    }
}

proof fn lemma_live_contains(timers: Seq<TimerEntry>, now: u64, j: int)
    requires
        0 <= j < timers.len(),
        timers[j].when > now,
    ensures
        has_timer(live_timers(timers, now), timers[j].task),
    decreases timers.len(),
{
    if j == timers.len() - 1 {
        let l = live_timers(timers, now);
        assert(l[l.len() - 1].task == timers[j].task);
    } else {
        assert(timers.drop_last()[j] == timers[j]);
        lemma_live_contains(timers.drop_last(), now, j);
        let p = live_timers(timers.drop_last(), now);
        let k = choose|k: int| 0 <= k < p.len() && (#[trigger] p[k]).task == timers[j].task;
        if timers.last().when <= now {
        } else {
            assert(live_timers(timers, now)[k].task == timers[j].task);
        }
    }
}

proof fn lemma_live_sub(timers: Seq<TimerEntry>, now: u64)
    ensures
        forall|k: int|
            0 <= k < live_timers(timers, now).len() ==> timers.contains(
                #[trigger] live_timers(timers, now)[k],
            ),
    decreases timers.len(),
{
    if timers.len() > 0 {
        lemma_live_sub(timers.drop_last(), now);
        let p = live_timers(timers.drop_last(), now);
        assert forall|k: int|
            0 <= k < live_timers(timers, now).len() implies timers.contains(
            #[trigger] live_timers(timers, now)[k],
        ) by {
            if k < p.len() {
                assert(timers.drop_last().contains(p[k]));
                let j = choose|j: int|
                    0 <= j < timers.drop_last().len() && timers.drop_last()[j] == p[k];
                assert(timers[j] == p[k]);
            } else {
                assert(live_timers(timers, now)[k] == timers.last());
                assert(timers[timers.len() - 1] == timers.last());
            }
        }
    }
}

/// Whether some timer already due at tick `now` names task `x`.
pub open spec fn due_source(timers: Seq<TimerEntry>, now: u64, x: usize) -> bool {
    exists|j: int|
        0 <= j < timers.len() && (#[trigger] timers[j]).when <= now && timers[j].task == x
}

proof fn lemma_due_sub(timers: Seq<TimerEntry>, now: u64)
    ensures
        forall|k: int|
            0 <= k < due_tasks(timers, now).len() ==> due_source(
                timers,
                now,
                #[trigger] due_tasks(timers, now)[k],
            ),
    decreases timers.len(),
{
    if timers.len() > 0 {
        lemma_due_sub(timers.drop_last(), now);
        let p = due_tasks(timers.drop_last(), now);
        assert forall|k: int| 0 <= k < due_tasks(timers, now).len() implies due_source(
            timers,
            now,
            #[trigger] due_tasks(timers, now)[k],
        ) by {
            if k < p.len() {
                assert(due_tasks(timers, now)[k] == p[k]);
                assert(due_source(timers.drop_last(), now, p[k]));
                let j = choose|j: int|
                    0 <= j < timers.drop_last().len() && (#[trigger] timers.drop_last()[j]).when
                        <= now && timers.drop_last()[j].task == p[k];
                assert(timers[j] == timers.drop_last()[j]);
                assert(timers[j].when <= now && timers[j].task == due_tasks(timers, now)[k]);
            } else {
                assert(due_tasks(timers, now)[k] == timers.last().task);
                assert(timers[timers.len() - 1].when <= now);
                assert(timers[timers.len() - 1].task == due_tasks(timers, now)[k]);
            }
        }
    }
}

/// Firing the due timers preserves the invariant.
pub proof fn lemma_fire_wf(s: Sched)
    requires
        sched_wf(s),
    ensures
        sched_wf(fire_due_spec(s)),
{
    let s2 = fire_due_spec(s);
    lemma_due_sub(s.timers, s.now);
    lemma_live_sub(s.timers, s.now);
    assert forall|k: int| 0 <= k < s2.queue.len() implies (#[trigger] s2.queue[k])
        < s2.tasks.len() by {
        if k < s.queue.len() {
            assert(s2.queue[k] == s.queue[k]);
        } else {
            let q = due_tasks(s.timers, s.now);
            assert(s2.queue[k] == q[k - s.queue.len()]);
            assert(due_source(s.timers, s.now, q[k - s.queue.len()]));
            let j = choose|j: int|
                0 <= j < s.timers.len() && (#[trigger] s.timers[j]).when <= s.now
                    && s.timers[j].task == q[k - s.queue.len()];
            assert(timer_ok(s, s.timers[j]));
        }
    }
    assert forall|j: int| 0 <= j < s2.timers.len() implies timer_ok(s2, #[trigger] s2.timers[j])
        by {
        assert(s.timers.contains(s2.timers[j]));
        let k = choose|k: int| 0 <= k < s.timers.len() && s.timers[k] == s2.timers[j];
        assert(timer_ok(s, s.timers[k]));
    }
    assert forall|i: int| 0 <= i < s2.tasks.len() implies #[trigger] task_live_ok(s2, i) by {
        assert(task_live_ok(s, i));
        match s.tasks[i].computation {
            Some(Computation::Timer(d)) => {
                if !s.tasks[i].done && d.waker is None && s.queue.contains(i as usize) {
                    lemma_contains_concat_left(s.queue, due_tasks(s.timers, s.now), i as usize);
                }
                if !s.tasks[i].done && d.waker is Some {
                    if has_timer(s.timers, i as usize) {
                        let j = choose|j: int|
                            0 <= j < s.timers.len() && (#[trigger] s.timers[j]).task == i as usize;
                        assert(timer_ok(s, s.timers[j]));
                        assert(s.timers[j].when == d.when);
                        if s.timers[j].when <= s.now {
                            lemma_due_contains(s.timers, s.now, j);
                            assert(due_tasks(s.timers, s.now).contains(i as usize));
                            lemma_contains_concat_right(
                                s.queue,
                                due_tasks(s.timers, s.now),
                                i as usize,
                            );
                            assert(s2.queue.contains(i as usize));
                            assert(s2.now >= d.when);
                        } else {
                            lemma_live_contains(s.timers, s.now, j);
                        }
                    } else if s.queue.contains(i as usize) && s.now >= d.when {
                        lemma_contains_concat_left(
                            s.queue,
                            due_tasks(s.timers, s.now),
                            i as usize,
                        );
                    }
                }
            },
            None => {},
        }
    }
}

/// Taking the front queue entry and polling its task preserves the
/// invariant.
pub proof fn lemma_dispatch_wf(s: Sched)
    requires
        sched_wf(s),
        s.queue.len() > 0,
    ensures
        sched_wf(dispatch_spec(s)),
{
    let id = s.queue.first();
    let rest = s.queue.drop_first();
    assert(s.queue[0] == id);
    assert(id < s.tasks.len());
    let t = s.tasks[id as int];
    assert(!mid_poll(t));
    let s2 = dispatch_spec(s);
    if t.done {
        assert forall|i: int| 0 <= i < s2.tasks.len() implies #[trigger] task_live_ok(s2, i) by {
            assert(task_live_ok(s, i));
            match s.tasks[i].computation {
                Some(Computation::Timer(d)) => {
                    if !s.tasks[i].done && s.queue.contains(i as usize) {
                        assert(i as usize != id);
                        lemma_contains_drop_first_ne(s.queue, i as usize);
                    }
                },
                None => {},
            }
        }
    } else {
        let t2 = task_after_poll(t, s.now, id);
        match t.computation {
            Some(Computation::Timer(d)) => {
                if task_ready(t, s.now) {
                    let cm = CompletionModel { task: id, result: ready_text() };
                    assert(s2.tasks == s.tasks.update(id as int, t2));
                    assert(s2.completed == s.completed.push(cm));
                    lemma_count_done_update(s.tasks, id as int, t2);
                    assert forall|i: int|
                        0 <= i < s2.tasks.len() implies count_for(s2.completed, i as usize) == (
                    if (#[trigger] s2.tasks[i]).done {
                        1nat
                    } else {
                        0nat
                    }) by {
                        lemma_count_for_push(s.completed, cm, i as usize);
                        if i != id {
                            assert(s2.tasks[i] == s.tasks[i]);
                            assert(i as usize != id);
                        }
                    }
                    assert forall|j: int|
                        0 <= j < s2.timers.len() implies timer_ok(s2, #[trigger] s2.timers[j])
                        by {
                        assert(timer_ok(s, s.timers[j]));
                        if s.timers[j].task == id {
                            assert(s2.tasks[id as int].computation == t.computation);
                        }
                    }
                    assert forall|i: int|
                        0 <= i < s2.tasks.len() implies #[trigger] task_live_ok(s2, i) by {
                        assert(task_live_ok(s, i));
                        if i != id {
                            assert(s2.tasks[i] == s.tasks[i]);
                            match s.tasks[i].computation {
                                Some(Computation::Timer(di)) => {
                                    if !s.tasks[i].done && s.queue.contains(i as usize) {
                                        assert(i as usize != id);
                                        lemma_contains_drop_first_ne(s.queue, i as usize);
                                    }
                                },
                                None => {},
                            }
                        }
                    }
                    assert forall|j: int|
                        0 <= j < s2.completed.len() implies completion_ok(
                        s2,
                        #[trigger] s2.completed[j],
                    ) by {
                        if j < s.completed.len() {
                            assert(completion_ok(s, s.completed[j]));
                            assert(s2.completed[j] == s.completed[j]);
                            if s.completed[j].task == id {
                                assert(s2.tasks[id as int].done);
                            }
                        } else {
                            assert(s2.completed[j] == cm);
                        }
                    }
                } else {
                    // pending: the task stores the scheduler's handle
                    assert(s.now < d.when);
                    match s2.tasks[id as int].computation {
                        Some(Computation::Timer(d2)) => {
                            assert(d2.when == d.when && d2.waker == Some(id));
                        },
                        None => {
                            assert(false);
                        },
                    }
                    lemma_count_done_update(s.tasks, id as int, t2);
                    assert forall|i: int|
                        0 <= i < s2.tasks.len() implies count_for(s2.completed, i as usize) == (
                    if (#[trigger] s2.tasks[i]).done {
                        1nat
                    } else {
                        0nat
                    }) by {
                        if i != id {
                            assert(s2.tasks[i] == s.tasks[i]);
                        } else {
                            assert(s2.tasks[i].done == s.tasks[i].done);
                        }
                    }
                    assert forall|j: int|
                        0 <= j < s2.completed.len() implies completion_ok(
                        s2,
                        #[trigger] s2.completed[j],
                    ) by {
                        assert(completion_ok(s, s.completed[j]));
                        if s.completed[j].task == id {
                            assert(s.tasks[id as int].done);
                            assert(false);
                        }
                    }
                    assert forall|j: int|
                        0 <= j < s2.timers.len() implies timer_ok(s2, #[trigger] s2.timers[j])
                        by {
                        if j < s.timers.len() {
                            assert(s2.timers[j] == s.timers[j]);
                            assert(timer_ok(s, s.timers[j]));
                        } else {
                            assert(s2.timers[j] == (TimerEntry { when: d.when, task: id }));
                        }
                    }
                    assert forall|i: int|
                        0 <= i < s2.tasks.len() implies #[trigger] task_live_ok(s2, i) by {
                        assert(task_live_ok(s, i));
                        if i != id {
                            assert(s2.tasks[i] == s.tasks[i]);
                            match s.tasks[i].computation {
                                Some(Computation::Timer(di)) => {
                                    if !s.tasks[i].done && s.queue.contains(i as usize) {
                                        assert(i as usize != id);
                                        lemma_contains_drop_first_ne(s.queue, i as usize);
                                    }
                                    if !s.tasks[i].done && di.waker is Some && has_timer(
                                        s.timers,
                                        i as usize,
                                    ) {
                                        let j = choose|j: int|
                                            0 <= j < s.timers.len() && (#[trigger] s.timers[j]).task
                                                == i as usize;
                                        assert(s2.timers[j].task == i as usize);
                                        assert(has_timer(s2.timers, i as usize));
                                    }
                                },
                                None => {},
                            }
                        } else {
                            // the polled task: it is now armed, covered by a
                            // timer entry, fresh or inherited
                            if d.waker is None {
                                assert(s2.timers[s.timers.len() as int].task == id);
                                assert(has_timer(s2.timers, id));
                            } else {
                                assert(has_timer(s.timers, id) || (s.queue.contains(id) && s.now
                                    >= d.when));
                                assert(has_timer(s.timers, id));
                                let j = choose|j: int|
                                    0 <= j < s.timers.len() && (#[trigger] s.timers[j]).task == id;
                                assert(s2.timers[j].task == id);
                                assert(has_timer(s2.timers, id));
                            }
                        }
                    }
                }
            },
            None => {
                assert(false);
            },
        }
    }
}

/// One step never forgets: tasks stay, surfaced results stay, the
/// clock never moves back.
pub proof fn lemma_step_frame(s: Sched)
    ensures
        sched_step(s).tasks.len() == s.tasks.len(),
        s.completed.is_prefix_of(sched_step(s).completed),
        sched_step(s).now >= s.now,
{
    let s2 = sched_step(s);
    assert(s.completed =~= s.completed.subrange(0, s.completed.len() as int));
    if s2.completed.len() > s.completed.len() {
        assert(s.completed =~= s2.completed.subrange(0, s.completed.len() as int));
    }
}

/// Every step of the run loop preserves the invariant.
pub proof fn lemma_step_wf(s: Sched)
    requires
        sched_wf(s),
        !sched_done(s),
    ensures
        sched_wf(sched_step(s)),
{
    if s.queue.len() > 0 {
        lemma_dispatch_wf(s);
    } else {
        lemma_advance_wf(s);
        lemma_fire_wf(advance_spec(s));
    }
}

/// Running a well-formed scheduler to quiescence retires every task
/// and surfaces exactly one result per task; nothing surfaced earlier
/// is lost and the clock never moves back.
pub proof fn lemma_run_props(s: Sched)
    requires
        sched_wf(s),
    ensures
        ({
            let r = sched_run(s);
            &&& sched_done(r)
            &&& sched_wf(r)
            &&& r.tasks.len() == s.tasks.len()
            &&& forall|i: int| 0 <= i < r.tasks.len() ==> (#[trigger] r.tasks[i]).done
            &&& r.completed.len() == r.tasks.len()
            &&& s.completed.is_prefix_of(r.completed)
            &&& r.now >= s.now
            &&& forall|i: int|
                0 <= i < r.tasks.len() ==> #[trigger] count_for(r.completed, i as usize) == 1
        }),
    decreases phi(s),
{
    let r = sched_run(s);
    if sched_done(s) {
        assert forall|i: int| 0 <= i < s.tasks.len() implies (#[trigger] s.tasks[i]).done by {
            assert(task_live_ok(s, i));
            assert(!mid_poll(s.tasks[i]));
            if !s.tasks[i].done {
                match s.tasks[i].computation {
                    Some(Computation::Timer(d)) => {
                        assert(!s.queue.contains(i as usize));
                        assert(!has_timer(s.timers, i as usize));
                        assert(false);
                    },
                    None => {
                        assert(false);
                    },
                }
            }
        }
        lemma_count_done_all(s.tasks);
        assert forall|i: int|
            0 <= i < s.tasks.len() implies #[trigger] count_for(s.completed, i as usize) == 1 by {
            assert(s.tasks[i].done);
        }
        assert(s.completed =~= s.completed.subrange(0, s.completed.len() as int));
    } else {
        lemma_step_phi(s);
        lemma_step_wf(s);
        lemma_step_frame(s);
        let m = sched_step(s);
        lemma_run_props(m);
        assert(s.completed =~= r.completed.subrange(0, s.completed.len() as int)) by {
            assert(m.completed =~= r.completed.subrange(0, m.completed.len() as int));
            assert(s.completed =~= m.completed.subrange(0, s.completed.len() as int));
            assert forall|k: int| 0 <= k < s.completed.len() implies s.completed[k]
                == r.completed.subrange(0, s.completed.len() as int)[k] by {
                assert(s.completed[k] == m.completed[k]);
                assert(m.completed[k] == r.completed[k]);
            }
        }
    }
}

/// The scheduler after `n` consecutive wakes of task `id`.
pub open spec fn wakes(s: Sched, id: usize, n: nat) -> Sched
    decreases n,
{
    if n == 0 {
        s
    } else {
        wake_spec(wakes(s, id, (n - 1) as nat), id)
    }
}

proof fn lemma_wakes_shape(s: Sched, id: usize, n: nat)
    requires
        sched_wf(s),
        id < s.tasks.len(),
    ensures
        sched_wf(wakes(s, id, n)),
        wakes(s, id, n).queue.len() == s.queue.len() + n,
        wakes(s, id, n).tasks == s.tasks,
    decreases n,
{
    if n > 0 {
        lemma_wakes_shape(s, id, (n - 1) as nat);
        lemma_wake_wf(wakes(s, id, (n - 1) as nat), id);
    }
}

/// Waking a task `n ≥ 1` times yields exactly `n` extra queue entries,
/// yet running to quiescence still retires every task with exactly one
/// surfaced result each: extra wakes are harmless no-ops.
pub proof fn lemma_wake_idempotent(s: Sched, id: usize, n: nat)
    requires
        sched_wf(s),
        id < s.tasks.len(),
        n >= 1,
    ensures
        ({
            let r = sched_run(wakes(s, id, n));
            &&& wakes(s, id, n).queue.len() == s.queue.len() + n
            &&& sched_done(r)
            &&& r.completed.len() == s.tasks.len()
            &&& forall|i: int|
                0 <= i < s.tasks.len() ==> #[trigger] count_for(r.completed, i as usize) == 1
        }),
{
    lemma_wakes_shape(s, id, n);
    lemma_run_props(wakes(s, id, n));
}

proof fn lemma_due_live_one(e: TimerEntry, now: u64)
    ensures
        due_tasks(seq![e], now) == (if e.when <= now {
            seq![e.task]
        } else {
            Seq::<usize>::empty()
        }),
        live_timers(seq![e], now) == (if e.when <= now {
            Seq::<TimerEntry>::empty()
        } else {
            seq![e]
        }),
{
    assert(seq![e].drop_last() =~= Seq::<TimerEntry>::empty());
    assert(seq![e].last() == e);
    assert(due_tasks(Seq::<TimerEntry>::empty(), now) == Seq::<usize>::empty());
    assert(live_timers(Seq::<TimerEntry>::empty(), now) == Seq::<TimerEntry>::empty());
    if e.when <= now {
        assert(due_tasks(seq![e], now) =~= seq![e.task]);
        assert(live_timers(seq![e], now) =~= Seq::<TimerEntry>::empty());
    } else {
        assert(due_tasks(seq![e], now) =~= Seq::<usize>::empty());
        assert(live_timers(seq![e], now) =~= seq![e]);
    }
}

/// Spawning one timer with deadline `when` on a fresh scheduler at
/// tick `start` and running to quiescence surfaces exactly its one
/// result, and the clock never runs past the deadline: the loop
/// returns as soon as the timer has fired.
pub proof fn lemma_single_timer(start: u64, when: u64)
    ensures
        ({
            let s0 = spawn_spec(
                init_spec(start),
                Computation::Timer(Delay { when, waker: None::<usize> }),
            );
            let r = sched_run(s0);
            &&& sched_done(r)
            &&& r.completed.len() == 1
            &&& r.completed[0] == (CompletionModel { task: 0, result: ready_text() })
            &&& r.now == (if start >= when {
                start
            } else {
                when
            })
        }),
{
    let c = Computation::Timer(Delay { when, waker: None::<usize> });
    let t0 = Task { computation: Some(c), done: false };
    let s0 = spawn_spec(init_spec(start), c);
    assert(s0.queue =~= seq![0usize]);
    assert(s0.tasks =~= seq![t0]);
    let cm = CompletionModel { task: 0, result: ready_text() };
    if start >= when {
        // due at once: the first poll completes it
        let s1 = dispatch_spec(s0);
        assert(s1.queue =~= Seq::<usize>::empty());
        assert(s1.timers =~= Seq::<TimerEntry>::empty());
        assert(s1.completed =~= seq![cm]);
        assert(sched_step(s0) == s1);
        assert(sched_done(s1));
        assert(sched_run(s1) == s1);
        assert(sched_run(s0) == sched_run(s1));
    } else {
        // first poll: pending, handle stored, one timer armed
        let t1 = Task {
            computation: Some(Computation::Timer(Delay { when, waker: Some(0usize) })),
            done: false,
        };
        let e = TimerEntry { when, task: 0 };
        let s1 = dispatch_spec(s0);
        assert(s1.queue =~= Seq::<usize>::empty());
        assert(s1.tasks =~= seq![t1]);
        assert(s1.timers =~= seq![e]);
        assert(s1.completed =~= Seq::<CompletionModel>::empty());
        assert(s1.now == start);
        assert(sched_step(s0) == s1);
        // the clock catches up and the timer fires
        assert(min_due(s1.timers) == when);
        let s1a = advance_spec(s1);
        assert(s1a.now == when);
        lemma_due_live_one(e, when);
        assert(due_tasks(s1a.timers, when) =~= seq![0usize]);
        assert(live_timers(s1a.timers, when) =~= Seq::<TimerEntry>::empty());
        let s2 = fire_due_spec(s1a);
        assert(s2.queue =~= seq![0usize]);
        assert(s2.timers =~= Seq::<TimerEntry>::empty());
        assert(s2.tasks =~= seq![t1]);
        assert(s2.now == when);
        assert(sched_step(s1) == s2);
        // the woken poll completes it
        let s3 = dispatch_spec(s2);
        assert(s3.queue =~= Seq::<usize>::empty());
        assert(s3.timers =~= Seq::<TimerEntry>::empty());
        assert(s3.completed =~= seq![cm]);
        assert(s3.now == when);
        assert(sched_step(s2) == s3);
        assert(sched_done(s3));
        assert(sched_run(s3) == s3);
        assert(sched_run(s2) == sched_run(s3));
        assert(sched_run(s1) == sched_run(s2));
        assert(sched_run(s0) == sched_run(s1));
    }
}

/// Two timer computations whose deadlines both lie ahead complete in
/// wake order — the order of their deadlines — not in spawn order:
/// here the second spawn holds the earlier deadline and surfaces
/// first.
pub proof fn lemma_fifo_wake_order(start: u64, d1: u64, d2: u64)
    requires
        start < d1,
        d1 < d2,
    ensures
        ({
            let s0 = spawn_spec(
                spawn_spec(init_spec(start), Computation::Timer(Delay { when: d2, waker: None::<usize> })),
                Computation::Timer(Delay { when: d1, waker: None::<usize> }),
            );
            let r = sched_run(s0);
            &&& sched_done(r)
            &&& r.completed.len() == 2
            &&& r.completed[0] == (CompletionModel { task: 1, result: ready_text() })
            &&& r.completed[1] == (CompletionModel { task: 0, result: ready_text() })
        }),
{
    let ca = Computation::Timer(Delay { when: d2, waker: None::<usize> });
    let cb = Computation::Timer(Delay { when: d1, waker: None::<usize> });
    let ta0 = Task { computation: Some(ca), done: false };
    let tb0 = Task { computation: Some(cb), done: false };
    let ta1 = Task {
        computation: Some(Computation::Timer(Delay { when: d2, waker: Some(0usize) })),
        done: false,
    };
    let tb1 = Task {
        computation: Some(Computation::Timer(Delay { when: d1, waker: Some(1usize) })),
        done: false,
    };
    let tb2 = Task { computation: tb1.computation, done: true };
    let ta2 = Task { computation: ta1.computation, done: true };
    let ea = TimerEntry { when: d2, task: 0 };
    let eb = TimerEntry { when: d1, task: 1 };
    let cma = CompletionModel { task: 0, result: ready_text() };
    let cmb = CompletionModel { task: 1, result: ready_text() };
    let s0 = spawn_spec(spawn_spec(init_spec(start), ca), cb);
    assert(s0.queue =~= seq![0usize, 1usize]);
    assert(s0.tasks =~= seq![ta0, tb0]);
    // both polls find their deadlines ahead; each arms one timer
    let s1 = dispatch_spec(s0);
    assert(s1.queue =~= seq![1usize]);
    assert(s1.tasks =~= seq![ta1, tb0]);
    assert(s1.timers =~= seq![ea]);
    assert(s1.now == start);
    assert(sched_step(s0) == s1);
    let s2 = dispatch_spec(s1);
    assert(s2.queue =~= Seq::<usize>::empty());
    assert(s2.tasks =~= seq![ta1, tb1]);
    assert(s2.timers =~= seq![ea, eb]);
    assert(s2.completed =~= Seq::<CompletionModel>::empty());
    assert(s2.now == start);
    assert(sched_step(s1) == s2);
    // the earlier deadline fires first
    assert(s2.timers.drop_last() =~= seq![ea]);
    assert(min_due(seq![ea]) == d2);
    assert(min_due(s2.timers) == d1);
    let s2a = advance_spec(s2);
    assert(s2a.now == d1);
    lemma_due_live_one(ea, d1);
    assert(s2.timers.last() == eb);
    assert(due_tasks(s2.timers, d1) =~= seq![1usize]);
    assert(live_timers(s2.timers, d1) =~= seq![ea]);
    let s3 = fire_due_spec(s2a);
    assert(s3.queue =~= seq![1usize]);
    assert(s3.timers =~= seq![ea]);
    assert(s3.tasks =~= seq![ta1, tb1]);
    assert(s3.now == d1);
    assert(sched_step(s2) == s3);
    // task 1 completes first
    let s4 = dispatch_spec(s3);
    assert(s4.queue =~= Seq::<usize>::empty());
    assert(s4.tasks =~= seq![ta1, tb2]);
    assert(s4.timers =~= seq![ea]);
    assert(s4.completed =~= seq![cmb]);
    assert(s4.now == d1);
    assert(sched_step(s3) == s4);
    // then the later deadline fires
    assert(min_due(s4.timers) == d2);
    let s4a = advance_spec(s4);
    assert(s4a.now == d2);
    lemma_due_live_one(ea, d2);
    assert(due_tasks(s4.timers, d2) =~= seq![0usize]);
    assert(live_timers(s4.timers, d2) =~= Seq::<TimerEntry>::empty());
    let s5 = fire_due_spec(s4a);
    assert(s5.queue =~= seq![0usize]);
    assert(s5.timers =~= Seq::<TimerEntry>::empty());
    assert(s5.tasks =~= seq![ta1, tb2]);
    assert(s5.now == d2);
    assert(sched_step(s4) == s5);
    // and task 0 completes second
    let s6 = dispatch_spec(s5);
    assert(s6.queue =~= Seq::<usize>::empty());
    assert(s6.timers =~= Seq::<TimerEntry>::empty());
    assert(s6.tasks =~= seq![ta2, tb2]);
    assert(s6.completed =~= seq![cmb, cma]);
    assert(sched_step(s5) == s6);
    assert(sched_done(s6));
    assert(sched_run(s6) == s6);
    assert(sched_run(s5) == sched_run(s6));
    assert(sched_run(s4) == sched_run(s5));
    assert(sched_run(s3) == sched_run(s4));
    assert(sched_run(s2) == sched_run(s3));
    assert(sched_run(s1) == sched_run(s2));
    assert(sched_run(s0) == sched_run(s1));
}

} // verus!
