//! System-wide guarantees of the dispatcher, stated over its mathematical
//! image and proved once and for all: mutual exclusion under the ceiling
//! protocol, priority-ordered dispatch, rejection of spawns past capacity,
//! and loss-free round trips of resource values across arbitrary
//! preemption.
use crate::kernel::{
    lemma_best_pending_upto, lemma_running_sharer_excludes, KernelView,
};
use crate::timer::TimerEntry;
use vstd::prelude::*;

verus! {

/// One occurrence in the life of the system, as the dispatcher sees it.
pub enum Event {
    /// A software-triggered activation with its payload.
    Spawn(usize, u32),
    /// A future activation request at an absolute timestamp.
    Schedule(usize, u32, u64),
    /// The end of the initialization phase.
    Start,
    /// A dispatch decision at a preemption point.
    Dispatch,
    /// The running task's entry function returning.
    Complete,
    /// The running task entering a critical section.
    LockEnter(usize),
    /// The running task leaving a critical section.
    LockExit(usize),
    /// A store into a resource (late initialization or a task's write).
    Write(usize, u32),
    /// The monotonic counter reaching a new value.
    Advance(u64),
}

/// The state after one event: exactly the transition the corresponding
/// kernel operation ensures.
pub open spec fn step(v: KernelView, e: Event) -> KernelView {
    match e {
        Event::Spawn(t, p) => v.spawn_tr(t, p),
        Event::Schedule(t, p, ts) => v.schedule_tr(t, p, ts),
        Event::Start => v.start_tr(),
        Event::Dispatch => v.dispatch_tr(),
        Event::Complete => v.complete_tr(),
        Event::LockEnter(r) => v.lock_enter_tr(r),
        Event::LockExit(r) => v.lock_exit_tr(r),
        Event::Write(r, x) => v.write_tr(r, x),
        Event::Advance(now) => v.advance_tr(now),
    }
}

/// The state after a whole run of events, oldest first.
pub open spec fn run(v: KernelView, es: Seq<Event>) -> KernelView
    decreases es.len(),
{
    if es.len() == 0 {
        v
    } else {
        run(step(v, es[0]), es.skip(1))
    }
}

/// Whether an event stores into resource `r`.
pub open spec fn writes_resource(e: Event, r: usize) -> bool {
    match e {
        Event::Write(r2, _) => r2 == r,
        _ => false,
    }
}

/// Delivering expired timer entries never touches the resource table.
proof fn lemma_deliver_keeps_resources(v: KernelView, es: Seq<TimerEntry<u32>>)
    ensures
        v.deliver(es).resources == v.resources,
    decreases es.len(),
{
    if es.len() > 0 {
        lemma_deliver_keeps_resources(v.spawn_tr(es[0].task, es[0].payload), es.skip(1));
    }
}

/// No single event other than a write to `r` moves `r`'s value.
pub proof fn lemma_step_preserves_value(v: KernelView, e: Event, r: int)
    requires
        0 <= r < v.resources.len(),
        !writes_resource(e, r as usize),
    ensures
        step(v, e).resources.len() == v.resources.len(),
        step(v, e).resources[r].value == v.resources[r].value,
{
    match e {
        Event::Spawn(t, p) => {
            assert(step(v, e) == v.spawn_tr(t, p));
        },
        Event::Schedule(t, p, ts) => {
            assert(step(v, e) == v.schedule_tr(t, p, ts));
        },
        Event::Start => {},
        Event::Dispatch => {},
        Event::Complete => {},
        Event::LockEnter(r2) => {
            assert(step(v, e).resources[r].value == v.resources[r].value);
        },
        Event::LockExit(r2) => {
            assert(step(v, e).resources[r].value == v.resources[r].value);
        },
        Event::Write(r2, x) => {
            assert(r2 != r);
        },
        Event::Advance(now) => {
            let k = crate::timer::split_index(v.timer, v.timer_base, now);
            let moved = KernelView { timer: v.timer.skip(k), timer_base: now, ..v };
            lemma_deliver_keeps_resources(moved, v.timer.take(k));
        },
    }
}

/// A value once stored in a resource survives any run of events that does
/// not write that resource, however many preemptions, dispatches, lock
/// entries and exits, spawns and timer expiries the run contains.
pub proof fn lemma_value_preserved_by_run(v: KernelView, es: Seq<Event>, r: int)
    requires
        0 <= r < v.resources.len(),
        forall|i: int| 0 <= i < es.len() ==> !writes_resource(#[trigger] es[i], r as usize),
    ensures
        run(v, es).resources.len() == v.resources.len(),
        run(v, es).resources[r].value == v.resources[r].value,
    decreases es.len(),
{
    if es.len() > 0 {
        lemma_step_preserves_value(v, es[0], r);
        assert forall|i: int| 0 <= i < es.skip(1).len() implies !writes_resource(
            #[trigger] es.skip(1)[i],
            r as usize,
        ) by {
            assert(es.skip(1)[i] == es[i + 1]);
        }
        lemma_value_preserved_by_run(step(v, es[0]), es.skip(1), r);
    }
}

/// Round trip: a value written into a resource is visible, unchanged, to
/// every later read, no matter which events other than a write of that
/// resource came between — no intermediate value is ever lost. Combined
/// with `read_resource`'s contract (the read returns exactly the stored
/// value) this covers the write of the highest-priority sharer followed by
/// a lock-read of any lower sharer.
pub proof fn lemma_write_read_round_trip(v: KernelView, r: usize, x: u32, es: Seq<Event>)
    requires
        (r as int) < v.resources.len(),
        forall|i: int| 0 <= i < es.len() ==> !writes_resource(#[trigger] es[i], r),
    ensures
        run(v.write_tr(r, x), es).resources[r as int].value == x,
{
    lemma_value_preserved_by_run(v.write_tr(r, x), es, r as int);
}

/// Mutual exclusion: two tasks are never inside a critical section on the
/// same resource, and stronger, while any task sharing resource `r` is the
/// running task, the only task possibly inside a section on `r` is that
/// task itself — so its lock entry never waits and no two sharers ever
/// observe the contents concurrently.
pub proof fn lemma_no_concurrent_access(v: KernelView, r: usize, s: usize)
    requires
        v.wf(),
        v.stack.len() > 0,
        r < v.resources.len(),
        v.has_cap(v.stack.last(), r),
        v.holds(s, r),
    ensures
        s == v.stack.last(),
{
    lemma_running_sharer_excludes(v, r, s);
}

/// Priority order: while an instance of a higher static priority is
/// pending, the dispatch rule never selects a lower-priority pending
/// instance, whatever their activation order was.
pub proof fn lemma_priority_order(v: KernelView, t1: usize, t2: usize)
    requires
        v.wf(),
        v.pending(t1),
        v.pending(t2),
        v.tasks[t1 as int].priority > v.tasks[t2 as int].priority,
    ensures
        v.dispatch_choice() is Some,
        v.dispatch_choice() != Some(t2),
{
    lemma_best_pending_upto(v, v.tasks.len() as int);
}

/// A queue at capacity rejects a spawn outright and is left exactly as it
/// was — so every further attempt fails the same way until dispatch drains
/// the queue.
pub proof fn lemma_spawn_at_capacity_rejected(v: KernelView, t: usize, p: u32)
    requires
        t < v.tasks.len(),
        v.tasks[t as int].queue.len() >= v.tasks[t as int].capacity,
    ensures
        !v.spawn_ok(t),
        v.spawn_tr(t, p) == v,
{
}

} // verus!
