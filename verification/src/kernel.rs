//! The dispatcher: the interrupt-driven core that decides which pending
//! task instance runs next, manages preemption, and arbitrates shared
//! resources by the priority-ceiling protocol.
//!
//! The model is a single-core, fully preemptive, priority-driven machine.
//! The started tasks form a stack: the top entry is the one `Running` task,
//! the entries below it are `Suspended-by-preemption`, and every preemptor
//! entered with a static priority strictly above the effective (ceiling-
//! raised) priority of the task it preempted. A task not on the stack is
//! `Pending` exactly when its message queue holds an instance, else `Idle`.
//! The idle task is implicit: it runs whenever the stack is empty, and is
//! preempted by any admitted task.
use crate::ceiling::{compute_ceilings, is_ceiling, task_refs, TaskDecl};
use crate::msg_queue::MessageQueue;
use crate::timer::{split_index, wrap_dist, TimerEntry, TimerQueue};
use crate::{ConfigError, FatalError, QueueFull};
use vstd::prelude::*;

verus! {

/// Lifecycle states of a task as the dispatcher sees them.
#[derive(Clone, Copy, PartialEq, Eq, Structural, Debug)]
pub enum TaskState {
    /// No pending instance.
    Idle,
    /// An instance is queued but not yet running.
    Pending,
    /// Currently executing (top of the preemption stack).
    Running,
    /// Was running, preempted by a higher-priority task.
    Suspended,
}

/// Runtime control block of one task: its fixed configuration and its
/// message queue of pending activation payloads.
pub struct TaskControl {
    priority: u8,
    caps: Vec<usize>,
    queue: MessageQueue<u32>,
}

/// One shared resource: its current contents, its statically computed
/// ceiling priority, and the task currently inside a critical section on
/// it, if any.
pub struct ResourceCell {
    value: u32,
    ceiling: u8,
    holder: Option<usize>,
}

/// Mathematical image of one task.
#[verifier::ext_equal]
pub ghost struct TaskView {
    pub priority: u8,
    pub caps: Seq<usize>,
    pub queue: Seq<u32>,
    pub capacity: nat,
}

/// Mathematical image of one resource cell.
#[verifier::ext_equal]
pub ghost struct ResourceView {
    pub value: u32,
    pub ceiling: u8,
    pub holder: Option<usize>,
}

/// Mathematical image of the whole dispatcher state.
#[verifier::ext_equal]
pub ghost struct KernelView {
    pub tasks: Seq<TaskView>,
    pub resources: Seq<ResourceView>,
    pub stack: Seq<usize>,
    pub timer: Seq<TimerEntry<u32>>,
    pub timer_base: u64,
    pub timer_capacity: nat,
    pub started: bool,
}

impl View for TaskControl {
    type V = TaskView;

    closed spec fn view(&self) -> TaskView {
        TaskView {
            priority: self.priority,
            caps: self.caps@,
            queue: self.queue@,
            capacity: self.queue.spec_capacity(),
        }
    }
}

impl View for ResourceCell {
    type V = ResourceView;

    closed spec fn view(&self) -> ResourceView {
        ResourceView { value: self.value, ceiling: self.ceiling, holder: self.holder }
    }
}

/// The highest ceiling among the first `n` resources whose critical section
/// the task `t` is currently inside, or 0 when there is none.
pub open spec fn held_ceiling_upto(rs: Seq<ResourceView>, t: usize, n: int) -> int
    decreases n,
{
    if n <= 0 {
        0
    } else {
        let rest = held_ceiling_upto(rs, t, n - 1);
        if rs[n - 1].holder == Some(t) && rs[n - 1].ceiling > rest {
            rs[n - 1].ceiling as int
        } else {
            rest
        }
    }
}

/// The highest ceiling among all resources held by `t`, or 0.
pub open spec fn held_ceiling(rs: Seq<ResourceView>, t: usize) -> int {
    held_ceiling_upto(rs, t, rs.len() as int)
}

pub proof fn lemma_held_ceiling_nonneg(rs: Seq<ResourceView>, t: usize, n: int)
    ensures
        held_ceiling_upto(rs, t, n) >= 0,
    decreases n,
{
    if n > 0 {
        lemma_held_ceiling_nonneg(rs, t, n - 1);
    }
}

/// Holding a resource raises the held ceiling at least to its ceiling.
pub proof fn lemma_held_ceiling_at_least(rs: Seq<ResourceView>, t: usize, r: int, n: int)
    requires
        0 <= r < n,
        rs[r].holder == Some(t),
    ensures
        held_ceiling_upto(rs, t, n) >= rs[r].ceiling,
    decreases n,
{
    if r < n - 1 {
        lemma_held_ceiling_at_least(rs, t, r, n - 1);
    }
}

/// The held ceiling depends only on holders and ceilings, not on values.
pub proof fn lemma_held_ceiling_same_locks(
    a: Seq<ResourceView>,
    b: Seq<ResourceView>,
    t: usize,
    n: int,
)
    requires
        n <= a.len(),
        a.len() == b.len(),
        forall|i: int|
            0 <= i < a.len() ==> (#[trigger] b[i]).holder == a[i].holder && b[i].ceiling
                == a[i].ceiling,
    ensures
        held_ceiling_upto(a, t, n) == held_ceiling_upto(b, t, n),
    decreases n,
{
    if n > 0 {
        lemma_held_ceiling_same_locks(a, b, t, n - 1);
    }
}

/// Changing one resource whose critical section `t` is not inside (before
/// or after the change) leaves `t`'s held ceiling unchanged.
pub proof fn lemma_held_ceiling_update_other(
    rs: Seq<ResourceView>,
    r: int,
    cell: ResourceView,
    t: usize,
    n: int,
)
    requires
        0 <= r < rs.len(),
        n <= rs.len(),
        rs[r].holder != Some(t),
        cell.holder != Some(t),
    ensures
        held_ceiling_upto(rs.update(r, cell), t, n) == held_ceiling_upto(rs, t, n),
    decreases n,
{
    if n > 0 {
        lemma_held_ceiling_update_other(rs, r, cell, t, n - 1);
    }
}

impl KernelView {
    /// The task currently running: the top of the preemption stack, or
    /// none when the idle task runs.
    pub open spec fn running(self) -> Option<usize> {
        if self.stack.len() == 0 {
            None
        } else {
            Some(self.stack.last())
        }
    }

    /// Task `t` may access resource `r` (declared in its capability set).
    pub open spec fn has_cap(self, t: usize, r: usize) -> bool {
        t < self.tasks.len() && self.tasks[t as int].caps.contains(r)
    }

    /// Task `t` is inside a critical section on resource `r`.
    pub open spec fn holds(self, t: usize, r: usize) -> bool {
        r < self.resources.len() && self.resources[r as int].holder == Some(t)
    }

    /// Task `t` is inside no critical section (its locks are balanced).
    pub open spec fn holds_no_resource(self, t: usize) -> bool {
        forall|r: int|
            0 <= r < self.resources.len() ==> (#[trigger] self.resources[r]).holder != Some(t)
    }

    /// An instance of `t` is queued and `t` has not been started.
    pub open spec fn pending(self, t: usize) -> bool {
        t < self.tasks.len() && !self.stack.contains(t) && self.tasks[t as int].queue.len() > 0
    }

    /// The effective priority of `t`: its static priority, raised to the
    /// highest ceiling among the resources whose critical section it is
    /// inside.
    pub open spec fn eff_prio(self, t: usize) -> int {
        let held = held_ceiling(self.resources, t);
        if t < self.tasks.len() && self.tasks[t as int].priority > held {
            self.tasks[t as int].priority as int
        } else {
            held
        }
    }

    /// The dispatcher-visible lifecycle state of task `t`.
    pub open spec fn task_state(self, t: usize) -> TaskState {
        if self.stack.len() > 0 && self.stack.last() == t {
            TaskState::Running
        } else if self.stack.contains(t) {
            TaskState::Suspended
        } else if t < self.tasks.len() && self.tasks[t as int].queue.len() > 0 {
            TaskState::Pending
        } else {
            TaskState::Idle
        }
    }

    /// A sharer's priority never exceeds its resource's ceiling.
    pub open spec fn cap_le_ceiling(self, r: int, t: int) -> bool {
        self.tasks[t].caps.contains(r as usize) ==> self.tasks[t].priority
            <= self.resources[r].ceiling
    }

    /// Some sharer's priority equals the resource's ceiling.
    pub open spec fn ceiling_witnessed(self, r: int) -> bool {
        exists|t: int|
            0 <= t < self.tasks.len() && (#[trigger] self.tasks[t].caps).contains(r as usize)
                && self.tasks[t].priority == self.resources[r].ceiling
    }

    /// Static configuration facts: positive priorities, queues within
    /// capacity, capabilities inside the resource table, and every ceiling
    /// equal to the highest priority among the tasks sharing the resource.
    pub open spec fn wf_config(self) -> bool {
        &&& forall|t: int| 0 <= t < self.tasks.len() ==> (#[trigger] self.tasks[t]).priority >= 1
        &&& forall|t: int|
            0 <= t < self.tasks.len() ==> (#[trigger] self.tasks[t]).queue.len()
                <= self.tasks[t].capacity
        &&& forall|t: int, k: int|
            0 <= t < self.tasks.len() && 0 <= k < self.tasks[t].caps.len()
                ==> (#[trigger] self.tasks[t].caps[k]) < self.resources.len()
        &&& forall|r: int, t: int|
            0 <= r < self.resources.len() && 0 <= t < self.tasks.len()
                ==> #[trigger] self.cap_le_ceiling(r, t)
        &&& forall|r: int| 0 <= r < self.resources.len() ==> #[trigger] self.ceiling_witnessed(r)
    }

    /// The preemption stack holds distinct started tasks, and each entry
    /// entered with a static priority strictly above the effective priority
    /// of the task below it.
    pub open spec fn wf_stack(self) -> bool {
        &&& forall|i: int| 0 <= i < self.stack.len() ==> (#[trigger] self.stack[i]) < self.tasks.len()
        &&& forall|i: int, j: int| 0 <= i < j < self.stack.len() ==> self.stack[i] != self.stack[j]
        &&& forall|i: int|
            0 <= i < self.stack.len() - 1 ==> (self.tasks[self.stack[i + 1] as int].priority as int)
                > self.eff_prio(#[trigger] self.stack[i])
    }

    /// A held resource is held by a started task that shares it.
    pub open spec fn wf_holders(self) -> bool {
        forall|r: int|
            0 <= r < self.resources.len() ==> ((#[trigger] self.resources[r]).holder matches Some(t)
                ==> self.stack.contains(t) && self.has_cap(t, r as usize))
    }

    /// The timer queue is within capacity, ordered by forward distance from
    /// its base, and targets declared tasks.
    pub open spec fn wf_timer(self) -> bool {
        &&& self.timer.len() <= self.timer_capacity
        &&& forall|i: int, j: int|
            0 <= i < j < self.timer.len() ==> wrap_dist(
                self.timer_base,
                (#[trigger] self.timer[i]).timestamp,
            ) <= wrap_dist(self.timer_base, (#[trigger] self.timer[j]).timestamp)
        &&& forall|i: int| 0 <= i < self.timer.len() ==> (#[trigger] self.timer[i]).task < self.tasks.len()
    }

    /// The dispatcher invariant: every constructor establishes it and every
    /// operation preserves it. Before `start`, nothing has run yet.
    pub open spec fn wf(self) -> bool {
        &&& self.wf_config()
        &&& self.wf_stack()
        &&& self.wf_holders()
        &&& self.wf_timer()
        &&& !self.started ==> self.stack.len() == 0
    }

    /// The target's queue has room for one more pending instance.
    pub open spec fn spawn_ok(self, t: usize) -> bool {
        t < self.tasks.len() && self.tasks[t as int].queue.len() < self.tasks[t as int].capacity
    }

    /// Effect of `spawn`: the payload is appended to the target's queue
    /// when there is room, and nothing changes otherwise.
    pub open spec fn spawn_tr(self, t: usize, p: u32) -> KernelView {
        if self.spawn_ok(t) {
            KernelView {
                tasks: self.tasks.update(
                    t as int,
                    TaskView { queue: self.tasks[t as int].queue.push(p), ..self.tasks[t as int] },
                ),
                ..self
            }
        } else {
            self
        }
    }

    /// The timer queue has room for one more future activation.
    pub open spec fn schedule_ok(self) -> bool {
        self.timer.len() < self.timer_capacity
    }

    /// Effect of `schedule`: the entry is placed at its timestamp-ordered
    /// position (after equal timestamps) when there is room.
    pub open spec fn schedule_tr(self, t: usize, p: u32, ts: u64) -> KernelView {
        if self.schedule_ok() {
            KernelView {
                timer: self.timer.insert(
                    split_index(self.timer, self.timer_base, ts),
                    TimerEntry { task: t, payload: p, timestamp: ts },
                ),
                ..self
            }
        } else {
            self
        }
    }

    /// Effect of ending the initialization phase.
    pub open spec fn start_tr(self) -> KernelView {
        KernelView { started: true, ..self }
    }

    /// Effect of storing `v` into resource `r` (late-resource
    /// initialization or a write by a task with exclusive access).
    pub open spec fn write_tr(self, r: usize, v: u32) -> KernelView {
        if r < self.resources.len() {
            KernelView {
                resources: self.resources.update(
                    r as int,
                    ResourceView { value: v, ..self.resources[r as int] },
                ),
                ..self
            }
        } else {
            self
        }
    }

    /// Effect of the running task entering a critical section on `r`.
    pub open spec fn lock_enter_tr(self, r: usize) -> KernelView {
        if self.stack.len() > 0 && r < self.resources.len() {
            KernelView {
                resources: self.resources.update(
                    r as int,
                    ResourceView { holder: Some(self.stack.last()), ..self.resources[r as int] },
                ),
                ..self
            }
        } else {
            self
        }
    }

    /// Effect of the running task leaving a critical section on `r`: its
    /// effective priority falls back to what the remaining sections give.
    pub open spec fn lock_exit_tr(self, r: usize) -> KernelView {
        if r < self.resources.len() {
            KernelView {
                resources: self.resources.update(
                    r as int,
                    ResourceView { holder: None, ..self.resources[r as int] },
                ),
                ..self
            }
        } else {
            self
        }
    }

    /// The pending task the dispatch rule picks among tasks `0..n`: highest
    /// static priority, ties served in index order.
    pub open spec fn best_pending_upto(self, n: int) -> Option<usize>
        decreases n,
    {
        if n <= 0 {
            None
        } else {
            let rest = self.best_pending_upto(n - 1);
            let t = (n - 1) as usize;
            if self.pending(t) && (rest is None || self.tasks[t as int].priority
                > self.tasks[rest.unwrap() as int].priority) {
                Some(t)
            } else {
                rest
            }
        }
    }

    /// The pending task the dispatch rule picks, if any.
    pub open spec fn dispatch_choice(self) -> Option<usize> {
        self.best_pending_upto(self.tasks.len() as int)
    }

    /// A pending task is admitted when the executing priority level is low
    /// enough: the stack is empty, or its static priority exceeds the
    /// effective priority of the running task.
    pub open spec fn admits(self, t: usize) -> bool {
        self.stack.len() == 0 || (self.tasks[t as int].priority as int) > self.eff_prio(
            self.stack.last(),
        )
    }

    /// Effect of one dispatch decision: when the chosen pending task is
    /// admitted, its oldest instance is consumed and it starts running,
    /// preempting the previous top of the stack.
    pub open spec fn dispatch_tr(self) -> KernelView {
        if self.dispatch_choice() is Some {
            let t = self.dispatch_choice().unwrap();
            if self.admits(t) {
                KernelView {
                    tasks: self.tasks.update(
                        t as int,
                        TaskView {
                            queue: self.tasks[t as int].queue.skip(1),
                            ..self.tasks[t as int]
                        },
                    ),
                    stack: self.stack.push(t),
                    ..self
                }
            } else {
                self
            }
        } else {
            self
        }
    }

    /// Effect of the running task's entry function returning: it leaves the
    /// stack; with instances still queued it is immediately pending again.
    pub open spec fn complete_tr(self) -> KernelView {
        if self.stack.len() > 0 {
            KernelView { stack: self.stack.drop_last(), ..self }
        } else {
            self
        }
    }

    /// Effect of delivering a sequence of expired timer entries, in order:
    /// each is enqueued at its task (dropped when the queue is full).
    pub open spec fn deliver(self, es: Seq<TimerEntry<u32>>) -> KernelView
        decreases es.len(),
    {
        if es.len() == 0 {
            self
        } else {
            self.spawn_tr(es[0].task, es[0].payload).deliver(es.skip(1))
        }
    }

    /// Effect of the clock reaching `now`: every due timer entry is
    /// removed, in activation order, and becomes a pending instance.
    pub open spec fn advance_tr(self, now: u64) -> KernelView {
        let k = split_index(self.timer, self.timer_base, now);
        let moved = KernelView { timer: self.timer.skip(k), timer_base: now, ..self };
        moved.deliver(self.timer.take(k))
    }
}

/// Static priorities strictly increase from the bottom of the preemption
/// stack to the top, above even the effective priorities below.
pub proof fn lemma_stack_chain(v: KernelView, i: int, j: int)
    requires
        v.wf(),
        0 <= i < j < v.stack.len(),
    ensures
        (v.tasks[v.stack[j] as int].priority as int) > v.eff_prio(v.stack[i]),
        v.tasks[v.stack[j] as int].priority >= v.tasks[v.stack[i] as int].priority,
    decreases j - i,
{
    lemma_held_ceiling_nonneg(v.resources, v.stack[i], v.resources.len() as int);
    lemma_held_ceiling_nonneg(v.resources, v.stack[j], v.resources.len() as int);
    if j == i + 1 {
    } else {
        lemma_stack_chain(v, i, j - 1);
        lemma_held_ceiling_nonneg(v.resources, v.stack[j - 1], v.resources.len() as int);
    }
}

/// The heart of the ceiling protocol: while any task that shares resource
/// `r` is running, no other task is inside a critical section on `r`. A
/// sharer below the ceiling cannot run while the resource is held (the
/// holder's effective priority is at least the ceiling), so the contents
/// are never observed concurrently.
pub proof fn lemma_running_sharer_excludes(v: KernelView, r: usize, s: usize)
    requires
        v.wf(),
        v.stack.len() > 0,
        r < v.resources.len(),
        v.has_cap(v.stack.last(), r),
        v.holds(s, r),
    ensures
        s == v.stack.last(),
{
    let top = v.stack.last();
    if s != top {
        // the holder is a started task sharing r ...
        assert(v.stack.contains(s) && v.has_cap(s, r));
        let i = choose|i: int| 0 <= i < v.stack.len() && v.stack[i] == s;
        assert(v.stack[v.stack.len() - 1] == top);
        assert(i < v.stack.len() - 1);
        // ... so its effective priority is raised to at least the ceiling,
        lemma_held_ceiling_at_least(v.resources, s, r as int, v.resources.len() as int);
        assert(v.eff_prio(s) >= v.resources[r as int].ceiling);
        // every task above it on the stack outprioritizes the ceiling,
        lemma_stack_chain(v, i, v.stack.len() - 1);
        assert((v.tasks[top as int].priority as int) > v.eff_prio(s));
        // yet a sharer's priority never exceeds the ceiling: contradiction.
        assert(v.cap_le_ceiling(r as int, top as int));
        assert(v.tasks[top as int].priority <= v.resources[r as int].ceiling);
    }
}

/// The invariant survives any change that touches only queue contents
/// (within capacity) and, possibly, leaving the initialization phase.
proof fn lemma_wf_queues_only(a: KernelView, b: KernelView)
    requires
        a.wf(),
        b.stack == a.stack,
        b.resources == a.resources,
        b.timer == a.timer,
        b.timer_base == a.timer_base,
        b.timer_capacity == a.timer_capacity,
        !b.started ==> !a.started,
        b.tasks.len() == a.tasks.len(),
        forall|i: int|
            0 <= i < a.tasks.len() ==> (#[trigger] b.tasks[i]).priority == a.tasks[i].priority
                && b.tasks[i].caps == a.tasks[i].caps && b.tasks[i].capacity == a.tasks[i].capacity
                && b.tasks[i].queue.len() <= b.tasks[i].capacity,
    ensures
        b.wf(),
{
    assert forall|r: int, t: int|
        0 <= r < b.resources.len() && 0 <= t < b.tasks.len() implies #[trigger] b.cap_le_ceiling(
        r,
        t,
    ) by {
        assert(a.cap_le_ceiling(r, t));
    }
    assert forall|r: int| 0 <= r < b.resources.len() implies #[trigger] b.ceiling_witnessed(r) by {
        assert(a.ceiling_witnessed(r));
        let t = choose|t: int|
            0 <= t < a.tasks.len() && (#[trigger] a.tasks[t].caps).contains(r as usize)
                && a.tasks[t].priority == a.resources[r].ceiling;
        assert(b.tasks[t].caps.contains(r as usize));
    }
    assert forall|i: int| 0 <= i < b.stack.len() - 1 implies (b.tasks[b.stack[i + 1] as int].priority
        as int) > b.eff_prio(#[trigger] b.stack[i]) by {
        assert((a.tasks[a.stack[i + 1] as int].priority as int) > a.eff_prio(a.stack[i]));
    }
}

/// The invariant survives storing a value into a resource: holders and
/// ceilings are untouched, so no effective priority moves.
#[verifier::rlimit(100)]
proof fn lemma_wf_write(a: KernelView, r: usize, v: u32)
    requires
        a.wf(),
        r < a.resources.len(),
    ensures
        a.write_tr(r, v).wf(),
{
    let b = a.write_tr(r, v);
    assert forall|rr: int, t: int|
        0 <= rr < b.resources.len() && 0 <= t < b.tasks.len() implies #[trigger] b.cap_le_ceiling(
        rr,
        t,
    ) by {
        assert(a.cap_le_ceiling(rr, t));
    }
    assert forall|rr: int| 0 <= rr < b.resources.len() implies #[trigger] b.ceiling_witnessed(
        rr,
    ) by {
        assert(a.ceiling_witnessed(rr));
        let t = choose|t: int|
            0 <= t < a.tasks.len() && (#[trigger] a.tasks[t].caps).contains(rr as usize)
                && a.tasks[t].priority == a.resources[rr].ceiling;
        assert(b.tasks[t].caps.contains(rr as usize) && b.resources[rr].ceiling
            == a.resources[rr].ceiling);
    }
    assert forall|i: int| 0 <= i < b.stack.len() - 1 implies (b.tasks[b.stack[i + 1] as int].priority
        as int) > b.eff_prio(#[trigger] b.stack[i]) by {
        lemma_held_ceiling_same_locks(a.resources, b.resources, b.stack[i], a.resources.len() as int);
        assert((a.tasks[a.stack[i + 1] as int].priority as int) > a.eff_prio(a.stack[i]));
    }
    assert forall|rr: int|
        0 <= rr < b.resources.len() && (#[trigger] b.resources[rr]).holder is Some implies {
        let t = b.resources[rr].holder.unwrap();
        b.stack.contains(t) && b.has_cap(t, rr as usize)
    } by {
        assert(a.resources[rr].holder == b.resources[rr].holder);
    }
}

/// Configuration facts survive any change that keeps the tasks and every
/// resource's ceiling.
proof fn lemma_wf_config_same_ceilings(a: KernelView, b: KernelView)
    requires
        a.wf_config(),
        b.tasks == a.tasks,
        b.resources.len() == a.resources.len(),
        forall|i: int|
            0 <= i < a.resources.len() ==> (#[trigger] b.resources[i]).ceiling
                == a.resources[i].ceiling,
    ensures
        b.wf_config(),
{
    assert forall|r: int, t: int|
        0 <= r < b.resources.len() && 0 <= t < b.tasks.len() implies #[trigger] b.cap_le_ceiling(
        r,
        t,
    ) by {
        assert(a.cap_le_ceiling(r, t));
    }
    assert forall|r: int| 0 <= r < b.resources.len() implies #[trigger] b.ceiling_witnessed(r) by {
        assert(a.ceiling_witnessed(r));
        let t = choose|t: int|
            0 <= t < a.tasks.len() && (#[trigger] a.tasks[t].caps).contains(r as usize)
                && a.tasks[t].priority == a.resources[r].ceiling;
        assert(b.tasks[t].caps.contains(r as usize));
    }
}

/// The stack chain survives any change that keeps the stack, the tasks and
/// every stacked task's held ceiling.
proof fn lemma_wf_stack_eff_unchanged(a: KernelView, b: KernelView)
    requires
        a.wf_stack(),
        b.stack == a.stack,
        b.tasks == a.tasks,
        forall|i: int|
            0 <= i < a.stack.len() - 1 ==> held_ceiling(b.resources, #[trigger] a.stack[i])
                == held_ceiling(a.resources, a.stack[i]),
    ensures
        b.wf_stack(),
{
    assert forall|i: int| 0 <= i < b.stack.len() - 1 implies (b.tasks[b.stack[i + 1] as int].priority
        as int) > b.eff_prio(#[trigger] b.stack[i]) by {
        assert((a.tasks[a.stack[i + 1] as int].priority as int) > a.eff_prio(a.stack[i]));
    }
}

/// The invariant survives the running task entering a critical section:
/// only its own effective priority rises, and it has no successor on the
/// stack to constrain.
#[verifier::rlimit(100)]
proof fn lemma_wf_lock_enter(a: KernelView, r: usize)
    requires
        a.wf(),
        a.stack.len() > 0,
        r < a.resources.len(),
        a.has_cap(a.stack.last(), r),
    ensures
        a.lock_enter_tr(r).wf(),
{
    let b = a.lock_enter_tr(r);
    let top = a.stack.last();
    let cell = ResourceView { holder: Some(top), ..a.resources[r as int] };
    assert(b.resources == a.resources.update(r as int, cell));
    assert forall|i: int|
        0 <= i < a.resources.len() implies (#[trigger] b.resources[i]).ceiling
        == a.resources[i].ceiling by {}
    lemma_wf_config_same_ceilings(a, b);
    assert forall|i: int|
        0 <= i < a.stack.len() - 1 implies held_ceiling(b.resources, #[trigger] a.stack[i])
        == held_ceiling(a.resources, a.stack[i]) by {
        let s = a.stack[i];
        assert(a.stack[a.stack.len() - 1] == top);
        assert(s != top);
        if a.resources[r as int].holder is Some {
            lemma_running_sharer_excludes(a, r, a.resources[r as int].holder.unwrap());
        }
        assert(a.resources[r as int].holder != Some(s));
        lemma_held_ceiling_update_other(a.resources, r as int, cell, s, a.resources.len() as int);
    }
    lemma_wf_stack_eff_unchanged(a, b);
    assert forall|rr: int|
        0 <= rr < b.resources.len() && (#[trigger] b.resources[rr]).holder is Some implies
        b.stack.contains(b.resources[rr].holder.unwrap()) && b.has_cap(
        b.resources[rr].holder.unwrap(),
        rr as usize,
    ) by {
        if rr == r as int {
            assert(b.resources[rr] == cell);
            assert(a.stack[a.stack.len() - 1] == top);
            assert(b.stack.contains(top));
        } else {
            assert(b.resources[rr] == a.resources[rr]);
        }
    }
    assert(b.wf_holders());
}

/// The invariant survives the running task leaving a critical section.
#[verifier::spinoff_prover]
#[verifier::rlimit(100)]
proof fn lemma_wf_lock_exit(a: KernelView, r: usize)
    requires
        a.wf(),
        a.stack.len() > 0,
        r < a.resources.len(),
        a.holds(a.stack.last(), r),
    ensures
        a.lock_exit_tr(r).wf(),
{
    let b = a.lock_exit_tr(r);
    let top = a.stack.last();
    let cell = ResourceView { holder: None, ..a.resources[r as int] };
    assert(b.resources == a.resources.update(r as int, cell));
    assert forall|i: int|
        0 <= i < a.resources.len() implies (#[trigger] b.resources[i]).ceiling
        == a.resources[i].ceiling by {}
    lemma_wf_config_same_ceilings(a, b);
    assert forall|i: int|
        0 <= i < a.stack.len() - 1 implies held_ceiling(b.resources, #[trigger] a.stack[i])
        == held_ceiling(a.resources, a.stack[i]) by {
        let s = a.stack[i];
        assert(a.stack[a.stack.len() - 1] == top);
        assert(s != top);
        assert(a.resources[r as int].holder != Some(s));
        lemma_held_ceiling_update_other(a.resources, r as int, cell, s, a.resources.len() as int);
    }
    lemma_wf_stack_eff_unchanged(a, b);
    assert forall|rr: int|
        0 <= rr < b.resources.len() && (#[trigger] b.resources[rr]).holder is Some implies
        b.stack.contains(b.resources[rr].holder.unwrap()) && b.has_cap(
        b.resources[rr].holder.unwrap(),
        rr as usize,
    ) by {
        assert(rr != r as int);
        assert(b.resources[rr] == a.resources[rr]);
    }
    assert(b.wf_holders());
}

/// What the dispatch rule picks: a pending task of maximal static
/// priority (the earliest such index), and nothing when no task is
/// pending.
pub proof fn lemma_best_pending_upto(v: KernelView, n: int)
    requires
        n <= v.tasks.len(),
    ensures
        (v.best_pending_upto(n) matches Some(b) ==> (b as int) < n && v.pending(b) && forall|
            t: usize,
        |
            (t as int) < n && #[trigger] v.pending(t) ==> v.tasks[t as int].priority
                <= v.tasks[b as int].priority),
        v.best_pending_upto(n) is None ==> forall|t: usize| (t as int) < n ==> !(
        #[trigger] v.pending(t)),
    decreases n,
{
    if n > 0 {
        lemma_best_pending_upto(v, n - 1);
    }
}

/// The invariant survives admitting the chosen pending task: it enters the
/// stack above a strictly lower effective priority, consuming the oldest
/// queued instance.
#[verifier::rlimit(100)]
proof fn lemma_wf_dispatch(a: KernelView)
    requires
        a.wf(),
        a.started,
        a.dispatch_choice() is Some,
        a.admits(a.dispatch_choice().unwrap()),
    ensures
        a.dispatch_tr().wf(),
{
    let t = a.dispatch_choice().unwrap();
    lemma_best_pending_upto(a, a.tasks.len() as int);
    assert(a.pending(t));
    let b = a.dispatch_tr();
    assert forall|r: int, tt: int|
        0 <= r < b.resources.len() && 0 <= tt < b.tasks.len() implies #[trigger] b.cap_le_ceiling(
        r,
        tt,
    ) by {
        assert(a.cap_le_ceiling(r, tt));
    }
    assert forall|r: int| 0 <= r < b.resources.len() implies #[trigger] b.ceiling_witnessed(r) by {
        assert(a.ceiling_witnessed(r));
        let w = choose|w: int|
            0 <= w < a.tasks.len() && (#[trigger] a.tasks[w].caps).contains(r as usize)
                && a.tasks[w].priority == a.resources[r].ceiling;
        assert(b.tasks[w].caps.contains(r as usize));
    }
    assert forall|i: int, j: int| 0 <= i < j < b.stack.len() implies b.stack[i] != b.stack[j] by {
        if j < a.stack.len() {
        } else {
            assert(b.stack[j] == t);
            assert(b.stack[i] == a.stack[i]);
            assert(a.stack.contains(a.stack[i]));
        }
    }
    assert forall|i: int| 0 <= i < b.stack.len() - 1 implies (b.tasks[b.stack[i + 1] as int].priority
        as int) > b.eff_prio(#[trigger] b.stack[i]) by {
        if i + 1 < a.stack.len() {
            assert((a.tasks[a.stack[i + 1] as int].priority as int) > a.eff_prio(a.stack[i]));
        } else {
            assert(b.stack[i + 1] == t);
            assert(b.stack[i] == a.stack[a.stack.len() - 1]);
            assert((a.tasks[t as int].priority as int) > a.eff_prio(a.stack.last()));
        }
    }
    assert forall|r: int|
        0 <= r < b.resources.len() && (#[trigger] b.resources[r]).holder is Some implies
        b.stack.contains(b.resources[r].holder.unwrap()) && b.has_cap(
        b.resources[r].holder.unwrap(),
        r as usize,
    ) by {
        let u = b.resources[r].holder.unwrap();
        assert(a.stack.contains(u));
        let i = choose|i: int| 0 <= i < a.stack.len() && a.stack[i] == u;
        assert(b.stack[i] == u);
    }
    assert(b.wf_holders());
}

/// The invariant survives the running task returning, provided it left all
/// its critical sections first.
proof fn lemma_wf_complete(a: KernelView)
    requires
        a.wf(),
        a.stack.len() > 0,
        a.holds_no_resource(a.stack.last()),
    ensures
        a.complete_tr().wf(),
{
    let b = a.complete_tr();
    let top = a.stack.last();
    assert forall|r: int, t: int|
        0 <= r < b.resources.len() && 0 <= t < b.tasks.len() implies #[trigger] b.cap_le_ceiling(
        r,
        t,
    ) by {
        assert(a.cap_le_ceiling(r, t));
    }
    assert forall|r: int| 0 <= r < b.resources.len() implies #[trigger] b.ceiling_witnessed(r) by {
        assert(a.ceiling_witnessed(r));
        let w = choose|w: int|
            0 <= w < a.tasks.len() && (#[trigger] a.tasks[w].caps).contains(r as usize)
                && a.tasks[w].priority == a.resources[r].ceiling;
        assert(b.tasks[w].caps.contains(r as usize));
    }
    assert forall|r: int|
        0 <= r < b.resources.len() && (#[trigger] b.resources[r]).holder is Some implies
        b.stack.contains(b.resources[r].holder.unwrap()) && b.has_cap(
        b.resources[r].holder.unwrap(),
        r as usize,
    ) by {
        let u = b.resources[r].holder.unwrap();
        assert(a.stack.contains(u));
        let i = choose|i: int| 0 <= i < a.stack.len() && a.stack[i] == u;
        assert(a.resources[r].holder != Some(a.stack.last()));
        assert(u != top);
        assert(a.stack[a.stack.len() - 1] == top);
        assert(i < a.stack.len() - 1);
        assert(b.stack[i] == u);
    }
    assert(b.wf_holders());
}

/// Delivering expired entries only appends to message queues.
proof fn lemma_deliver_snoc(v: KernelView, es: Seq<TimerEntry<u32>>, e: TimerEntry<u32>)
    ensures
        v.deliver(es.push(e)) == v.deliver(es).spawn_tr(e.task, e.payload),
    decreases es.len(),
{
    if es.len() == 0 {
        reveal_with_fuel(KernelView::deliver, 3);
        assert(es.push(e)[0] == e);
        assert(es.push(e).skip(1) =~= Seq::<TimerEntry<u32>>::empty());
        assert(v.deliver(es.push(e)) =~~= v.deliver(es).spawn_tr(e.task, e.payload));
    } else {
        assert(es.push(e)[0] == es[0]);
        assert(es.push(e).skip(1) =~= es.skip(1).push(e));
        reveal_with_fuel(KernelView::deliver, 3);
        lemma_deliver_snoc(v.spawn_tr(es[0].task, es[0].payload), es.skip(1), e);
        assert(v.spawn_tr(es.push(e)[0].task, es.push(e)[0].payload) == v.spawn_tr(
            es[0].task,
            es[0].payload,
        ));
        assert(v.deliver(es.push(e)) =~~= v.deliver(es).spawn_tr(e.task, e.payload));
    }
}

/// The invariant survives delivering a batch of expired entries, and
/// delivery touches nothing but message queues.
#[verifier::rlimit(100)]
proof fn lemma_deliver_wf(v: KernelView, es: Seq<TimerEntry<u32>>)
    requires
        v.wf(),
        forall|i: int| 0 <= i < es.len() ==> (#[trigger] es[i]).task < v.tasks.len(),
    ensures
        v.deliver(es).wf(),
        v.deliver(es).stack == v.stack,
        v.deliver(es).resources == v.resources,
        v.deliver(es).timer == v.timer,
        v.deliver(es).timer_base == v.timer_base,
        v.deliver(es).timer_capacity == v.timer_capacity,
        v.deliver(es).started == v.started,
        v.deliver(es).tasks.len() == v.tasks.len(),
    decreases es.len(),
{
    if es.len() > 0 {
        let w = v.spawn_tr(es[0].task, es[0].payload);
        lemma_wf_queues_only(v, w);
        assert forall|i: int| 0 <= i < es.skip(1).len() implies (#[trigger] es.skip(1)[i]).task
            < w.tasks.len() by {
            assert(es.skip(1)[i] == es[i + 1]);
        }
        lemma_deliver_wf(w, es.skip(1));
    }
}

/// The dispatcher state: the fixed task and resource tables, the
/// preemption stack, and the timer queue. Built once from the static
/// declaration; only the operations below touch it.
pub struct Kernel {
    tasks: Vec<TaskControl>,
    resources: Vec<ResourceCell>,
    stack: Vec<usize>,
    timer: TimerQueue<u32>,
    started: bool,
}

impl View for Kernel {
    type V = KernelView;

    closed spec fn view(&self) -> KernelView {
        KernelView {
            tasks: self.tasks@.map_values(|tc: TaskControl| tc@),
            resources: self.resources@.map_values(|rc: ResourceCell| rc@),
            stack: self.stack@,
            timer: self.timer@,
            timer_base: self.timer.spec_base(),
            timer_capacity: self.timer.spec_capacity(),
            started: self.started,
        }
    }
}

impl Kernel {
    /// The dispatcher invariant on the state's mathematical image.
    pub open spec fn inv(&self) -> bool {
        self@.wf()
    }

    /// Builds the fixed tables from the static declaration, running the
    /// ceiling resolver; a faulty configuration is rejected and nothing is
    /// built. The new kernel is in its initialization phase: single
    /// threaded, nothing started, all resources zeroed awaiting their late
    /// initial values.
    pub fn new(decls: Vec<TaskDecl>, n_resources: usize, timer_capacity: usize) -> (kr: Result<
        Kernel,
        ConfigError,
    >)
        ensures
            kr is Ok <==> crate::ceiling::priorities_valid(decls@) && crate::ceiling::refs_declared(
                decls@,
                n_resources,
            ) && crate::ceiling::all_referenced(decls@, n_resources),
            (kr matches Ok(k) ==> {
                &&& k.inv()
                &&& !k@.started
                &&& k@.stack == Seq::<usize>::empty()
                &&& k@.timer == Seq::<TimerEntry<u32>>::empty()
                &&& k@.timer_base == 0
                &&& k@.timer_capacity == timer_capacity
                &&& k@.tasks.len() == decls@.len()
                &&& (forall|i: int|
                    0 <= i < decls@.len() ==> (#[trigger] k@.tasks[i]).priority
                        == decls@[i].priority && k@.tasks[i].caps == decls@[i].resources@
                        && k@.tasks[i].queue == Seq::<u32>::empty() && k@.tasks[i].capacity
                        == decls@[i].queue_capacity)
                &&& k@.resources.len() == n_resources
                &&& (forall|r: int|
                    0 <= r < n_resources ==> (#[trigger] k@.resources[r]).value == 0
                        && k@.resources[r].holder is None && is_ceiling(
                        decls@,
                        r as usize,
                        k@.resources[r].ceiling as int,
                    ))
            }),
    {
        let ghost decls0 = decls@;
        let ceilings = match compute_ceilings(&decls, n_resources) {
            Ok(c) => c,
            Err(e) => { return Err(e) },
        };
        let mut rem = decls;
        let mut tasks: Vec<TaskControl> = Vec::new();
        while rem.len() > 0
            invariant
                tasks@.len() + rem@.len() == decls0.len(),
                rem@ == decls0.skip(tasks@.len() as int),
                forall|i: int|
                    0 <= i < tasks@.len() ==> (#[trigger] tasks@[i]@).priority
                        == decls0[i].priority && tasks@[i]@.caps == decls0[i].resources@
                        && tasks@[i]@.queue == Seq::<u32>::empty() && tasks@[i]@.capacity
                        == decls0[i].queue_capacity,
            decreases rem@.len(),
        {
            let ghost n = tasks@.len() as int;
            assert(rem@[0] == decls0[n]);
            let d = rem.remove(0);
            let tc = TaskControl {
                priority: d.priority,
                caps: d.resources,
                queue: MessageQueue::new(d.queue_capacity),
            };
            tasks.push(tc);
            proof {
                assert(rem@ =~= decls0.skip(n + 1));
            }
        }
        let mut resources: Vec<ResourceCell> = Vec::new();
        let mut r: usize = 0;
        while r < n_resources
            invariant
                r <= n_resources,
                resources@.len() == r,
                ceilings@.len() == n_resources,
                forall|j: usize|
                    j < n_resources ==> is_ceiling(decls0, j, ceilings@[j as int] as int),
                forall|i: int|
                    0 <= i < r ==> (#[trigger] resources@[i]@).value == 0 && resources@[i]@.holder
                        is None && resources@[i]@.ceiling == ceilings@[i],
            decreases n_resources - r,
        {
            resources.push(ResourceCell { value: 0, ceiling: ceilings[r], holder: None });
            r = r + 1;
        }
        let k = Kernel {
            tasks,
            resources,
            stack: Vec::new(),
            timer: TimerQueue::new(timer_capacity),
            started: false,
        };
        proof {
            let v = k@;
            assert forall|r2: int, t2: int|
                0 <= r2 < v.resources.len() && 0 <= t2 < v.tasks.len() implies
                #[trigger] v.cap_le_ceiling(r2, t2) by {
                if v.tasks[t2].caps.contains(r2 as usize) {
                    assert(task_refs(decls0, t2, r2 as usize));
                    assert(is_ceiling(decls0, r2 as usize, ceilings@[r2] as int));
                }
            }
            assert forall|r2: int| 0 <= r2 < v.resources.len() implies
                #[trigger] v.ceiling_witnessed(r2) by {
                assert(is_ceiling(decls0, r2 as usize, ceilings@[r2] as int));
                let w = choose|w: int|
                    task_refs(decls0, w, r2 as usize) && decls0[w].priority == ceilings@[r2] as int;
                assert(v.tasks[w].caps.contains(r2 as usize) && v.tasks[w].priority
                    == v.resources[r2].ceiling);
            }
            assert forall|t2: int| 0 <= t2 < v.tasks.len() implies (#[trigger] v.tasks[t2]).priority
                >= 1 by {
                assert(crate::ceiling::priorities_valid(decls0));
            }
            assert forall|t2: int, k2: int|
                0 <= t2 < v.tasks.len() && 0 <= k2 < v.tasks[t2].caps.len() implies
                (#[trigger] v.tasks[t2].caps[k2]) < v.resources.len() by {
                assert(crate::ceiling::refs_declared(decls0, n_resources));
            }
        }
        Ok(k)
    }

    /// Ends the one-time initialization phase: from here on the monotonic
    /// clock is running and the dispatcher admits preemption.
    pub fn start(&mut self)
        requires
            old(self).inv(),
            !old(self)@.started,
        ensures
            final(self).inv(),
            final(self)@ == old(self)@.start_tr(),
    {
        self.started = true;
        proof {
            assert(self@ =~~= old(self)@.start_tr());
            lemma_wf_queues_only(old(self)@, self@);
        }
    }

    /// Stores a late resource's initial value; initialization phase only
    /// (single-threaded, so no locking is involved).
    pub fn init_resource(&mut self, r: usize, v: u32)
        requires
            old(self).inv(),
            !old(self)@.started,
            r < old(self)@.resources.len(),
        ensures
            final(self).inv(),
            final(self)@ == old(self)@.write_tr(r, v),
    {
        self.resources[r].value = v;
        proof {
            assert(self@.resources =~~= old(self)@.write_tr(r, v).resources);
            assert(self@ =~~= old(self)@.write_tr(r, v));
            lemma_wf_write(old(self)@, r, v);
        }
    }

    /// Software-triggered activation: appends the payload to the target's
    /// queue, marking the task pending if it was idle. Callable from any
    /// priority, including during initialization and from interrupt
    /// context. Fails with `QueueFull` when the queue is at capacity; the
    /// caller decides whether to drop, retry later, or escalate.
    pub fn spawn(&mut self, t: usize, p: u32) -> (r: Result<(), QueueFull>)
        requires
            old(self).inv(),
            t < old(self)@.tasks.len(),
        ensures
            final(self).inv(),
            final(self)@ == old(self)@.spawn_tr(t, p),
            r is Ok <==> old(self)@.spawn_ok(t),
            r is Ok ==> final(self)@.tasks[t as int].queue == old(self)@.tasks[t as int].queue.push(
                p,
            ),
            r is Err ==> final(self)@ == old(self)@,
    {
        let qr = self.tasks[t].queue.enqueue(p);
        proof {
            assert(self@.tasks =~~= old(self)@.spawn_tr(t, p).tasks);
            assert(self@ =~~= old(self)@.spawn_tr(t, p));
            lemma_wf_queues_only(old(self)@, self@);
        }
        qr
    }

    /// Schedules a future activation of `t` at absolute counter value
    /// `timestamp`, kept in timestamp order (ties in insertion order).
    /// Fails with `QueueFull` when the timer queue is at capacity.
    pub fn schedule(&mut self, t: usize, p: u32, timestamp: u64) -> (r: Result<(), QueueFull>)
        requires
            old(self).inv(),
            t < old(self)@.tasks.len(),
        ensures
            final(self).inv(),
            final(self)@ == old(self)@.schedule_tr(t, p, timestamp),
            r is Ok <==> old(self)@.schedule_ok(),
            r is Err ==> final(self)@ == old(self)@,
    {
        proof {
            assert(self.timer.wf());
        }
        let qr = self.timer.insert(t, p, timestamp);
        proof {
            assert(self@ =~~= old(self)@.schedule_tr(t, p, timestamp));
            let a = old(self)@;
            let b = self@;
            assert forall|r2: int, t2: int|
                0 <= r2 < b.resources.len() && 0 <= t2 < b.tasks.len() implies
                #[trigger] b.cap_le_ceiling(r2, t2) by {
                assert(a.cap_le_ceiling(r2, t2));
            }
            assert forall|r2: int| 0 <= r2 < b.resources.len() implies
                #[trigger] b.ceiling_witnessed(r2) by {
                assert(a.ceiling_witnessed(r2));
                let w = choose|w: int|
                    0 <= w < a.tasks.len() && (#[trigger] a.tasks[w].caps).contains(r2 as usize)
                        && a.tasks[w].priority == a.resources[r2].ceiling;
                assert(b.tasks[w].caps.contains(r2 as usize));
            }
            assert forall|i: int| 0 <= i < b.timer.len() implies (#[trigger] b.timer[i]).task
                < b.tasks.len() by {
                if a.schedule_ok() {
                    let k = split_index(a.timer, a.timer_base, timestamp);
                    crate::timer::lemma_split_index(a.timer, a.timer_base, timestamp);
                    if i < k {
                        assert(b.timer[i] == a.timer[i]);
                    } else if i > k {
                        assert(b.timer[i] == a.timer[i - 1]);
                    }
                }
            }
        }
        qr
    }

    /// Whether task `t` is on the preemption stack (started).
    fn on_stack(&self, t: usize) -> (b: bool)
        ensures
            b == self@.stack.contains(t),
    {
        let mut i: usize = 0;
        while i < self.stack.len()
            invariant
                i <= self@.stack.len(),
                forall|j: int| 0 <= j < i ==> self@.stack[j] != t,
            decreases self@.stack.len() - i,
        {
            if self.stack[i] == t {
                return true;
            }
            i = i + 1;
        }
        false
    }

    /// Whether task `t` is pending: queued but not started.
    pub fn is_pending(&self, t: usize) -> (b: bool)
        requires
            t < self@.tasks.len(),
        ensures
            b == self@.pending(t),
    {
        if self.on_stack(t) {
            false
        } else {
            !self.tasks[t].queue.is_empty()
        }
    }

    /// The effective priority of `t`: its static priority raised to the
    /// highest ceiling among the critical sections it is inside.
    pub fn effective_priority(&self, t: usize) -> (p: u8)
        requires
            t < self@.tasks.len(),
        ensures
            p as int == self@.eff_prio(t),
    {
        let mut held: u8 = 0;
        let mut i: usize = 0;
        while i < self.resources.len()
            invariant
                t < self@.tasks.len(),
                i <= self@.resources.len(),
                self.resources@.len() == self@.resources.len(),
                held as int == held_ceiling_upto(self@.resources, t, i as int),
            decreases self@.resources.len() - i,
        {
            let is_held = match self.resources[i].holder {
                Some(h) => h == t,
                None => false,
            };
            if is_held {
                if self.resources[i].ceiling > held {
                    held = self.resources[i].ceiling;
                }
            }
            i = i + 1;
        }
        let pr = self.tasks[t].priority;
        if pr > held {
            pr
        } else {
            held
        }
    }

    /// How many tasks the system declares.
    pub fn n_tasks(&self) -> (n: usize)
        ensures
            n == self@.tasks.len(),
    {
        self.tasks.len()
    }

    /// How many shared resources the system declares.
    pub fn n_resources(&self) -> (n: usize)
        ensures
            n == self@.resources.len(),
    {
        self.resources.len()
    }

    /// The statically computed ceiling of resource `r`.
    pub fn resource_ceiling(&self, r: usize) -> (c: u8)
        requires
            r < self@.resources.len(),
        ensures
            c == self@.resources[r as int].ceiling,
    {
        self.resources[r].ceiling
    }

    /// The task currently running, or none while the idle task runs.
    pub fn current(&self) -> (c: Option<usize>)
        ensures
            c == self@.running(),
    {
        if self.stack.len() == 0 {
            None
        } else {
            Some(self.stack[self.stack.len() - 1])
        }
    }

    /// The dispatcher-visible lifecycle state of task `t`.
    pub fn state_of(&self, t: usize) -> (st: TaskState)
        requires
            t < self@.tasks.len(),
        ensures
            st == self@.task_state(t),
    {
        if self.stack.len() > 0 && self.stack[self.stack.len() - 1] == t {
            TaskState::Running
        } else if self.on_stack(t) {
            TaskState::Suspended
        } else if !self.tasks[t].queue.is_empty() {
            TaskState::Pending
        } else {
            TaskState::Idle
        }
    }

    /// How many instances are queued for task `t`.
    pub fn queue_len(&self, t: usize) -> (n: usize)
        requires
            t < self@.tasks.len(),
        ensures
            n == self@.tasks[t as int].queue.len(),
    {
        self.tasks[t].queue.len()
    }

    /// Whether initialization has completed.
    pub fn is_started(&self) -> (b: bool)
        ensures
            b == self@.started,
    {
        self.started
    }

    /// One dispatch decision, taken at every preemption point (an event
    /// arrived, or a task completed): among all pending tasks pick the one
    /// with the highest static priority, and if it outprioritizes the
    /// executing level, consume its oldest instance and run it, preempting
    /// the current task. Returns the admitted task and its payload, or
    /// nothing when the idle task keeps the core.
    #[verifier::rlimit(100)]
    pub fn dispatch(&mut self) -> (r: Option<(usize, u32)>)
        requires
            old(self).inv(),
            old(self)@.started,
        ensures
            final(self).inv(),
            final(self)@ == old(self)@.dispatch_tr(),
            (match r {
                Some(tp) => {
                    &&& old(self)@.dispatch_choice() == Some(tp.0)
                    &&& old(self)@.admits(tp.0)
                    &&& tp.1 == old(self)@.tasks[tp.0 as int].queue[0]
                    &&& final(self)@.running() == Some(tp.0)
                },
                None => final(self)@ == old(self)@ && (old(self)@.dispatch_choice() is None
                    || !old(self)@.admits(old(self)@.dispatch_choice().unwrap())),
            }),
    {
        let n = self.tasks.len();
        let mut best: Option<usize> = None;
        let mut i: usize = 0;
        while i < n
            invariant
                old(self).inv(),
                self == old(self),
                n == self@.tasks.len(),
                i <= n,
                best == self@.best_pending_upto(i as int),
                (best matches Some(b) ==> (b as int) < i && self@.pending(b)),
            decreases n - i,
        {
            let p_i = self.is_pending(i);
            match best {
                None => {
                    if p_i {
                        best = Some(i);
                    }
                },
                Some(b) => {
                    if p_i && self.tasks[i].priority > self.tasks[b].priority {
                        best = Some(i);
                    }
                },
            }
            i = i + 1;
        }
        match best {
            None => {
                proof {
                    assert(self@ =~~= old(self)@.dispatch_tr());
                }
                None
            },
            Some(t) => {
                let admitted = if self.stack.len() == 0 {
                    true
                } else {
                    let top = self.stack[self.stack.len() - 1];
                    proof {
                        assert(self@.stack.last() == top);
                    }
                    self.tasks[t].priority > self.effective_priority(top)
                };
                if admitted {
                    let payload = self.tasks[t].queue.dequeue();
                    self.stack.push(t);
                    proof {
                        assert(self@.tasks =~~= old(self)@.dispatch_tr().tasks);
                        assert(self@ =~~= old(self)@.dispatch_tr());
                        lemma_wf_dispatch(old(self)@);
                        assert(self@.stack.last() == t);
                    }
                    Some((t, payload))
                } else {
                    proof {
                        assert(self@ =~~= old(self)@.dispatch_tr());
                    }
                    None
                }
            },
        }
    }

    /// Called when the running task's entry function returns, its locks
    /// released: it leaves the stack (pending again at once if instances
    /// remain queued, else idle) and the preempted task below resumes.
    /// With an empty stack the returning task is the idle task, which must
    /// never return: that is a fatal error and nothing changes.
    pub fn complete(&mut self) -> (r: Result<(), FatalError>)
        requires
            old(self).inv(),
            old(self)@.started,
            old(self)@.stack.len() > 0 ==> old(self)@.holds_no_resource(old(self)@.stack.last()),
        ensures
            final(self).inv(),
            final(self)@ == old(self)@.complete_tr(),
            old(self)@.stack.len() == 0 ==> r == Err::<(), FatalError>(
                FatalError::IdleTaskReturned,
            ) && final(self)@ == old(self)@,
            old(self)@.stack.len() > 0 ==> r is Ok,
    {
        if self.stack.len() == 0 {
            proof {
                assert(self@ =~~= old(self)@.complete_tr());
            }
            Err(FatalError::IdleTaskReturned)
        } else {
            let _top = self.stack.pop();
            proof {
                assert(self@.stack =~= old(self)@.stack.drop_last());
                assert(self@ =~~= old(self)@.complete_tr());
                lemma_wf_complete(old(self)@);
            }
            Ok(())
        }
    }

    /// The running task enters a critical section on `r`, raising its
    /// effective priority to the ceiling; the ceiling protocol guarantees
    /// the resource is free (`r`'s holder was none), so entry never waits.
    /// Within the section only tasks above the ceiling can preempt, and
    /// none of them shares `r`.
    #[verifier::rlimit(100)]
    pub fn lock_enter(&mut self, r: usize)
        requires
            old(self).inv(),
            old(self)@.stack.len() > 0,
            r < old(self)@.resources.len(),
            old(self)@.has_cap(old(self)@.stack.last(), r),
            !old(self)@.holds(old(self)@.stack.last(), r),
        ensures
            final(self).inv(),
            final(self)@ == old(self)@.lock_enter_tr(r),
            old(self)@.resources[r as int].holder is None,
            final(self)@.holds(old(self)@.stack.last(), r),
            final(self)@.eff_prio(final(self)@.stack.last())
                >= final(self)@.resources[r as int].ceiling,
    {
        proof {
            if old(self)@.resources[r as int].holder is Some {
                lemma_running_sharer_excludes(
                    old(self)@,
                    r,
                    old(self)@.resources[r as int].holder.unwrap(),
                );
            }
        }
        let t = self.stack[self.stack.len() - 1];
        proof {
            assert(self@.stack.last() == t);
        }
        self.resources[r].holder = Some(t);
        proof {
            assert(self@.resources =~~= old(self)@.lock_enter_tr(r).resources);
            assert(self@ =~~= old(self)@.lock_enter_tr(r));
            lemma_wf_lock_enter(old(self)@, r);
            lemma_held_ceiling_at_least(
                self@.resources,
                t,
                r as int,
                self@.resources.len() as int,
            );
        }
    }

    /// The running task leaves its critical section on `r`; its effective
    /// priority falls back to what its remaining sections give.
    pub fn lock_exit(&mut self, r: usize)
        requires
            old(self).inv(),
            old(self)@.stack.len() > 0,
            r < old(self)@.resources.len(),
            old(self)@.holds(old(self)@.stack.last(), r),
        ensures
            final(self).inv(),
            final(self)@ == old(self)@.lock_exit_tr(r),
            final(self)@.resources[r as int].holder is None,
    {
        self.resources[r].holder = None;
        proof {
            assert(self@.resources =~~= old(self)@.lock_exit_tr(r).resources);
            assert(self@ =~~= old(self)@.lock_exit_tr(r));
            lemma_wf_lock_exit(old(self)@, r);
        }
    }

    /// The running task reads resource `r`. Requires exclusive access by
    /// the ceiling protocol: the task shares `r` and its effective
    /// priority has reached the ceiling, either through `lock_enter` or
    /// because it is the top-priority sharer, whose static priority is the
    /// ceiling.
    pub fn read_resource(&self, r: usize) -> (v: u32)
        requires
            self.inv(),
            self@.stack.len() > 0,
            r < self@.resources.len(),
            self@.has_cap(self@.stack.last(), r),
            self@.eff_prio(self@.stack.last()) >= self@.resources[r as int].ceiling,
        ensures
            v == self@.resources[r as int].value,
    {
        self.resources[r].value
    }

    /// The running task writes resource `r`; same access rule as
    /// `read_resource`.
    pub fn write_resource(&mut self, r: usize, v: u32)
        requires
            old(self).inv(),
            old(self)@.stack.len() > 0,
            r < old(self)@.resources.len(),
            old(self)@.has_cap(old(self)@.stack.last(), r),
            old(self)@.eff_prio(old(self)@.stack.last()) >= old(self)@.resources[r as int].ceiling,
        ensures
            final(self).inv(),
            final(self)@ == old(self)@.write_tr(r, v),
            final(self)@.resources[r as int].value == v,
    {
        self.resources[r].value = v;
        proof {
            assert(self@.resources =~~= old(self)@.write_tr(r, v).resources);
            assert(self@ =~~= old(self)@.write_tr(r, v));
            lemma_wf_write(old(self)@, r, v);
        }
    }

    /// The monotonic counter has reached `now`: every due timer entry is
    /// removed in activation order and becomes a pending instance of its
    /// task (an instance whose queue is full is dropped). Called by the
    /// dispatch loop on every clock-checking opportunity. Returns the
    /// expired entries.
    #[verifier::rlimit(100)]
    pub fn advance(&mut self, now: u64) -> (due: Vec<TimerEntry<u32>>)
        requires
            old(self).inv(),
            old(self)@.started,
        ensures
            final(self).inv(),
            final(self)@ == old(self)@.advance_tr(now),
            due@ == old(self)@.timer.take(
                split_index(old(self)@.timer, old(self)@.timer_base, now),
            ),
    {
        proof {
            assert(self.timer.wf());
        }
        let ghost v0 = old(self)@;
        let ghost k = split_index(v0.timer, v0.timer_base, now);
        let due = self.timer.pop_due(now);
        let ghost mid = KernelView { timer: v0.timer.skip(k), timer_base: now, ..v0 };
        proof {
            crate::timer::lemma_split_index(v0.timer, v0.timer_base, now);
            assert(self@ =~~= mid);
            let a = v0;
            let b = mid;
            assert forall|r2: int, t2: int|
                0 <= r2 < b.resources.len() && 0 <= t2 < b.tasks.len() implies
                #[trigger] b.cap_le_ceiling(r2, t2) by {
                assert(a.cap_le_ceiling(r2, t2));
            }
            assert forall|r2: int| 0 <= r2 < b.resources.len() implies
                #[trigger] b.ceiling_witnessed(r2) by {
                assert(a.ceiling_witnessed(r2));
                let w = choose|w: int|
                    0 <= w < a.tasks.len() && (#[trigger] a.tasks[w].caps).contains(r2 as usize)
                        && a.tasks[w].priority == a.resources[r2].ceiling;
                assert(b.tasks[w].caps.contains(r2 as usize));
            }
            assert forall|i: int| 0 <= i < b.timer.len() implies (#[trigger] b.timer[i]).task
                < b.tasks.len() by {
                assert(b.timer[i] == a.timer[k + i]);
            }
            assert(mid.wf());
            assert forall|i: int| 0 <= i < due@.len() implies (#[trigger] due@[i]).task
                < mid.tasks.len() by {
                assert(due@[i] == v0.timer[i]);
            }
        }
        let mut i: usize = 0;
        while i < due.len()
            invariant
                self.inv(),
                i <= due@.len(),
                due@ == v0.timer.take(k),
                forall|j: int| 0 <= j < due@.len() ==> (#[trigger] due@[j]).task < mid.tasks.len(),
                self@.tasks.len() == mid.tasks.len(),
                self@ == mid.deliver(due@.take(i as int)),
            decreases due@.len() - i,
        {
            let e = due[i];
            let _r = self.spawn(e.task, e.payload);
            proof {
                assert(due@.take(i + 1) =~= due@.take(i as int).push(e));
                lemma_deliver_snoc(mid, due@.take(i as int), e);
            }
            i = i + 1;
        }
        proof {
            assert(due@.take(due@.len() as int) =~= due@);
            assert(self@ == mid.deliver(due@));
            assert(final(self)@ == old(self)@.advance_tr(now));
        }
        due
    }
}

} // verus!
