use sched_core::ceiling::TaskDecl;
use sched_core::kernel::{Kernel, TaskState};
use sched_core::{ConfigError, FatalError};

fn two_tasks_sharing_one_resource() -> Kernel {
    // task 0 = L (priority 1), task 1 = H (priority 2), both share resource 0
    let decls = vec![
        TaskDecl { priority: 1, queue_capacity: 1, resources: vec![0] },
        TaskDecl { priority: 2, queue_capacity: 1, resources: vec![0] },
    ];
    Kernel::new(decls, 1, 8).unwrap()
}

#[test]
fn faulty_declaration_builds_nothing() {
    let decls = vec![TaskDecl { priority: 1, queue_capacity: 1, resources: vec![3] }];
    match Kernel::new(decls, 1, 4) {
        Err(ConfigError::UndeclaredResource { task, resource }) => {
            assert_eq!(task, 0);
            assert_eq!(resource, 3);
        },
        _ => panic!("an undeclared reference must fail the build"),
    }
}

#[test]
fn ceiling_is_computed_for_the_kernel() {
    let k = two_tasks_sharing_one_resource();
    assert_eq!(k.n_tasks(), 2);
    assert_eq!(k.n_resources(), 1);
    assert_eq!(k.resource_ceiling(0), 2);
}

#[test]
fn spawn_past_capacity_fails_until_dispatched() {
    let decls = vec![TaskDecl { priority: 1, queue_capacity: 2, resources: vec![0] }];
    let mut k = Kernel::new(decls, 1, 4).unwrap();
    k.start();
    assert!(k.spawn(0, 7).is_ok());
    assert!(k.spawn(0, 8).is_ok());
    // the (capacity+1)-th spawn and beyond keep failing
    assert!(k.spawn(0, 9).is_err());
    assert!(k.spawn(0, 10).is_err());
    assert_eq!(k.queue_len(0), 2);
    // dispatch consumes the oldest instance and frees one slot
    let run = k.dispatch().unwrap();
    assert_eq!(run, (0, 7));
    assert!(k.spawn(0, 11).is_ok());
    assert!(k.spawn(0, 12).is_err());
}

#[test]
fn dispatch_order_is_priority_then_activation() {
    // task A (index 0) priority 1 and task B (index 1) priority 2 are both
    // spawned, A first, during initialization; B still runs first.
    let k0 = two_tasks_sharing_one_resource();
    let mut k = k0;
    assert!(k.spawn(0, 0).is_ok());
    assert!(k.spawn(1, 0).is_ok());
    assert_eq!(k.state_of(0), TaskState::Pending);
    assert_eq!(k.state_of(1), TaskState::Pending);
    k.start();
    let first = k.dispatch().unwrap();
    assert_eq!(first.0, 1);
    assert_eq!(k.state_of(1), TaskState::Running);
    assert_eq!(k.state_of(0), TaskState::Pending);
    // B returns; A is the remaining pending instance
    assert!(k.complete().is_ok());
    assert_eq!(k.state_of(1), TaskState::Idle);
    let second = k.dispatch().unwrap();
    assert_eq!(second.0, 0);
    assert!(k.complete().is_ok());
    assert_eq!(k.state_of(0), TaskState::Idle);
}

#[test]
fn higher_priority_instance_preempts_running_task() {
    let mut k = two_tasks_sharing_one_resource();
    k.start();
    assert!(k.spawn(0, 0).is_ok());
    assert_eq!(k.dispatch().unwrap().0, 0);
    assert_eq!(k.state_of(0), TaskState::Running);
    // a higher-priority activation arrives while task 0 runs
    assert!(k.spawn(1, 0).is_ok());
    assert_eq!(k.dispatch().unwrap().0, 1);
    assert_eq!(k.state_of(0), TaskState::Suspended);
    assert_eq!(k.state_of(1), TaskState::Running);
    // the preemptor returns and the preempted task resumes
    assert!(k.complete().is_ok());
    assert_eq!(k.state_of(0), TaskState::Running);
    assert!(k.complete().is_ok());
}

#[test]
fn lower_priority_instance_does_not_preempt() {
    let mut k = two_tasks_sharing_one_resource();
    k.start();
    assert!(k.spawn(1, 0).is_ok());
    assert_eq!(k.dispatch().unwrap().0, 1);
    assert!(k.spawn(0, 0).is_ok());
    // priority 1 must wait for the running priority 2 task
    assert!(k.dispatch().is_none());
    assert_eq!(k.state_of(0), TaskState::Pending);
    assert!(k.complete().is_ok());
    assert_eq!(k.dispatch().unwrap().0, 0);
    assert!(k.complete().is_ok());
}

#[test]
fn ceiling_lock_blocks_sharers_and_releases_them() {
    let mut k = two_tasks_sharing_one_resource();
    k.start();
    assert!(k.spawn(0, 0).is_ok());
    assert_eq!(k.dispatch().unwrap().0, 0);
    // task 0 (priority 1) enters its critical section: raised to the ceiling 2
    k.lock_enter(0);
    assert_eq!(k.effective_priority(0), 2);
    // the ceiling-priority sharer becomes pending but is not admitted
    assert!(k.spawn(1, 0).is_ok());
    assert!(k.dispatch().is_none());
    assert_eq!(k.state_of(1), TaskState::Pending);
    // leaving the section restores the static priority and admits it
    k.lock_exit(0);
    assert_eq!(k.effective_priority(0), 1);
    assert_eq!(k.dispatch().unwrap().0, 1);
    assert!(k.complete().is_ok());
    assert!(k.complete().is_ok());
}

#[test]
fn timed_activations_share_a_resource_without_races() {
    // task H (index 1, priority 2) fires 2_000_000 ticks from start, task L
    // (index 0, priority 1) fires 1_000_000 ticks from start; both share
    // resource 0, whose ceiling is H's priority.
    let mut k = two_tasks_sharing_one_resource();
    k.init_resource(0, 0);
    assert!(k.schedule(1, 0, 2_000_000).is_ok());
    assert!(k.schedule(0, 0, 1_000_000).is_ok());
    k.start();
    // L's timestamp elapses first: L begins running
    let due1 = k.advance(1_000_000);
    assert_eq!(due1.len(), 1);
    assert_eq!(due1[0].task, 0);
    assert_eq!(k.dispatch().unwrap().0, 0);
    // H's timestamp elapses while L runs: H preempts L
    let due2 = k.advance(2_000_000);
    assert_eq!(due2.len(), 1);
    assert_eq!(due2[0].task, 1);
    assert_eq!(k.dispatch().unwrap().0, 1);
    assert_eq!(k.state_of(0), TaskState::Suspended);
    // H is the ceiling holder: it increments the resource without locking
    let seen_by_h = k.read_resource(0);
    k.write_resource(0, seen_by_h + 1);
    assert!(k.complete().is_ok());
    // L resumes; it must lock, and observes H's incremented value
    assert_eq!(k.current(), Some(0));
    k.lock_enter(0);
    assert_eq!(k.read_resource(0), 1);
    k.lock_exit(0);
    assert!(k.complete().is_ok());
}

#[test]
fn resource_round_trip_survives_preemption() {
    let mut k = two_tasks_sharing_one_resource();
    k.start();
    // the top-priority sharer writes a value
    assert!(k.spawn(1, 0).is_ok());
    assert_eq!(k.dispatch().unwrap().0, 1);
    k.write_resource(0, 42);
    assert!(k.complete().is_ok());
    // unrelated activity: spawns, dispatches, completions
    assert!(k.spawn(0, 0).is_ok());
    assert_eq!(k.dispatch().unwrap().0, 0);
    assert!(k.spawn(1, 0).is_ok());
    assert_eq!(k.dispatch().unwrap().0, 1);
    assert!(k.complete().is_ok());
    // the lower sharer locks and reads: no intermediate value was lost
    k.lock_enter(0);
    assert_eq!(k.read_resource(0), 42);
    k.lock_exit(0);
    assert!(k.complete().is_ok());
}

#[test]
fn idle_task_returning_is_fatal() {
    let mut k = two_tasks_sharing_one_resource();
    k.start();
    // with an empty stack the "returning" task is the idle task
    assert_eq!(k.complete(), Err(FatalError::IdleTaskReturned));
}

#[test]
fn late_resources_get_their_initial_values() {
    let mut k = two_tasks_sharing_one_resource();
    k.init_resource(0, 123);
    k.start();
    assert!(k.spawn(1, 0).is_ok());
    assert_eq!(k.dispatch().unwrap().0, 1);
    assert_eq!(k.read_resource(0), 123);
    assert!(k.complete().is_ok());
}

#[test]
fn dispatch_runs_nothing_while_everything_is_idle() {
    let mut k = two_tasks_sharing_one_resource();
    k.start();
    assert!(k.dispatch().is_none());
    assert_eq!(k.current(), None);
    assert_eq!(k.state_of(0), TaskState::Idle);
    assert_eq!(k.state_of(1), TaskState::Idle);
}

#[test]
fn expired_instance_is_dropped_when_its_queue_is_full() {
    let mut k = two_tasks_sharing_one_resource();
    k.start();
    // fill task 0's queue (capacity 1), then let a timer entry expire on it
    assert!(k.spawn(0, 1).is_ok());
    assert!(k.schedule(0, 2, 100).is_ok());
    let due = k.advance(100);
    assert_eq!(due.len(), 1);
    assert_eq!(k.queue_len(0), 1);
    // the queued instance is the earlier spawn, not the dropped expiry
    assert_eq!(k.dispatch().unwrap(), (0, 1));
    assert!(k.complete().is_ok());
}
