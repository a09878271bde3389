use sched_core::ceiling::{compute_ceilings, TaskDecl};
use sched_core::msg_queue::MessageQueue;
use sched_core::timer::TimerQueue;
use sched_core::ConfigError;

#[test]
fn message_queue_is_fifo_within_capacity() {
    let mut q: MessageQueue<u32> = MessageQueue::new(3);
    assert_eq!(q.capacity(), 3);
    assert!(q.is_empty());
    assert!(q.enqueue(10).is_ok());
    assert!(q.enqueue(20).is_ok());
    assert!(q.enqueue(30).is_ok());
    assert_eq!(q.len(), 3);
    assert_eq!(q.dequeue(), 10);
    assert_eq!(q.dequeue(), 20);
    assert_eq!(q.dequeue(), 30);
    assert!(q.is_empty());
}

#[test]
fn message_queue_rejects_past_capacity_until_drained() {
    let mut q: MessageQueue<u32> = MessageQueue::new(2);
    assert!(q.enqueue(1).is_ok());
    assert!(q.enqueue(2).is_ok());
    // the (capacity+1)-th attempt and beyond fail, leaving the queue as is
    assert!(q.enqueue(3).is_err());
    assert!(q.enqueue(4).is_err());
    assert_eq!(q.len(), 2);
    // draining one slot readmits exactly one producer
    assert_eq!(q.dequeue(), 1);
    assert!(q.enqueue(5).is_ok());
    assert!(q.enqueue(6).is_err());
    assert_eq!(q.dequeue(), 2);
    assert_eq!(q.dequeue(), 5);
}

#[test]
fn timer_queue_pops_due_prefix_in_order() {
    let mut tq: TimerQueue<u32> = TimerQueue::new(8);
    // inserted out of order: T2, T1, T3 with T1 < T2 < T3
    assert!(tq.insert(0, 2, 200).is_ok());
    assert!(tq.insert(0, 1, 100).is_ok());
    assert!(tq.insert(0, 3, 300).is_ok());
    // now between T2 and T3: exactly T1 and T2 come back, in that order
    let due = tq.pop_due(250);
    assert_eq!(due.len(), 2);
    assert_eq!(due[0].timestamp, 100);
    assert_eq!(due[0].payload, 1);
    assert_eq!(due[1].timestamp, 200);
    assert_eq!(due[1].payload, 2);
    assert_eq!(tq.len(), 1);
    let rest = tq.pop_due(300);
    assert_eq!(rest.len(), 1);
    assert_eq!(rest[0].timestamp, 300);
    assert_eq!(tq.len(), 0);
}

#[test]
fn timer_queue_keeps_insertion_order_among_equal_timestamps() {
    let mut tq: TimerQueue<u32> = TimerQueue::new(4);
    assert!(tq.insert(0, 1, 500).is_ok());
    assert!(tq.insert(0, 2, 500).is_ok());
    assert!(tq.insert(0, 3, 500).is_ok());
    let due = tq.pop_due(500);
    assert_eq!(due.len(), 3);
    assert_eq!(due[0].payload, 1);
    assert_eq!(due[1].payload, 2);
    assert_eq!(due[2].payload, 3);
}

#[test]
fn timer_queue_orders_across_counter_wraparound() {
    let mut tq: TimerQueue<u32> = TimerQueue::new(4);
    // move the base close to the top of the counter
    assert!(tq.insert(0, 0, u64::MAX - 100).is_ok());
    let due = tq.pop_due(u64::MAX - 100);
    assert_eq!(due.len(), 1);
    // a timestamp past the wrap point is "later" than one just below it
    assert!(tq.insert(0, 2, 5).is_ok());
    assert!(tq.insert(0, 1, u64::MAX - 5).is_ok());
    let first = tq.pop_due(u64::MAX - 5);
    assert_eq!(first.len(), 1);
    assert_eq!(first[0].payload, 1);
    let second = tq.pop_due(10);
    assert_eq!(second.len(), 1);
    assert_eq!(second[0].payload, 2);
}

#[test]
fn timer_queue_rejects_past_capacity() {
    let mut tq: TimerQueue<u32> = TimerQueue::new(1);
    assert!(tq.insert(0, 1, 10).is_ok());
    assert!(tq.insert(0, 2, 20).is_err());
    assert_eq!(tq.len(), 1);
}

#[test]
fn ceilings_are_max_sharer_priority() {
    let tasks = vec![
        TaskDecl { priority: 1, queue_capacity: 1, resources: vec![0, 1] },
        TaskDecl { priority: 3, queue_capacity: 1, resources: vec![0] },
        TaskDecl { priority: 2, queue_capacity: 1, resources: vec![1] },
    ];
    let c = compute_ceilings(&tasks, 2).unwrap();
    assert_eq!(c, vec![3, 2]);
}

#[test]
fn undeclared_resource_reference_is_rejected() {
    let tasks = vec![TaskDecl { priority: 1, queue_capacity: 1, resources: vec![1] }];
    match compute_ceilings(&tasks, 1) {
        Err(ConfigError::UndeclaredResource { task, resource }) => {
            assert_eq!(task, 0);
            assert_eq!(resource, 1);
        },
        _ => panic!("an out-of-table reference must be rejected"),
    }
}

#[test]
fn unreferenced_resource_is_rejected() {
    let tasks = vec![TaskDecl { priority: 1, queue_capacity: 1, resources: vec![0] }];
    match compute_ceilings(&tasks, 2) {
        Err(ConfigError::UnreferencedResource { resource }) => assert_eq!(resource, 1),
        _ => panic!("a never-referenced resource must be rejected"),
    }
}

#[test]
fn zero_priority_task_is_rejected() {
    let tasks = vec![
        TaskDecl { priority: 1, queue_capacity: 1, resources: vec![0] },
        TaskDecl { priority: 0, queue_capacity: 1, resources: vec![] },
    ];
    match compute_ceilings(&tasks, 1) {
        Err(ConfigError::InvalidPriority { task }) => assert_eq!(task, 1),
        _ => panic!("the reserved idle priority must be rejected"),
    }
}
