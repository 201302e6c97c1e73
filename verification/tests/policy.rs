use std::time::Instant;
use taski::dag::{Handle, TaskId};
use taski::execution::Execution;
use taski::policy::{Fifo, Policy, Priority};
use taski::schedule::Schedule;

fn schedule_with_labels(labels: &[u32]) -> Schedule<u32> {
    let mut s: Schedule<u32> = Schedule::new(1);
    for &l in labels {
        let _h: Handle<()> = s.add_node(vec![], l).unwrap();
    }
    s
}

#[test]
fn fifo_starts_tasks_in_ready_order() {
    let s = schedule_with_labels(&[0, 0, 0]);
    let ex: Execution<(), ()> = Execution::new(1, 3);
    let mut p = Fifo::new();
    p.on_task_ready(TaskId::new(1, 2), &s);
    p.on_task_ready(TaskId::new(1, 0), &s);
    p.on_task_ready(TaskId::new(1, 1), &s);
    assert_eq!(p.next_task(&s, &ex), Some(TaskId::new(1, 2)));
    assert_eq!(p.next_task(&s, &ex), Some(TaskId::new(1, 0)));
    assert_eq!(p.next_task(&s, &ex), Some(TaskId::new(1, 1)));
    assert_eq!(p.next_task(&s, &ex), None);
}

#[test]
fn fifo_skips_tasks_that_are_no_longer_pending() {
    let s = schedule_with_labels(&[0, 0]);
    let mut ex: Execution<(), ()> = Execution::new(1, 2);
    let mut p = Fifo::default();
    p.on_task_ready(TaskId::new(1, 0), &s);
    p.on_task_ready(TaskId::new(1, 1), &s);
    ex.mark_failed(TaskId::new(1, 0), Instant::now(), ());
    assert_eq!(p.next_task(&s, &ex), Some(TaskId::new(1, 1)));
    assert_eq!(p.next_task(&s, &ex), None);
}

#[test]
fn fifo_respects_the_concurrency_limit() {
    let s = schedule_with_labels(&[0, 0]);
    let mut ex: Execution<(), ()> = Execution::new(1, 2);
    let mut p = Fifo::max_concurrent(Some(1));
    assert_eq!(p.max_concurrent, Some(1));
    p.on_task_ready(TaskId::new(1, 0), &s);
    p.on_task_ready(TaskId::new(1, 1), &s);
    let first = p.next_task(&s, &ex).unwrap();
    ex.mark_running(first, Instant::now());
    assert_eq!(p.next_task(&s, &ex), None);
    ex.mark_succeeded(first, Instant::now(), ());
    assert_eq!(p.next_task(&s, &ex), Some(TaskId::new(1, 1)));
    let mut q = Fifo::from_limit(Some(0));
    q.on_task_ready(TaskId::new(1, 1), &s);
    assert_eq!(q.next_task(&s, &ex), None);
    q.set_max_concurrent(None);
    assert_eq!(q.next_task(&s, &ex), Some(TaskId::new(1, 1)));
}

#[test]
fn reset_forgets_ready_tasks() {
    let s = schedule_with_labels(&[3, 4]);
    let ex: Execution<(), ()> = Execution::new(1, 2);
    let mut f = Fifo::new();
    f.on_task_ready(TaskId::new(1, 0), &s);
    Policy::<u32>::reset(&mut f);
    assert_eq!(f.next_task(&s, &ex), None);
    let mut p = Priority::new();
    p.on_task_ready(TaskId::new(1, 1), &s);
    Policy::<u32>::reset(&mut p);
    assert_eq!(p.next_task(&s, &ex), None);
}

#[test]
fn priority_starts_the_highest_label_first() {
    // labels are priorities: 1, 1, 2, 1, 4, 3
    let s = schedule_with_labels(&[1, 1, 2, 1, 4, 3]);
    let mut ex: Execution<(), ()> = Execution::new(1, 6);
    let mut p = Priority::max_concurrent(Some(1));
    for idx in 0..6 {
        p.on_task_ready(TaskId::new(1, idx), &s);
    }
    let mut order = Vec::new();
    while let Some(t) = p.next_task(&s, &ex) {
        ex.mark_running(t, Instant::now());
        assert_eq!(p.next_task(&s, &ex), None);
        ex.mark_succeeded(t, Instant::now(), ());
        order.push(t.idx());
    }
    // equal labels: the most recently ready task first
    assert_eq!(order, vec![4, 5, 2, 3, 1, 0]);
}

#[test]
fn priority_ignores_tasks_that_are_not_pending() {
    let s = schedule_with_labels(&[9, 1]);
    let mut ex: Execution<(), ()> = Execution::new(1, 2);
    let mut p = Priority::from_limit(None);
    p.on_task_ready(TaskId::new(1, 0), &s);
    p.on_task_ready(TaskId::new(1, 1), &s);
    ex.mark_running(TaskId::new(1, 0), Instant::now());
    assert_eq!(p.next_task(&s, &ex), Some(TaskId::new(1, 1)));
    assert_eq!(p.next_task(&s, &ex), None);
    let mut q = Priority::new();
    q.set_max_concurrent(Some(1));
    assert_eq!(q.max_concurrent, Some(1));
}
