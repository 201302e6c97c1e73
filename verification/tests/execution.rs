use std::time::{Duration, Instant};
use taski::dag::{Handle, TaskId};
use taski::execution::{Execution, TaskExecution};
use taski::task::State;

#[test]
fn new_execution_is_all_pending() {
    let ex: Execution<String, String> = Execution::new(3, 4);
    assert_eq!(ex.running_count(), 0);
    assert_eq!(ex.unfinished_count(), 4);
    for idx in 0..4 {
        assert_eq!(ex.state(TaskId::new(3, idx)), State::Pending);
        assert_eq!(ex.started_at(TaskId::new(3, idx)), None);
        assert_eq!(ex.task_timeout(TaskId::new(3, idx)), None);
    }
    let t: TaskExecution<String, String> = TaskExecution::pending();
    assert_eq!(t.state, State::Pending);
    assert!(t.output.is_none() && t.error.is_none());
}

#[test]
fn counters_follow_the_states() {
    let mut ex: Execution<i32, String> = Execution::new(1, 3);
    let t0 = Instant::now();
    ex.mark_running(TaskId::new(1, 0), t0);
    ex.mark_running(TaskId::new(1, 1), t0);
    assert_eq!(ex.running_count(), 2);
    assert_eq!(ex.unfinished_count(), 3);
    // a second start is ignored
    ex.mark_running(TaskId::new(1, 1), t0 + Duration::from_secs(1));
    assert_eq!(ex.running_count(), 2);
    assert_eq!(ex.started_at(TaskId::new(1, 1)), Some(t0));
    ex.mark_succeeded(TaskId::new(1, 0), t0, 5);
    assert_eq!(ex.running_count(), 1);
    assert_eq!(ex.unfinished_count(), 2);
    ex.mark_failed(TaskId::new(1, 1), t0, "boom".to_string());
    assert_eq!(ex.running_count(), 0);
    assert_eq!(ex.unfinished_count(), 1);
    // a pending task may fail without running
    ex.mark_failed(TaskId::new(1, 2), t0, "dep".to_string());
    assert_eq!(ex.unfinished_count(), 0);
    assert_eq!(ex.state(TaskId::new(1, 2)), State::Failed);
}

#[test]
fn output_is_read_back_after_success() {
    let mut ex: Execution<String, String> = Execution::new(2, 1);
    let h: Handle<String> = Handle::new(TaskId::new(2, 0));
    assert_eq!(ex.output_ref(h), None);
    let now = Instant::now();
    ex.mark_running(h.task_id(), now);
    ex.mark_succeeded(h.task_id(), now, "out".to_string());
    assert_eq!(ex.state(h.task_id()), State::Succeeded);
    assert_eq!(ex.output_ref(h), Some(&"out".to_string()));
    assert_eq!(ex.completed_at(h.task_id()), Some(now));
}

#[test]
fn output_is_taken_once() {
    let mut ex: Execution<i32, String> = Execution::new(2, 2);
    let h: Handle<i32> = Handle::new(TaskId::new(2, 1));
    ex.mark_succeeded(h.task_id(), Instant::now(), 42);
    assert_eq!(ex.take_output(h), Some(42));
    assert_eq!(ex.take_output(h), None);
    assert_eq!(ex.take_output_dyn(h.task_id()), None);
    assert_eq!(ex.state(h.task_id()), State::Succeeded);
}

#[test]
fn failure_drops_the_output() {
    let mut ex: Execution<i32, String> = Execution::new(2, 1);
    let id = TaskId::new(2, 0);
    let now = Instant::now();
    ex.mark_succeeded(id, now, 1);
    ex.mark_failed(id, now, "late".to_string());
    assert_eq!(ex.state(id), State::Failed);
    assert_eq!(ex.output_ref(Handle::<i32>::new(id)), None);
}

#[test]
fn foreign_and_unknown_ids_are_ignored() {
    let mut ex: Execution<i32, String> = Execution::new(2, 1);
    let now = Instant::now();
    ex.mark_running(TaskId::new(3, 0), now);
    ex.mark_succeeded(TaskId::new(3, 0), now, 1);
    ex.mark_failed(TaskId::new(2, 7), now, "x".to_string());
    assert_eq!(ex.running_count(), 0);
    assert_eq!(ex.unfinished_count(), 1);
    assert_eq!(ex.state(TaskId::new(2, 0)), State::Pending);
    assert_eq!(ex.state(TaskId::new(3, 0)), State::Pending);
    assert_eq!(ex.output_ref(Handle::<i32>::new(TaskId::new(3, 0))), None);
    assert_eq!(ex.take_output_dyn(TaskId::new(3, 0)), None);
}

#[test]
fn first_completion_time_is_kept() {
    let mut ex: Execution<i32, String> = Execution::new(2, 1);
    let id = TaskId::new(2, 0);
    let t0 = Instant::now();
    let t1 = t0 + Duration::from_secs(3);
    ex.mark_succeeded(id, t0, 1);
    ex.mark_succeeded(id, t1, 2);
    assert_eq!(ex.completed_at(id), Some(t0));
    assert_eq!(ex.output_ref(Handle::<i32>::new(id)), Some(&2));
}

#[test]
fn task_timeouts_are_stored() {
    let mut ex: Execution<i32, String> = Execution::new(2, 2);
    let h: Handle<i32> = Handle::new(TaskId::new(2, 1));
    ex.set_task_timeout(TaskId::new(2, 0), Some(Duration::from_millis(5)));
    ex.set_task_timeout_handle(h, Some(Duration::from_millis(7)));
    ex.set_task_timeout(TaskId::new(9, 0), Some(Duration::from_millis(9)));
    assert_eq!(ex.task_timeout(TaskId::new(2, 0)), Some(Duration::from_millis(5)));
    assert_eq!(ex.task_timeout(h.task_id()), Some(Duration::from_millis(7)));
    assert_eq!(ex.task_timeout(TaskId::new(9, 0)), None);
    ex.set_task_timeout(TaskId::new(2, 0), None);
    assert_eq!(ex.task_timeout(TaskId::new(2, 0)), None);
}

#[test]
fn restarting_a_completed_task_counts_it_again() {
    let mut ex: Execution<i32, String> = Execution::new(1, 1);
    let id = TaskId::new(1, 0);
    let t0 = Instant::now();
    ex.mark_running(id, t0);
    ex.mark_succeeded(id, t0, 1);
    assert_eq!(ex.running_count(), 0);
    assert_eq!(ex.unfinished_count(), 0);
    ex.mark_running(id, t0 + Duration::from_secs(1));
    assert_eq!(ex.state(id), State::Running);
    assert_eq!(ex.running_count(), 1);
    assert_eq!(ex.unfinished_count(), 1);
    assert_eq!(ex.started_at(id), Some(t0));
}
