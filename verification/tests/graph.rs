use std::time::Instant;
use taski::dag::{Dir, Handle, TaskId};
use taski::execution::Execution;
use taski::schedule::{BuildError, Error, Schedule};
use taski::task::State;

#[derive(Debug, Clone, PartialEq)]
enum TestError {
    Dependency,
    Custom,
}

impl From<Error> for TestError {
    fn from(_: Error) -> Self {
        TestError::Dependency
    }
}

fn id(schedule: &Schedule<&'static str>, idx: usize) -> TaskId {
    TaskId::new(schedule.schedule_id(), idx)
}

#[test]
fn add_node_assigns_consecutive_indices() {
    let mut s: Schedule<&'static str> = Schedule::new(7);
    let a: Handle<i32> = s.add_node(vec![], "a").unwrap();
    let b: Handle<i32> = s.add_node(vec![a.task_id()], "b").unwrap();
    let c: Handle<i32> = s.add_node(vec![a.task_id(), b.task_id()], "c").unwrap();
    assert_eq!(a.task_id(), TaskId::new(7, 0));
    assert_eq!(b.task_id(), TaskId::new(7, 1));
    assert_eq!(c.task_id(), TaskId::new(7, 2));
    assert_eq!(s.node_count(), 3);
    assert!(s.contains_task(2));
    assert!(!s.contains_task(3));
    assert_eq!(s.task_label(c.task_id()), &"c");
    assert_eq!(s.task_dependencies(c.task_id()), &vec![TaskId::new(7, 0), TaskId::new(7, 1)]);
    assert_eq!(s.node_indices(), vec![0, 1, 2]);
}

#[test]
fn add_input_has_no_dependencies() {
    let mut s: Schedule<&'static str> = Schedule::new(1);
    let x: Handle<String> = s.add_input("x");
    let y: Handle<String> = s.add_input("y");
    assert_eq!(x.task_id().idx(), 0);
    assert_eq!(y.task_id().idx(), 1);
    assert!(s.task_dependencies(y.task_id()).is_empty());
    assert!(s.neighbors(1, Dir::Incoming).is_empty());
}

#[test]
fn dependency_of_other_schedule_is_refused() {
    let mut other: Schedule<&'static str> = Schedule::new(2);
    let foreign: Handle<i32> = other.add_node(vec![], "foreign").unwrap();
    let mut s: Schedule<&'static str> = Schedule::new(1);
    let _a: Handle<i32> = s.add_node(vec![], "a").unwrap();
    let r: Result<Handle<i32>, BuildError> = s.add_node(vec![foreign.task_id()], "b");
    assert_eq!(r.unwrap_err(), BuildError::DifferentScheduleDependency);
    assert_eq!(s.node_count(), 1);
    assert!(s.neighbors(0, Dir::Outgoing).is_empty());
}

#[test]
fn missing_dependency_is_refused() {
    let mut s: Schedule<&'static str> = Schedule::new(1);
    let _a: Handle<i32> = s.add_node(vec![], "a").unwrap();
    let r: Result<Handle<i32>, BuildError> = s.add_node(vec![TaskId::new(1, 0), TaskId::new(1, 5)], "b");
    assert_eq!(r.unwrap_err(), BuildError::MissingDependency);
    assert_eq!(s.node_count(), 1);
    assert!(s.neighbors(0, Dir::Outgoing).is_empty());
}

#[test]
fn first_bad_dependency_decides_the_error() {
    let mut s: Schedule<&'static str> = Schedule::new(1);
    let r: Result<Handle<i32>, BuildError> = s.add_node(vec![TaskId::new(1, 3), TaskId::new(9, 0)], "a");
    assert_eq!(r.unwrap_err(), BuildError::MissingDependency);
    let r: Result<Handle<i32>, BuildError> = s.add_node(vec![TaskId::new(9, 0), TaskId::new(1, 3)], "a");
    assert_eq!(r.unwrap_err(), BuildError::DifferentScheduleDependency);
}

#[test]
fn neighbors_list_most_recent_edge_first() {
    let mut s: Schedule<&'static str> = Schedule::new(3);
    let a: Handle<i32> = s.add_node(vec![], "a").unwrap();
    let b: Handle<i32> = s.add_node(vec![a.task_id()], "b").unwrap();
    let _c: Handle<i32> = s.add_node(vec![a.task_id(), b.task_id(), a.task_id()], "c").unwrap();
    assert_eq!(s.neighbors(0, Dir::Outgoing), vec![2, 2, 1]);
    assert_eq!(s.neighbors(2, Dir::Incoming), vec![0, 1, 0]);
    assert_eq!(s.neighbors(1, Dir::Incoming), vec![0]);
    assert!(s.neighbors(2, Dir::Outgoing).is_empty());
    assert!(s.neighbors(10, Dir::Outgoing).is_empty());
}

#[test]
fn edges_only_point_to_later_tasks() {
    let mut s: Schedule<&'static str> = Schedule::new(3);
    let a: Handle<i32> = s.add_node(vec![], "a").unwrap();
    let b: Handle<i32> = s.add_node(vec![a.task_id()], "b").unwrap();
    let _c: Handle<i32> = s.add_node(vec![b.task_id(), a.task_id()], "c").unwrap();
    for idx in s.node_indices() {
        for dep in s.neighbors(idx, Dir::Incoming) {
            assert!(dep < idx);
        }
        for dependant in s.neighbors(idx, Dir::Outgoing) {
            assert!(dependant > idx);
        }
    }
}

#[test]
fn fail_dependants_fails_pending_transitive_dependants() {
    // a -> b -> c, a -> d, e independent
    let mut s: Schedule<&'static str> = Schedule::new(4);
    let a: Handle<i32> = s.add_node(vec![], "a").unwrap();
    let b: Handle<i32> = s.add_node(vec![a.task_id()], "b").unwrap();
    let _c: Handle<i32> = s.add_node(vec![b.task_id()], "c").unwrap();
    let _d: Handle<i32> = s.add_node(vec![a.task_id()], "d").unwrap();
    let _e: Handle<i32> = s.add_node(vec![], "e").unwrap();
    let mut ex: Execution<i32, TestError> = Execution::new(4, 5);
    let now = Instant::now();
    ex.mark_running(id(&s, 0), now);
    ex.mark_failed(id(&s, 0), now, TestError::Custom);
    let failed = s.fail_dependants(&mut ex, id(&s, 0), now);
    // the walk visits the most recent dependant of each task first
    assert_eq!(failed, vec![id(&s, 3), id(&s, 1), id(&s, 2)]);
    for idx in 1..4 {
        assert_eq!(ex.state(id(&s, idx)), State::Failed);
    }
    assert_eq!(ex.state(id(&s, 4)), State::Pending);
    assert_eq!(ex.unfinished_count(), 1);
    assert_eq!(ex.running_count(), 0);
}

#[test]
fn fail_dependants_leaves_finished_tasks_alone() {
    let mut s: Schedule<&'static str> = Schedule::new(5);
    let a: Handle<i32> = s.add_node(vec![], "a").unwrap();
    let b: Handle<i32> = s.add_node(vec![a.task_id()], "b").unwrap();
    let _c: Handle<i32> = s.add_node(vec![b.task_id()], "c").unwrap();
    let mut ex: Execution<i32, TestError> = Execution::new(5, 3);
    let now = Instant::now();
    ex.mark_succeeded(id(&s, 1), now, 10);
    let failed = s.fail_dependants(&mut ex, id(&s, 0), now);
    assert_eq!(failed, vec![id(&s, 2)]);
    assert_eq!(ex.state(id(&s, 1)), State::Succeeded);
    assert_eq!(ex.output_ref(Handle::<i32>::new(id(&s, 1))), Some(&10));
    assert_eq!(ex.state(id(&s, 2)), State::Failed);
}

#[test]
fn failed_dependants_get_the_dependency_error() {
    let mut s: Schedule<&'static str> = Schedule::new(6);
    let a: Handle<i32> = s.add_node(vec![], "a").unwrap();
    let _b: Handle<i32> = s.add_node(vec![a.task_id()], "b").unwrap();
    let mut ex: Execution<i32, TestError> = Execution::new(6, 2);
    let now = Instant::now();
    let failed = s.fail_dependants(&mut ex, id(&s, 0), now);
    assert_eq!(failed, vec![id(&s, 1)]);
    assert_eq!(ex.completed_at(id(&s, 1)), Some(now));
    assert_eq!(TestError::from(Error::FailedDependency), TestError::Dependency);
}

#[test]
fn ready_and_running_lists() {
    let mut s: Schedule<&'static str> = Schedule::new(8);
    let a: Handle<i32> = s.add_node(vec![], "a").unwrap();
    let b: Handle<i32> = s.add_node(vec![], "b").unwrap();
    let _c: Handle<i32> = s.add_node(vec![a.task_id(), b.task_id()], "c").unwrap();
    let mut ex: Execution<i32, TestError> = Execution::new(8, 3);
    assert_eq!(s.ready(&ex), vec![id(&s, 0), id(&s, 1)]);
    let now = Instant::now();
    ex.mark_running(id(&s, 0), now);
    assert_eq!(s.running(&ex), vec![id(&s, 0)]);
    assert_eq!(s.ready(&ex), vec![id(&s, 1)]);
    ex.mark_succeeded(id(&s, 0), now, 1);
    ex.mark_succeeded(id(&s, 1), now, 2);
    assert_eq!(s.ready(&ex), vec![id(&s, 2)]);
    assert!(s.running(&ex).is_empty());
    assert_eq!(s.task_state(&ex, id(&s, 2)), State::Pending);
}
