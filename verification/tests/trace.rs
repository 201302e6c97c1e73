use std::collections::HashSet;
use std::time::{Duration, Instant};
use taski::dag::TaskId;
use taski::trace::{
    ConcurrentIter, DefaultMakeSpan, DefaultTaskTraceLayer, Event, Level, NoopMakeSpan, NoopOnTaskResult,
    NoopOnTaskStart, NoopTaskTraceLayer, Task, TaskContext, TaskResultKind, Trace,
};

fn task(label: &str, start: u64, end: u64) -> Task {
    Task { label: label.to_string(), start, end }
}

fn trace_of(tasks: &[(usize, u64, u64)]) -> Trace<TaskId> {
    let mut t: Trace<TaskId> = Trace::new();
    for &(idx, start, end) in tasks {
        t.tasks.push((TaskId::new(1, idx), task("t", start, end)));
    }
    t
}

#[test]
fn duration_saturates_at_zero() {
    assert_eq!(task("a", 2, 9).duration(), 7);
    assert_eq!(task("a", 5, 3).duration(), 0);
    assert_eq!(task("a", 4, 4).duration(), 0);
}

#[test]
fn sort_chronologically_is_stable() {
    let mut t: Trace<&'static str> = Trace::new();
    t.tasks.push(("first5", task("a", 5, 6)));
    t.tasks.push(("one", task("b", 1, 9)));
    t.tasks.push(("second5", task("c", 5, 5)));
    t.tasks.push(("zero", task("d", 0, 3)));
    let start = t.start_time;
    t.sort_chronologically();
    let order: Vec<&str> = t.tasks.iter().map(|(k, _)| *k).collect();
    assert_eq!(order, vec!["zero", "one", "first5", "second5"]);
    assert_eq!(t.start_time, start);
}

#[test]
fn max_concurrent_counts_overlapping_tasks() {
    let t = trace_of(&[(0, 0, 10), (1, 5, 15), (2, 10, 20), (3, 20, 30)]);
    // the end of task 0 at 10 comes before the start of task 2 at 10
    assert_eq!(t.max_concurrent(), 2);
}

#[test]
fn equal_times_keep_the_order_of_the_tasks() {
    let t = trace_of(&[(2, 10, 20), (0, 0, 10), (1, 5, 15)]);
    // the start of task 2 at 10 comes before the end of task 0 at 10
    assert_eq!(t.max_concurrent(), 3);
}

#[test]
fn empty_trace_has_no_concurrency() {
    let t = trace_of(&[]);
    assert_eq!(t.max_concurrent(), 0);
    let mut it = t.iter_concurrent();
    assert_eq!(it.next(), None);
}

#[test]
fn iter_concurrent_yields_a_set_per_event() {
    let t = trace_of(&[(0, 0, 10), (1, 5, 15), (2, 10, 20)]);
    let mut it = t.iter_concurrent();
    let mut sets: Vec<HashSet<usize>> = Vec::new();
    while let Some(running) = it.next() {
        sets.push(running.iter().map(|id| id.idx()).collect());
    }
    let expected: Vec<HashSet<usize>> = vec![
        [0].into_iter().collect(),
        [0, 1].into_iter().collect(),
        [1].into_iter().collect(),
        [1, 2].into_iter().collect(),
        [2].into_iter().collect(),
        HashSet::new(),
    ];
    assert_eq!(sets, expected);
    assert_eq!(it.next(), None);
}

#[test]
fn concurrent_iter_over_a_slice() {
    let tasks = vec![(TaskId::new(1, 0), task("a", 3, 4)), (TaskId::new(1, 0), task("a", 1, 2))];
    let mut it = ConcurrentIter::new(&tasks);
    assert_eq!(it.next(), Some(vec![TaskId::new(1, 0)]));
    assert_eq!(it.next(), Some(vec![]));
    assert_eq!(it.next(), Some(vec![TaskId::new(1, 0)]));
    assert_eq!(it.next(), Some(vec![]));
    assert_eq!(it.next(), None);
}

#[test]
fn event_time() {
    assert_eq!(Event::Start(3).time(), 3);
    assert_eq!(Event::End(8).time(), 8);
}

#[test]
fn task_context_getters() {
    let ctx = TaskContext {
        task_id: TaskId::new(1, 2),
        name: "Sum".to_string(),
        metadata: 7u8,
        dependencies: vec![TaskId::new(1, 0), TaskId::new(1, 1)],
        timeout: Some(Duration::from_secs(2)),
    };
    assert_eq!(ctx.task_name(), "Sum");
    assert_eq!(*ctx.metadata(), 7);
    assert_eq!(ctx.dependencies(), &[TaskId::new(1, 0), TaskId::new(1, 1)]);
    assert_eq!(ctx.timeout(), Some(Duration::from_secs(2)));
    let copy = ctx.clone();
    assert_eq!(copy.task_name(), "Sum");
    assert_eq!(copy.dependencies().len(), 2);
}

#[test]
fn result_kinds() {
    let err = "boom".to_string();
    let k: TaskResultKind<'_, String> = TaskResultKind::Failed { err: &err };
    let copy = k;
    match copy {
        TaskResultKind::Failed { err } => assert_eq!(err, "boom"),
        _ => panic!("expected a failure"),
    }
    let t: TaskResultKind<'_, String> = TaskResultKind::TimedOut { timeout: Duration::from_secs(1) };
    assert!(matches!(t, TaskResultKind::TimedOut { .. }));
}

#[test]
fn span_levels() {
    assert_eq!(DefaultMakeSpan::new().level, Level::Trace);
    assert_eq!(DefaultMakeSpan::default().level, Level::Trace);
    assert_eq!(DefaultMakeSpan::new().level(Level::Info).level, Level::Info);
}

#[test]
fn trace_layer_builders_replace_one_hook() {
    let layer = DefaultTaskTraceLayer::new();
    assert_eq!(layer.make_span.level, Level::Trace);
    let layer = layer.make_span(DefaultMakeSpan::new().level(Level::Warn));
    assert_eq!(layer.make_span.level, Level::Warn);
    let layer = layer.on_start(7u32).on_result("done");
    assert_eq!(layer.on_start, 7);
    assert_eq!(layer.on_result, "done");
    assert_eq!(layer.make_span.level, Level::Warn);
    let noop = NoopTaskTraceLayer::new();
    let noop = noop.make_span(NoopMakeSpan).on_start(NoopOnTaskStart).on_result(NoopOnTaskResult);
    let _ = noop;
    let d = DefaultTaskTraceLayer::default();
    assert_eq!(d.make_span.level, Level::Trace);
    let _n = NoopTaskTraceLayer::default();
}

#[test]
fn new_trace_starts_now_and_is_empty() {
    let before = Instant::now();
    let t: Trace<TaskId> = Trace::new();
    let after = Instant::now();
    assert!(before <= t.start_time && t.start_time <= after);
    assert!(t.tasks.is_empty());
}

#[test]
fn latest_end_is_the_last_time_a_task_was_seen() {
    assert_eq!(trace_of(&[]).latest_end(), 0);
    assert_eq!(trace_of(&[(0, 1, 5), (1, 2, 9), (2, 3, 4)]).latest_end(), 9);
    // a task that ended before it started counts at its start
    assert_eq!(trace_of(&[(0, 1, 5), (1, 12, 7)]).latest_end(), 12);
}
