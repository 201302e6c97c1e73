use std::collections::VecDeque;
use std::time::{Duration, Instant};
use taski::dag::{Handle, TaskId};
use taski::execution::Execution;
use taski::executor::{PolicyExecutor, RunError, RunReport, Step, TimeoutError};
use taski::policy::{Fifo, Policy};
use taski::schedule::{Error, Schedule};
use taski::task::State;
use taski::trace::Task;

#[derive(Debug, Clone, PartialEq)]
enum TestError {
    Dependency,
    Task(String),
}

impl From<Error> for TestError {
    fn from(_: Error) -> Self {
        TestError::Dependency
    }
}

type Compute = dyn Fn(usize, Vec<String>) -> Result<String, TestError>;

/// Drives an executor to the end: started tasks complete one at a time, oldest first, each on
/// the outputs of its dependencies. Times in the trace are steps of a logical clock.
fn drive<P: Policy<L>, L>(
    ex: &mut PolicyExecutor<P, L, String, TestError>,
    compute: &Compute,
) -> Result<RunReport, RunError> {
    ex.begin_run();
    let mut clock: u64 = 0;
    let mut started: VecDeque<(TaskId, u64, Result<String, TestError>)> = VecDeque::new();
    loop {
        clock += 1;
        match ex.next_step(Instant::now()) {
            Step::Start(id) => {
                let deps = ex.schedule().task_dependencies(id).clone();
                let mut inputs = Vec::new();
                let mut available = true;
                for d in deps {
                    match ex.execution().output_ref(Handle::<String>::new(d)) {
                        Some(v) => inputs.push(v.clone()),
                        None => available = false,
                    }
                }
                if available {
                    started.push_back((id, clock, compute(id.idx(), inputs)));
                } else {
                    ex.task_unavailable(id, Instant::now());
                }
            }
            Step::Wait => match started.pop_front() {
                Some((id, start, result)) => {
                    let traced = Task { label: format!("task {}", id.idx()), start, end: clock };
                    ex.task_completed(id, traced, result, Instant::now());
                }
                None => return Err(ex.stalled_error()),
            },
            Step::Finished(report) => return Ok(report),
            Step::UnknownTask(id) => panic!("unknown task {id:?}"),
        }
    }
}

fn id_of<O>(h: Handle<O>) -> TaskId {
    h.task_id()
}

#[test]
fn fifo_scheduler() {
    let mut s: Schedule<&'static str> = Schedule::new(1);
    let i0: Handle<String> = s.add_input("input");
    let n0: Handle<String> = s.add_node(vec![i0.task_id()], "identity").unwrap();
    let n1: Handle<String> = s.add_node(vec![n0.task_id()], "identity").unwrap();
    let n2: Handle<String> = s.add_node(vec![n0.task_id()], "identity").unwrap();
    let result: Handle<String> = s.add_node(vec![n1.task_id(), n2.task_id()], "combine").unwrap();
    let mut ex = PolicyExecutor::fifo(s);
    let compute = |idx: usize, inputs: Vec<String>| -> Result<String, TestError> {
        match idx {
            0 => Ok("Hello".to_string()),
            4 => Ok(format!("{} {}", inputs[0], inputs[1])),
            _ => Ok(inputs[0].clone()),
        }
    };
    let report = drive(&mut ex, &compute).unwrap();
    assert_eq!(report, RunReport { total_tasks: 5, succeeded_tasks: 5, failed_tasks: 0 });
    assert_eq!(ex.execution().output_ref(result).cloned().as_deref(), Some("Hello Hello"));
    assert_eq!(ex.trace().max_concurrent(), 2);
    assert_eq!(ex.trace().tasks.len(), 5);
    assert_eq!(ex.execution().unfinished_count(), 0);
}

#[test]
fn concurrency_limit_of_one_runs_tasks_one_at_a_time() {
    let mut s: Schedule<&'static str> = Schedule::new(1);
    for _ in 0..4 {
        let _h: Handle<String> = s.add_input("input");
    }
    let mut ex = PolicyExecutor::fifo(s).max_concurrent(Some(1));
    let compute = |idx: usize, _inputs: Vec<String>| -> Result<String, TestError> { Ok(idx.to_string()) };
    let report = drive(&mut ex, &compute).unwrap();
    assert_eq!(report.succeeded_tasks, 4);
    assert_eq!(ex.trace().max_concurrent(), 1);
    let order: Vec<usize> = ex.trace().tasks.iter().map(|(t, _)| t.idx()).collect();
    assert_eq!(order, vec![0, 1, 2, 3]);
}

#[test]
fn priority_scheduler() {
    let mut s: Schedule<u32> = Schedule::new(1);
    let mut ids = Vec::new();
    for p in [1u32, 1, 2, 1, 4, 3] {
        let h: Handle<String> = s.add_node(vec![], p).unwrap();
        ids.push(h.task_id());
    }
    let mut ex = PolicyExecutor::priority(s).max_concurrent(Some(1));
    let compute = |_idx: usize, _inputs: Vec<String>| -> Result<String, TestError> { Ok(String::new()) };
    drive(&mut ex, &compute).unwrap();
    ex.trace_mut().sort_chronologically();
    assert_eq!(ex.trace().max_concurrent(), 1);
    let order: Vec<TaskId> = ex.trace().tasks.iter().map(|(t, _)| *t).collect();
    assert_eq!(order, vec![ids[4], ids[5], ids[2], ids[3], ids[1], ids[0]]);
}

#[test]
fn a_failed_task_fails_its_dependants() {
    // a -> b -> c, d independent
    let mut s: Schedule<&'static str> = Schedule::new(1);
    let a: Handle<String> = s.add_input("a");
    let b: Handle<String> = s.add_node(vec![a.task_id()], "b").unwrap();
    let c: Handle<String> = s.add_node(vec![b.task_id()], "c").unwrap();
    let d: Handle<String> = s.add_input("d");
    let mut ex = PolicyExecutor::fifo(s);
    let compute = |idx: usize, _inputs: Vec<String>| -> Result<String, TestError> {
        if idx == 0 {
            Err(TestError::Task("bad input".to_string()))
        } else {
            Ok("ok".to_string())
        }
    };
    let report = drive(&mut ex, &compute).unwrap();
    assert_eq!(report, RunReport { total_tasks: 4, succeeded_tasks: 1, failed_tasks: 3 });
    assert_eq!(ex.execution().state(id_of(a)), State::Failed);
    assert_eq!(ex.execution().state(id_of(b)), State::Failed);
    assert_eq!(ex.execution().state(id_of(c)), State::Failed);
    assert_eq!(ex.execution().state(id_of(d)), State::Succeeded);
    // only the tasks that ran are traced
    assert_eq!(ex.trace().tasks.len(), 2);
}

#[test]
fn a_task_without_inputs_fails_with_its_dependants() {
    let mut s: Schedule<&'static str> = Schedule::new(1);
    let a: Handle<String> = s.add_input("a");
    let b: Handle<String> = s.add_node(vec![a.task_id()], "b").unwrap();
    let mut ex: PolicyExecutor<Fifo, &'static str, String, TestError> = PolicyExecutor::fifo(s);
    ex.begin_run();
    let now = Instant::now();
    assert_eq!(ex.next_step(now), Step::Start(id_of(a)));
    ex.task_unavailable(id_of(a), now);
    assert_eq!(ex.execution().state(id_of(a)), State::Failed);
    assert_eq!(ex.execution().state(id_of(b)), State::Failed);
    assert_eq!(ex.next_step(now), Step::Finished(RunReport { total_tasks: 2, succeeded_tasks: 0, failed_tasks: 2 }));
}

#[test]
fn dependants_start_only_after_their_dependencies_succeeded() {
    let mut s: Schedule<&'static str> = Schedule::new(1);
    let a: Handle<String> = s.add_input("a");
    let b: Handle<String> = s.add_input("b");
    let c: Handle<String> = s.add_node(vec![a.task_id(), b.task_id()], "c").unwrap();
    let mut ex: PolicyExecutor<Fifo, &'static str, String, TestError> = PolicyExecutor::fifo(s);
    ex.begin_run();
    let now = Instant::now();
    assert_eq!(ex.next_step(now), Step::Start(id_of(a)));
    assert_eq!(ex.next_step(now), Step::Start(id_of(b)));
    assert_eq!(ex.next_step(now), Step::Wait);
    ex.task_completed(id_of(a), Task { label: "a".to_string(), start: 0, end: 1 }, Ok("x".to_string()), now);
    assert_eq!(ex.next_step(now), Step::Wait);
    ex.task_completed(id_of(b), Task { label: "b".to_string(), start: 0, end: 2 }, Ok("y".to_string()), now);
    assert_eq!(ex.next_step(now), Step::Start(id_of(c)));
    assert_eq!(ex.execution().state(id_of(c)), State::Running);
    assert_eq!(ex.next_step(now), Step::Wait);
    ex.task_completed(id_of(c), Task { label: "c".to_string(), start: 2, end: 3 }, Ok("z".to_string()), now);
    assert_eq!(ex.next_step(now), Step::Finished(RunReport { total_tasks: 3, succeeded_tasks: 3, failed_tasks: 0 }));
}

#[test]
fn empty_schedule_finishes_at_once() {
    let s: Schedule<&'static str> = Schedule::new(1);
    let mut ex: PolicyExecutor<Fifo, &'static str, String, TestError> = PolicyExecutor::fifo(s);
    ex.begin_run();
    assert_eq!(ex.next_step(Instant::now()), Step::Finished(RunReport { total_tasks: 0, succeeded_tasks: 0, failed_tasks: 0 }));
}

/// A policy that never starts anything.
struct Idle;

impl Policy<&'static str> for Idle {
    fn reset(&mut self) {}
    fn on_task_ready(&mut self, _task_id: TaskId, _schedule: &Schedule<&'static str>) {}
    fn on_task_started(&mut self, _task_id: TaskId, _schedule: &Schedule<&'static str>) {}
    fn on_task_finished(&mut self, _task_id: TaskId, _state: State, _schedule: &Schedule<&'static str>) {}
    fn next_task<V, E>(&mut self, _schedule: &Schedule<&'static str>, _execution: &Execution<V, E>) -> Option<TaskId> {
        None
    }
}

/// A policy that names a task of another schedule.
struct Stranger;

impl Policy<&'static str> for Stranger {
    fn reset(&mut self) {}
    fn on_task_ready(&mut self, _task_id: TaskId, _schedule: &Schedule<&'static str>) {}
    fn on_task_started(&mut self, _task_id: TaskId, _schedule: &Schedule<&'static str>) {}
    fn on_task_finished(&mut self, _task_id: TaskId, _state: State, _schedule: &Schedule<&'static str>) {}
    fn next_task<V, E>(&mut self, _schedule: &Schedule<&'static str>, _execution: &Execution<V, E>) -> Option<TaskId> {
        Some(TaskId::new(99, 0))
    }
}

#[test]
fn an_idle_policy_stalls_the_run() {
    let mut s: Schedule<&'static str> = Schedule::new(1);
    let _a: Handle<String> = s.add_input("a");
    let _b: Handle<String> = s.add_input("b");
    let mut ex = PolicyExecutor::new(s, Idle);
    let compute = |_idx: usize, _inputs: Vec<String>| -> Result<String, TestError> { Ok(String::new()) };
    match drive(&mut ex, &compute) {
        Err(RunError::Stalled { unfinished_tasks, pending_task_indices }) => {
            assert_eq!(unfinished_tasks, 2);
            assert_eq!(pending_task_indices, vec![0, 1]);
        }
        other => panic!("expected a stall, got {other:?}"),
    }
}

#[test]
fn a_task_of_another_schedule_is_reported() {
    let mut s: Schedule<&'static str> = Schedule::new(1);
    let _a: Handle<String> = s.add_input("a");
    let mut ex: PolicyExecutor<Stranger, &'static str, String, TestError> = PolicyExecutor::new(s, Stranger);
    ex.begin_run();
    assert_eq!(ex.next_step(Instant::now()), Step::UnknownTask(TaskId::new(99, 0)));
    assert_eq!(ex.execution().running_count(), 0);
}

#[test]
fn timed_out_error_lists_pending_and_running_tasks() {
    let mut s: Schedule<&'static str> = Schedule::new(1);
    let a: Handle<String> = s.add_input("a");
    let _b: Handle<String> = s.add_node(vec![a.task_id()], "b").unwrap();
    let mut ex: PolicyExecutor<Fifo, &'static str, String, TestError> =
        PolicyExecutor::fifo(s).timeout(Some(Duration::from_millis(250)));
    assert_eq!(ex.run_timeout_value(), Some(Duration::from_millis(250)));
    ex.begin_run();
    assert_eq!(ex.next_step(Instant::now()), Step::Start(id_of(a)));
    match ex.timed_out_error() {
        RunError::TimedOut { timeout, unfinished_tasks, pending_task_indices, running_task_indices } => {
            assert_eq!(timeout, Duration::from_millis(250));
            assert_eq!(unfinished_tasks, 2);
            assert_eq!(pending_task_indices, vec![1]);
            assert_eq!(running_task_indices, vec![0]);
        }
        other => panic!("expected a timeout, got {other:?}"),
    }
}

#[test]
fn timed_out_error_without_timeout_reports_zero() {
    let mut s: Schedule<&'static str> = Schedule::new(1);
    let _a: Handle<String> = s.add_input("a");
    let ex: PolicyExecutor<Fifo, &'static str, String, TestError> = PolicyExecutor::fifo(s);
    match ex.timed_out_error() {
        RunError::TimedOut { timeout, .. } => assert_eq!(timeout, Duration::ZERO),
        other => panic!("expected a timeout, got {other:?}"),
    }
}

#[test]
fn task_timeouts_through_the_executor() {
    let mut s: Schedule<&'static str> = Schedule::new(1);
    let a: Handle<String> = s.add_input("a");
    let mut ex: PolicyExecutor<Fifo, &'static str, String, TestError> = PolicyExecutor::fifo(s);
    ex.set_task_timeout_handle(a, Some(Duration::from_secs(1)));
    assert_eq!(ex.execution().task_timeout(id_of(a)), Some(Duration::from_secs(1)));
    ex.set_task_timeout(id_of(a), None);
    assert_eq!(ex.execution().task_timeout(id_of(a)), None);
    ex.execution_mut().set_task_timeout(id_of(a), Some(Duration::from_secs(2)));
    let (schedule, execution) = ex.schedule_and_execution_mut();
    assert_eq!(schedule.node_count(), 1);
    assert_eq!(execution.task_timeout(id_of(a)), Some(Duration::from_secs(2)));
    let err = TimeoutError::TaskTimedOut { timeout: Duration::from_secs(2) };
    assert!(matches!(err, TimeoutError::TaskTimedOut { timeout } if timeout == Duration::from_secs(2)));
    assert!(ex.policy().max_concurrent.is_none());
}

#[derive(Debug, PartialEq, Eq, Hash, Clone, Copy)]
enum Kind {
    Download,
    Process,
}

/// At most `limits[kind]` tasks of each kind run at once; ready tasks start in FIFO order,
/// skipping the ones whose kind is at its limit.
struct CustomPolicy {
    limits: std::collections::HashMap<Kind, usize>,
    ready: VecDeque<usize>,
    running_by_label: std::collections::HashMap<Kind, usize>,
}

impl Policy<Kind> for CustomPolicy {
    fn reset(&mut self) {
        self.ready.clear();
        self.running_by_label.clear();
    }

    fn on_task_ready(&mut self, task_id: TaskId, _schedule: &Schedule<Kind>) {
        self.ready.push_back(task_id.idx());
    }

    fn on_task_started(&mut self, task_id: TaskId, schedule: &Schedule<Kind>) {
        let label = *schedule.task_label(task_id);
        *self.running_by_label.entry(label).or_insert(0) += 1;
    }

    fn on_task_finished(&mut self, task_id: TaskId, _state: State, schedule: &Schedule<Kind>) {
        let label = *schedule.task_label(task_id);
        if let Some(running) = self.running_by_label.get_mut(&label) {
            *running = running.saturating_sub(1);
            if *running == 0 {
                self.running_by_label.remove(&label);
            }
        }
    }

    fn next_task<V, E>(&mut self, schedule: &Schedule<Kind>, execution: &Execution<V, E>) -> Option<TaskId> {
        let attempts = self.ready.len();
        for _ in 0..attempts {
            let task_idx = self.ready.pop_front()?;
            let task_id = schedule.task_id(task_idx);
            if !execution.state(task_id).is_pending() {
                continue;
            }
            let label = *schedule.task_label(task_id);
            let running = self.running_by_label.get(&label).copied().unwrap_or(0);
            match self.limits.get(&label) {
                Some(limit) if running < *limit => return Some(task_id),
                None => return Some(task_id),
                _ => self.ready.push_back(task_idx),
            }
        }
        None
    }
}

#[test]
fn custom_scheduler() {
    let mut s: Schedule<Kind> = Schedule::new(1);
    let downloads: Vec<Handle<String>> = (0..6).map(|_| s.add_node(vec![], Kind::Download).unwrap()).collect();
    for d in &downloads {
        let _p: Handle<String> = s.add_node(vec![d.task_id()], Kind::Process).unwrap();
    }
    let policy = CustomPolicy {
        limits: [(Kind::Download, 3), (Kind::Process, 2)].into_iter().collect(),
        ready: VecDeque::new(),
        running_by_label: std::collections::HashMap::new(),
    };
    let mut ex = PolicyExecutor::new(s, policy);
    let compute = |_idx: usize, _inputs: Vec<String>| -> Result<String, TestError> { Ok(String::new()) };
    let report = drive(&mut ex, &compute).unwrap();
    assert_eq!(report, RunReport { total_tasks: 12, succeeded_tasks: 12, failed_tasks: 0 });
    for (kind, limit) in [(Kind::Download, 3), (Kind::Process, 2)] {
        let mut of_kind: taski::trace::Trace<TaskId> = taski::trace::Trace::new();
        for (id, traced) in &ex.trace().tasks {
            if *ex.schedule().task_label(*id) == kind {
                of_kind.tasks.push((*id, traced.clone()));
            }
        }
        assert_eq!(of_kind.tasks.len(), 6);
        assert!(of_kind.max_concurrent() <= limit);
    }
}
