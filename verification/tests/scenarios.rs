use std::cell::RefCell;
use std::collections::VecDeque;
use std::rc::Rc;
use std::time::Instant;
use taski::dag::{Handle, TaskId};
use taski::execution::Execution;
use taski::executor::{PolicyExecutor, RunError, RunReport, Step};
use taski::policy::Policy;
use taski::schedule::{Error, Schedule};
use taski::task::State;
use taski::trace::Task;

#[derive(Debug, Clone, PartialEq)]
enum Failure {
    Dependency,
    Task,
}

impl From<Error> for Failure {
    fn from(_: Error) -> Self {
        Failure::Dependency
    }
}

/// What a task does with the outputs of its dependencies: `None` when its inputs cannot be
/// built, else its result.
type Work = dyn Fn(usize, Vec<i64>) -> Option<Result<i64, Failure>>;

/// Runs a schedule to its end, one completion at a time in start order; times in the trace are
/// steps of a logical clock.
fn run<P: Policy<L>, L>(ex: &mut PolicyExecutor<P, L, i64, Failure>, work: &Work) -> Result<RunReport, RunError> {
    ex.begin_run();
    let mut clock: u64 = 0;
    let mut running: VecDeque<(TaskId, u64, Result<i64, Failure>)> = VecDeque::new();
    loop {
        clock += 1;
        match ex.next_step(Instant::now()) {
            Step::Start(id) => {
                let mut inputs = Vec::new();
                let mut available = true;
                for d in ex.schedule().task_dependencies(id).clone() {
                    match ex.execution().output_ref(Handle::<i64>::new(d)) {
                        Some(v) => inputs.push(*v),
                        None => available = false,
                    }
                }
                match if available { work(id.idx(), inputs) } else { None } {
                    Some(result) => running.push_back((id, clock, result)),
                    None => ex.task_unavailable(id, Instant::now()),
                }
            }
            Step::Wait => match running.pop_front() {
                Some((id, start, result)) => {
                    let traced = Task { label: format!("{}", id.idx()), start, end: clock };
                    ex.task_completed(id, traced, result, Instant::now());
                }
                None => return Err(ex.stalled_error()),
            },
            Step::Finished(report) => return Ok(report),
            Step::UnknownTask(id) => panic!("unknown task {id:?}"),
        }
    }
}

fn input(s: &mut Schedule<u8>) -> Handle<i64> {
    s.add_input(0)
}

fn task(s: &mut Schedule<u8>, deps: &[Handle<i64>]) -> Handle<i64> {
    s.add_node(deps.iter().map(|h| h.task_id()).collect(), 0).unwrap()
}

#[test]
fn empty_schedule_returns_empty_report() {
    let s: Schedule<u8> = Schedule::new(1);
    let mut ex = PolicyExecutor::fifo(s);
    let report = run(&mut ex, &|_, _| Some(Ok(0))).unwrap();
    assert_eq!(report.total_tasks, 0);
    assert_eq!(report.succeeded_tasks, 0);
    assert_eq!(report.failed_tasks, 0);
    assert_eq!(ex.trace().tasks.len(), 0);
    assert_eq!(ex.trace().max_concurrent(), 0);
}

#[test]
fn task_fails_if_dependencies_inputs_are_unavailable() {
    let mut s: Schedule<u8> = Schedule::new(1);
    let handle = input(&mut s);
    let mut ex = PolicyExecutor::fifo(s);
    let report = run(&mut ex, &|_, _| None).unwrap();
    assert_eq!(report.total_tasks, 1);
    assert_eq!(report.succeeded_tasks, 0);
    assert_eq!(report.failed_tasks, 1);
    assert!(ex.execution().state(handle.task_id()).did_fail());
    // the task never ran, so it is not traced
    assert_eq!(ex.trace().tasks.len(), 0);
}

#[derive(Debug, Default)]
struct EventLog {
    reset_count: usize,
    ready: Vec<usize>,
    started: Vec<usize>,
    finished: Vec<(usize, State)>,
}

struct EventPolicy {
    log: Rc<RefCell<EventLog>>,
    ready_queue: VecDeque<TaskId>,
}

impl<L> Policy<L> for EventPolicy {
    fn reset(&mut self) {
        self.ready_queue.clear();
        self.log.borrow_mut().reset_count += 1;
    }

    fn on_task_ready(&mut self, task_id: TaskId, _schedule: &Schedule<L>) {
        self.ready_queue.push_back(task_id);
        self.log.borrow_mut().ready.push(task_id.idx());
    }

    fn on_task_started(&mut self, task_id: TaskId, _schedule: &Schedule<L>) {
        self.log.borrow_mut().started.push(task_id.idx());
    }

    fn on_task_finished(&mut self, task_id: TaskId, state: State, _schedule: &Schedule<L>) {
        self.log.borrow_mut().finished.push((task_id.idx(), state));
    }

    fn next_task<V, E>(&mut self, _schedule: &Schedule<L>, execution: &Execution<V, E>) -> Option<TaskId> {
        while let Some(task_id) = self.ready_queue.pop_front() {
            if execution.state(task_id).is_pending() {
                return Some(task_id);
            }
        }
        None
    }
}

fn unique(mut v: Vec<usize>) -> usize {
    v.sort_unstable();
    v.dedup();
    v.len()
}

#[test]
fn policy_hooks_fire_once_per_task_in_successful_run() {
    let mut s: Schedule<u8> = Schedule::new(1);
    let i = input(&mut s);
    let a = task(&mut s, &[i]);
    let b = task(&mut s, &[i]);
    let _c = task(&mut s, &[a, b]);
    let log = Rc::new(RefCell::new(EventLog::default()));
    let policy = EventPolicy { log: Rc::clone(&log), ready_queue: VecDeque::new() };
    let mut ex = PolicyExecutor::new(s, policy);
    let work = |idx: usize, inputs: Vec<i64>| -> Option<Result<i64, Failure>> {
        Some(Ok(match idx {
            0 => 1,
            1 => inputs[0] + 1,
            2 => inputs[0] + 2,
            _ => inputs[0] + inputs[1],
        }))
    };
    let report = run(&mut ex, &work).unwrap();
    assert_eq!(report, RunReport { total_tasks: 4, succeeded_tasks: 4, failed_tasks: 0 });
    let log = log.borrow();
    assert_eq!(log.reset_count, 1);
    assert_eq!(unique(log.ready.clone()), 4);
    assert_eq!(unique(log.started.clone()), 4);
    assert_eq!(unique(log.finished.iter().map(|(idx, _)| *idx).collect()), 4);
    assert_eq!(log.ready.len(), 4);
    assert_eq!(log.started.len(), 4);
    assert_eq!(log.finished.len(), 4);
    for (_, state) in &log.finished {
        assert!(state.did_succeed());
    }
    assert_eq!(ex.execution().output_ref(Handle::<i64>::new(TaskId::new(1, 3))), Some(&5));
}

#[test]
fn tuple_dependencies_work_up_to_eight_inputs() {
    let mut s: Schedule<u8> = Schedule::new(1);
    let inputs: Vec<Handle<i64>> = (0..8).map(|_| input(&mut s)).collect();
    let sum = task(&mut s, &inputs);
    let mut ex = PolicyExecutor::fifo(s);
    let work = |idx: usize, inputs: Vec<i64>| -> Option<Result<i64, Failure>> {
        if idx < 8 {
            Some(Ok(idx as i64 + 1))
        } else {
            Some(Ok(inputs.iter().sum()))
        }
    };
    let report = run(&mut ex, &work).unwrap();
    assert_eq!(report, RunReport { total_tasks: 9, succeeded_tasks: 9, failed_tasks: 0 });
    assert_eq!(ex.execution().running_count(), 0);
    assert_eq!(ex.execution().unfinished_count(), 0);
    assert_eq!(ex.execution().output_ref(sum).copied(), Some(36));
}

#[test]
fn independent_branch_can_succeed_even_if_other_branch_fails() {
    let mut s: Schedule<u8> = Schedule::new(1);
    let ok_handle = task(&mut s, &[]);
    let fail_handle = task(&mut s, &[]);
    let mut ex = PolicyExecutor::fifo(s);
    let work = |idx: usize, _inputs: Vec<i64>| -> Option<Result<i64, Failure>> {
        Some(if idx == 0 { Ok(10) } else { Err(Failure::Task) })
    };
    let report = run(&mut ex, &work).unwrap();
    assert_eq!(report, RunReport { total_tasks: 2, succeeded_tasks: 1, failed_tasks: 1 });
    assert_eq!(ex.execution().output_ref(ok_handle).copied(), Some(10));
    assert!(ex.execution().output_ref(fail_handle).is_none());
}

fn failing_chain() -> (PolicyExecutor<taski::policy::Fifo, u8, i64, Failure>, Handle<i64>, Handle<i64>) {
    let mut s: Schedule<u8> = Schedule::new(1);
    let i = input(&mut s);
    let a = task(&mut s, &[i]);
    let b = task(&mut s, &[a]);
    (PolicyExecutor::fifo(s), a, b)
}

#[test]
fn dependant_fails_if_dependency_fails() {
    let (mut ex, a, b) = failing_chain();
    let work = |idx: usize, inputs: Vec<i64>| -> Option<Result<i64, Failure>> {
        Some(match idx {
            0 => Ok(1),
            1 => Err(Failure::Task),
            _ => Ok(inputs[0] + 1),
        })
    };
    let report = run(&mut ex, &work).unwrap();
    assert_eq!(report, RunReport { total_tasks: 3, succeeded_tasks: 1, failed_tasks: 2 });
    assert!(ex.execution().state(a.task_id()).did_fail());
    assert!(ex.execution().state(b.task_id()).did_fail());
    assert!(ex.execution().output_ref(a).is_none());
    assert!(ex.execution().output_ref(b).is_none());
}

#[test]
fn dependant_fails_if_dependency_fails_and_failure_propagates() {
    let (mut ex, a, b) = failing_chain();
    let work = |idx: usize, _inputs: Vec<i64>| -> Option<Result<i64, Failure>> {
        Some(if idx == 1 { Err(Failure::Task) } else { Ok(1) })
    };
    let report = run(&mut ex, &work).unwrap();
    assert_eq!(report, RunReport { total_tasks: 3, succeeded_tasks: 1, failed_tasks: 2 });
    assert!(ex.execution().state(a.task_id()).did_fail());
    assert!(ex.execution().state(b.task_id()).did_fail());
    // the dependant never ran and got the dependency error
    assert_eq!(ex.trace().tasks.len(), 2);
    assert!(ex.execution().output_ref(b).is_none());
}

#[test]
fn priority_runs_higher_labels_first_with_single_concurrency() {
    let mut s: Schedule<u8> = Schedule::new(1);
    for label in [1u8, 3, 2] {
        let _h: Handle<i64> = s.add_node(vec![], label).unwrap();
    }
    let mut ex = PolicyExecutor::priority(s).max_concurrent(Some(1));
    run(&mut ex, &|_, _| Some(Ok(0))).unwrap();
    let labels_in_trace: Vec<u8> = ex.trace().tasks.iter().map(|(id, _)| *ex.schedule().task_label(*id)).collect();
    assert_eq!(labels_in_trace, vec![3, 2, 1]);
}

#[test]
fn started_and_completed_timestamps_exist_for_traced_tasks() {
    let mut s: Schedule<u8> = Schedule::new(1);
    let _t1 = task(&mut s, &[]);
    let _t2 = task(&mut s, &[]);
    let mut ex = PolicyExecutor::fifo(s);
    run(&mut ex, &|idx, _| Some(Ok(idx as i64))).unwrap();
    assert_eq!(ex.trace().tasks.len(), 2);
    for (task_id, traced) in &ex.trace().tasks {
        let started = ex.execution().started_at(*task_id).unwrap();
        let completed = ex.execution().completed_at(*task_id).unwrap();
        assert!(completed >= started);
        assert!(traced.end >= traced.start);
    }
}

/// A policy that never starts anything.
struct NeverPolicy;

impl<L> Policy<L> for NeverPolicy {
    fn reset(&mut self) {}
    fn on_task_ready(&mut self, _task_id: TaskId, _schedule: &Schedule<L>) {}
    fn on_task_started(&mut self, _task_id: TaskId, _schedule: &Schedule<L>) {}
    fn on_task_finished(&mut self, _task_id: TaskId, _state: State, _schedule: &Schedule<L>) {}
    fn next_task<V, E>(&mut self, _schedule: &Schedule<L>, _execution: &Execution<V, E>) -> Option<TaskId> {
        None
    }
}

#[test]
fn stalled_when_policy_never_schedules_anything() {
    let mut s: Schedule<u8> = Schedule::new(1);
    let _input = input(&mut s);
    let mut ex = PolicyExecutor::new(s, NeverPolicy);
    match run(&mut ex, &|_, _| Some(Ok(0))) {
        Err(RunError::Stalled { unfinished_tasks, pending_task_indices }) => {
            assert_eq!(unfinished_tasks, 1);
            assert_eq!(pending_task_indices, vec![0]);
        }
        other => panic!("expected stalled error, got {other:?}"),
    }
}

#[test]
fn output_ref_is_none_before_run_and_some_after_run() {
    let mut s: Schedule<u8> = Schedule::new(1);
    let one = input(&mut s);
    let two = input(&mut s);
    let three = task(&mut s, &[one, two]);
    let mut ex = PolicyExecutor::fifo(s);
    assert!(ex.execution().output_ref(three).is_none());
    let work = |idx: usize, inputs: Vec<i64>| -> Option<Result<i64, Failure>> {
        Some(Ok(match idx {
            0 => 1,
            1 => 2,
            _ => inputs[0] + inputs[1],
        }))
    };
    let report = run(&mut ex, &work).unwrap();
    assert_eq!(report, RunReport { total_tasks: 3, succeeded_tasks: 3, failed_tasks: 0 });
    assert_eq!(ex.execution().output_ref(three).copied(), Some(3));
}

#[test]
fn stalled_when_max_concurrent_is_zero() {
    let mut s: Schedule<u8> = Schedule::new(1);
    let _input = input(&mut s);
    let mut ex = PolicyExecutor::fifo(s).max_concurrent(Some(0));
    match run(&mut ex, &|_, _| Some(Ok(0))) {
        Err(RunError::Stalled { unfinished_tasks, pending_task_indices }) => {
            assert_eq!(unfinished_tasks, 1);
            assert_eq!(pending_task_indices, vec![0]);
        }
        other => panic!("expected stalled error, got {other:?}"),
    }
}

#[test]
fn fifo_respects_max_concurrency() {
    let mut s: Schedule<u8> = Schedule::new(1);
    for _ in 0..3 {
        let _t = task(&mut s, &[]);
    }
    let mut ex = PolicyExecutor::fifo(s).max_concurrent(Some(2));
    let report = run(&mut ex, &|idx, _| Some(Ok(idx as i64))).unwrap();
    assert_eq!(report, RunReport { total_tasks: 3, succeeded_tasks: 3, failed_tasks: 0 });
    assert_eq!(ex.trace().max_concurrent(), 2);
}

#[test]
fn schedule_ready_lists_tasks_without_dependencies() {
    let mut s: Schedule<u8> = Schedule::new(1);
    let one = input(&mut s);
    let two = input(&mut s);
    let _three = task(&mut s, &[one, two]);
    let ex: PolicyExecutor<taski::policy::Fifo, u8, i64, Failure> = PolicyExecutor::fifo(s);
    let ready_count = ex
        .schedule()
        .ready(ex.execution())
        .into_iter()
        .filter(|task_id| ex.execution().state(*task_id).is_pending())
        .count();
    assert_eq!(ready_count, 2);
}
