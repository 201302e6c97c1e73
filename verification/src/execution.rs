//! Execution state of a schedule: per-task state, timings, outputs and errors.
//!
//! Outputs and errors are stored as values of the type parameters `V` and `E`; a caller that
//! runs tasks of different output types stores them type-erased (for example as boxed `Any`
//! values) and recovers the type when it reads them.

use crate::dag::{Handle, TaskId};
use crate::task::State;
use std::time::{Duration, Instant};
use vstd::prelude::*;

verus! {

#[verifier::external_type_specification]
#[verifier::external_body]
pub struct ExInstant(Instant);

/// Per-task execution data.
#[derive(Debug)]
pub struct TaskExecution<V, E> {
    /// Current task state.
    pub state: State,
    /// When the task started running (if ever).
    pub started_at: Option<Instant>,
    /// When the task completed (if ever).
    pub completed_at: Option<Instant>,
    /// Output produced by a successful task.
    pub output: Option<V>,
    /// Error produced by a failed task.
    pub error: Option<E>,
}

impl<V, E> TaskExecution<V, E> {
    /// A pending task that has not started.
    pub fn pending() -> (r: Self)
        ensures
            r.state == State::Pending,
            r.started_at.is_none(),
            r.completed_at.is_none(),
            r.output.is_none(),
            r.error.is_none(),
    {
        TaskExecution {
            state: State::Pending,
            started_at: None,
            completed_at: None,
            output: None,
            error: None,
        }
    }
}

/// Whether a task in state `s` has not completed yet.
pub open spec fn unfinished_state(s: State) -> bool {
    s == State::Pending || s == State::Running
}

/// The number of tasks in `tasks` whose state is `Running`.
pub open spec fn count_running<V, E>(tasks: Seq<TaskExecution<V, E>>) -> nat
    decreases tasks.len(),
{
    if tasks.len() == 0 {
        0
    } else {
        count_running(tasks.drop_last()) + if tasks.last().state == State::Running {
            1nat
        } else {
            0nat
        }
    }
}

/// The number of tasks in `tasks` that have not completed.
pub open spec fn count_unfinished<V, E>(tasks: Seq<TaskExecution<V, E>>) -> nat
    decreases tasks.len(),
{
    if tasks.len() == 0 {
        0
    } else {
        count_unfinished(tasks.drop_last()) + if unfinished_state(tasks.last().state) {
            1nat
        } else {
            0nat
        }
    }
}

/// A task marked running at `now`: it keeps its first start time.
pub open spec fn started<V, E>(t: TaskExecution<V, E>, now: Instant) -> TaskExecution<V, E> {
    TaskExecution {
        state: State::Running,
        started_at: if t.started_at.is_none() { Some(now) } else { t.started_at },
        completed_at: t.completed_at,
        output: t.output,
        error: t.error,
    }
}

/// A task completed successfully at `now` with `output`: it keeps its first completion time.
pub open spec fn succeeded<V, E>(t: TaskExecution<V, E>, now: Instant, output: V) -> TaskExecution<V, E> {
    TaskExecution {
        state: State::Succeeded,
        started_at: t.started_at,
        completed_at: if t.completed_at.is_none() { Some(now) } else { t.completed_at },
        output: Some(output),
        error: None,
    }
}

/// A task failed at `now` with `err`: it keeps its first completion time and loses its output.
pub open spec fn failed<V, E>(t: TaskExecution<V, E>, now: Instant, err: E) -> TaskExecution<V, E> {
    TaskExecution {
        state: State::Failed,
        started_at: t.started_at,
        completed_at: if t.completed_at.is_none() { Some(now) } else { t.completed_at },
        output: None,
        error: Some(err),
    }
}

pub proof fn lemma_count_update<V, E>(s: Seq<TaskExecution<V, E>>, i: int, x: TaskExecution<V, E>)
    requires
        0 <= i < s.len(),
    ensures
        count_running(s.update(i, x)) + (if s[i].state == State::Running { 1int } else { 0int })
            == count_running(s) + (if x.state == State::Running { 1int } else { 0int }),
        count_unfinished(s.update(i, x)) + (if unfinished_state(s[i].state) { 1int } else { 0int })
            == count_unfinished(s) + (if unfinished_state(x.state) { 1int } else { 0int }),
    decreases s.len(),
{
    let u = s.update(i, x);
    if i == s.len() - 1 {
        assert(u.drop_last() == s.drop_last());
    } else {
        lemma_count_update(s.drop_last(), i, x);
        assert(u.drop_last() == s.drop_last().update(i, x));
    }
}

pub proof fn lemma_count_bounds<V, E>(s: Seq<TaskExecution<V, E>>, i: int)
    requires
        0 <= i < s.len(),
    ensures
        count_running(s) <= s.len(),
        count_unfinished(s) <= s.len(),
        s[i].state != State::Running ==> count_running(s) < s.len(),
        !unfinished_state(s[i].state) ==> count_unfinished(s) < s.len(),
        unfinished_state(s[i].state) ==> count_unfinished(s) >= 1,
    decreases s.len(),
{
    lemma_count_le(s.drop_last());
    if i < s.len() - 1 {
        lemma_count_bounds(s.drop_last(), i);
        assert(s.drop_last()[i] == s[i]);
    }
}

proof fn lemma_count_le<V, E>(s: Seq<TaskExecution<V, E>>)
    ensures
        count_running(s) <= s.len(),
        count_unfinished(s) <= s.len(),
    decreases s.len(),
{
    if s.len() > 0 {
        lemma_count_le(s.drop_last());
    }
}

/// The number of tasks in `tasks` whose state is `st`.
pub open spec fn count_state<V, E>(tasks: Seq<TaskExecution<V, E>>, st: State) -> nat
    decreases tasks.len(),
{
    if tasks.len() == 0 {
        0
    } else {
        count_state(tasks.drop_last(), st) + if tasks.last().state == st {
            1nat
        } else {
            0nat
        }
    }
}

/// The task counts count the tasks in the sequence: those in state `st`, the running ones and
/// the unfinished ones.
pub proof fn lemma_task_counts_are_filters<V, E>(s: Seq<TaskExecution<V, E>>, st: State)
    ensures
        count_state(s, st) == s.filter(|t: TaskExecution<V, E>| t.state == st).len(),
        count_running(s) == s.filter(|t: TaskExecution<V, E>| t.state == State::Running).len(),
        count_unfinished(s) == s.filter(|t: TaskExecution<V, E>| unfinished_state(t.state)).len(),
    decreases s.len(),
{
    reveal(Seq::filter);
    if s.len() > 0 {
        lemma_task_counts_are_filters(s.drop_last(), st);
    }
}

/// Replacing one task changes the number of tasks in a state by at most one.
pub proof fn lemma_count_state_update<V, E>(s: Seq<TaskExecution<V, E>>, i: int, x: TaskExecution<V, E>, st: State)
    requires
        0 <= i < s.len(),
    ensures
        count_state(s.update(i, x), st) + (if s[i].state == st { 1int } else { 0int })
            == count_state(s, st) + (if x.state == st { 1int } else { 0int }),
    decreases s.len(),
{
    let u = s.update(i, x);
    if i == s.len() - 1 {
        assert(u.drop_last() == s.drop_last());
    } else {
        lemma_count_state_update(s.drop_last(), i, x, st);
        assert(u.drop_last() == s.drop_last().update(i, x));
    }
}

/// At most all the tasks are in a given state.
pub proof fn lemma_count_state_le<V, E>(s: Seq<TaskExecution<V, E>>, st: State)
    ensures
        count_state(s, st) <= s.len(),
    decreases s.len(),
{
    if s.len() > 0 {
        lemma_count_state_le(s.drop_last(), st);
    }
}

/// A task not in state `st` leaves room for one more.
pub proof fn lemma_count_state_below<V, E>(s: Seq<TaskExecution<V, E>>, i: int, st: State)
    requires
        0 <= i < s.len(),
        s[i].state != st,
    ensures
        count_state(s, st) < s.len(),
    decreases s.len(),
{
    lemma_count_state_le(s.drop_last(), st);
    if i < s.len() - 1 {
        lemma_count_state_below(s.drop_last(), i, st);
    }
}

/// When every task is pending, none has succeeded or failed.
pub proof fn lemma_count_state_all_pending<V, E>(s: Seq<TaskExecution<V, E>>, st: State)
    requires
        st != State::Pending,
        forall|i: int| 0 <= i < s.len() ==> (#[trigger] s[i]).state == State::Pending,
    ensures
        count_state(s, st) == 0,
    decreases s.len(),
{
    if s.len() > 0 {
        lemma_count_state_all_pending(s.drop_last(), st);
    }
}

/// Failing the tasks of a set `c`, none of which had completed, adds the size of `c` to the
/// number of failed tasks and leaves the number of succeeded tasks as it was.
pub proof fn lemma_count_state_fail_set<V, E>(s: Seq<TaskExecution<V, E>>, u: Seq<TaskExecution<V, E>>, c: Set<usize>)
    requires
        s.len() == u.len(),
        s.len() <= usize::MAX,
        forall|b: usize| c.contains(b) ==> b < s.len(),
        forall|b: int|
            0 <= b < s.len() ==> if c.contains(b as usize) {
                &&& (#[trigger] u[b]).state == State::Failed
                &&& unfinished_state(s[b].state)
            } else {
                u[b].state == s[b].state
            },
    ensures
        c.finite(),
        count_state(u, State::Failed) == count_state(s, State::Failed) + c.len(),
        count_state(u, State::Succeeded) == count_state(s, State::Succeeded),
    decreases s.len(),
{
    if s.len() == 0 {
        assert(c =~= Set::empty());
    } else {
        let last = (s.len() - 1) as usize;
        let c2 = c.remove(last);
        assert forall|b: int| 0 <= b < s.drop_last().len() implies if c2.contains(b as usize) {
            &&& (#[trigger] u.drop_last()[b]).state == State::Failed
            &&& unfinished_state(s.drop_last()[b].state)
        } else {
            u.drop_last()[b].state == s.drop_last()[b].state
        } by {
            assert(u.drop_last()[b] == u[b]);
            assert(s.drop_last()[b] == s[b]);
        }
        lemma_count_state_fail_set(s.drop_last(), u.drop_last(), c2);
        if c.contains(last) {
            assert(c =~= c2.insert(last));
        } else {
            assert(c2 =~= c);
        }
    }
}

/// `after` is `before` once task `id` was marked running at `now`: ids of other schedules,
/// unknown indices and running tasks change nothing; any other task becomes running with its
/// first start time kept, one more task is counted as running, and one more as unfinished if
/// the task had completed (both counters saturating at `usize::MAX`).
pub open spec fn marked_running<V, E>(before: Execution<V, E>, id: TaskId, now: Instant, after: Execution<V, E>) -> bool {
    &&& after.sid() == before.sid()
    &&& after.timeouts() == before.timeouts()
    &&& if !before.owns(id) || before.tasks()[id.idx as int].state == State::Running {
        &&& after.tasks() == before.tasks()
        &&& after.running() == before.running()
        &&& after.unfinished() == before.unfinished()
    } else {
        let t = before.tasks()[id.idx as int];
        &&& after.tasks() == before.tasks().update(id.idx as int, started(t, now))
        &&& after.running() == (if before.running() < usize::MAX {
            (before.running() + 1) as usize
        } else {
            before.running()
        })
        &&& after.unfinished() == (if !unfinished_state(t.state) && before.unfinished() < usize::MAX {
            (before.unfinished() + 1) as usize
        } else {
            before.unfinished()
        })
    }
}

/// Execution state for one schedule.
///
/// An execution tracks the state of every task of the schedule it was created for; task ids of
/// other schedules are refused.
#[derive(Debug)]
pub struct Execution<V, E> {
    schedule_id: u64,
    tasks: Vec<TaskExecution<V, E>>,
    task_timeouts: Vec<Option<Duration>>,
    running_count: usize,
    unfinished_count: usize,
}

impl<V, E> Execution<V, E> {
    /// The id of the schedule this execution belongs to.
    pub closed spec fn sid(&self) -> u64 {
        self.schedule_id
    }

    /// The per-task data, indexed by node index.
    pub closed spec fn tasks(&self) -> Seq<TaskExecution<V, E>> {
        self.tasks@
    }

    /// The per-task timeouts, indexed by node index.
    pub closed spec fn timeouts(&self) -> Seq<Option<Duration>> {
        self.task_timeouts@
    }

    /// The counter of running tasks.
    pub closed spec fn running(&self) -> usize {
        self.running_count
    }

    /// The counter of unfinished tasks.
    pub closed spec fn unfinished(&self) -> usize {
        self.unfinished_count
    }

    /// Whether `id` names a task of this execution.
    pub open spec fn owns(&self, id: TaskId) -> bool {
        id.schedule_id == self.sid() && id.idx < self.tasks().len()
    }

    /// The state of `id` as `state` reports it.
    pub open spec fn state_of(&self, id: TaskId) -> State {
        if self.owns(id) {
            self.tasks()[id.idx as int].state
        } else {
            State::Pending
        }
    }

    /// The state of each task id, as `state_of` gives it.
    pub open spec fn states(&self) -> spec_fn(TaskId) -> State {
        |id: TaskId| self.state_of(id)
    }

    /// The shape of the execution: one timeout slot per task.
    pub open spec fn shaped(&self) -> bool {
        self.timeouts().len() == self.tasks().len()
    }

    /// The counters agree with the task states, and every running task has a start time.
    pub open spec fn wf(&self) -> bool {
        &&& self.shaped()
        &&& self.running() == count_running(self.tasks())
        &&& self.unfinished() == count_unfinished(self.tasks())
        &&& forall|i: int|
            0 <= i < self.tasks().len() && (#[trigger] self.tasks()[i]).state == State::Running
                ==> self.tasks()[i].started_at is Some
    }

    /// Creates the execution of a schedule with `task_count` tasks, all pending.
    pub fn new(schedule_id: u64, task_count: usize) -> (r: Self)
        ensures
            r.sid() == schedule_id,
            r.tasks().len() == task_count,
            forall|i: int|
                0 <= i < task_count ==> {
                    let t = #[trigger] r.tasks()[i];
                    &&& t.state == State::Pending
                    &&& t.started_at.is_none()
                    &&& t.completed_at.is_none()
                    &&& t.output.is_none()
                    &&& t.error.is_none()
                },
            r.timeouts().len() == task_count,
            forall|i: int| 0 <= i < task_count ==> (#[trigger] r.timeouts()[i]).is_none(),
            r.running() == 0,
            r.unfinished() == task_count,
            r.wf(),
    {
        let mut tasks: Vec<TaskExecution<V, E>> = Vec::new();
        let mut task_timeouts: Vec<Option<Duration>> = Vec::new();
        let mut i: usize = 0;
        while i < task_count
            invariant
                i <= task_count,
                tasks@.len() == i,
                task_timeouts@.len() == i,
                forall|j: int|
                    0 <= j < i ==> {
                        let t = #[trigger] tasks@[j];
                        &&& t.state == State::Pending
                        &&& t.started_at.is_none()
                        &&& t.completed_at.is_none()
                        &&& t.output.is_none()
                        &&& t.error.is_none()
                    },
                forall|j: int| 0 <= j < i ==> (#[trigger] task_timeouts@[j]).is_none(),
                count_running(tasks@) == 0,
                count_unfinished(tasks@) == i,
            decreases task_count - i,
        {
            let ghost before = tasks@;
            tasks.push(TaskExecution::pending());
            assert(tasks@.drop_last() == before);
            task_timeouts.push(None);
            i = i + 1;
        }
        Execution {
            schedule_id,
            tasks,
            task_timeouts,
            running_count: 0,
            unfinished_count: task_count,
        }
    }

    /// Whether `task_id` belongs to this execution's schedule.
    fn validate_task_id(&self, task_id: TaskId) -> (r: bool)
        ensures
            r == (task_id.schedule_id == self.sid()),
    {
        task_id.schedule_id == self.schedule_id
    }

    /// Returns the timeout set for a task, if any.
    pub fn task_timeout(&self, task_id: TaskId) -> (r: Option<Duration>)
        ensures
            r == (if task_id.schedule_id == self.sid() && task_id.idx < self.timeouts().len() {
                self.timeouts()[task_id.idx as int]
            } else {
                None
            }),
    {
        if !self.validate_task_id(task_id) {
            return None;
        }
        if task_id.idx < self.task_timeouts.len() {
            self.task_timeouts[task_id.idx]
        } else {
            None
        }
    }

    /// Sets an optional timeout for an individual task; ids of other schedules and unknown
    /// indices are ignored.
    pub fn set_task_timeout(&mut self, task_id: TaskId, timeout: Option<Duration>)
        ensures
            final(self).sid() == old(self).sid(),
            final(self).tasks() == old(self).tasks(),
            final(self).running() == old(self).running(),
            final(self).unfinished() == old(self).unfinished(),
            final(self).timeouts() == (if task_id.schedule_id == old(self).sid()
                && task_id.idx < old(self).timeouts().len() {
                old(self).timeouts().update(task_id.idx as int, timeout)
            } else {
                old(self).timeouts()
            }),
    {
        if !self.validate_task_id(task_id) {
            return;
        }
        if task_id.idx < self.task_timeouts.len() {
            self.task_timeouts.set(task_id.idx, timeout);
        }
    }

    /// Sets an optional timeout for the task of a handle.
    pub fn set_task_timeout_handle<O>(&mut self, handle: Handle<O>, timeout: Option<Duration>)
        ensures
            final(self).sid() == old(self).sid(),
            final(self).tasks() == old(self).tasks(),
            final(self).running() == old(self).running(),
            final(self).unfinished() == old(self).unfinished(),
            final(self).timeouts() == (if handle.task_id.schedule_id == old(self).sid()
                && handle.task_id.idx < old(self).timeouts().len() {
                old(self).timeouts().update(handle.task_id.idx as int, timeout)
            } else {
                old(self).timeouts()
            }),
    {
        self.set_task_timeout(handle.task_id(), timeout);
    }

    /// Returns the id of the schedule this execution belongs to.
    pub fn schedule_id(&self) -> (r: u64)
        ensures
            r == self.sid(),
    {
        self.schedule_id
    }

    /// Returns the number of tasks of the execution.
    pub fn task_count(&self) -> (r: usize)
        ensures
            r == self.tasks().len(),
    {
        self.tasks.len()
    }

    /// Returns the number of tasks currently in the `Running` state.
    pub fn running_count(&self) -> (r: usize)
        ensures
            r == self.running(),
    {
        self.running_count
    }

    /// Returns the number of tasks that have not yet completed.
    pub fn unfinished_count(&self) -> (r: usize)
        ensures
            r == self.unfinished(),
    {
        self.unfinished_count
    }

    /// Returns the current state of the given task.
    ///
    /// If the task id does not belong to this execution, `Pending` is returned.
    pub fn state(&self, task_id: TaskId) -> (r: State)
        ensures
            r == self.state_of(task_id),
    {
        if task_id.schedule_id != self.schedule_id {
            return State::Pending;
        }
        if task_id.idx < self.tasks.len() {
            self.tasks[task_id.idx].state
        } else {
            State::Pending
        }
    }

    /// Marks a task as running at `now`.
    ///
    /// Ids of other schedules, unknown indices and tasks that already run are ignored. Any other
    /// task becomes running and is counted as running, and a task that had completed is counted
    /// as unfinished again; the first start time is kept.
    pub fn mark_running(&mut self, task_id: TaskId, now: Instant)
        ensures
            marked_running(*old(self), task_id, now, *final(self)),
            old(self).wf() ==> final(self).wf(),
    {
        if !self.validate_task_id(task_id) {
            return;
        }
        let i = task_id.idx;
        if i >= self.tasks.len() {
            return;
        }
        if self.tasks[i].state.is_running() {
            return;
        }
        proof {
            lemma_count_bounds(self.tasks@, i as int);
            lemma_count_update(self.tasks@, i as int, started(self.tasks@[i as int], now));
        }
        self.running_count = self.running_count.saturating_add(1);
        let state = self.tasks[i].state;
        if !state.is_pending() {
            self.unfinished_count = self.unfinished_count.saturating_add(1);
        }
        let task = &mut self.tasks[i];
        if task.started_at.is_none() {
            task.started_at = Some(now);
        }
        task.state = State::Running;
    }

    /// Records the successful completion of a task at `now` with its output.
    ///
    /// Ids of other schedules and unknown indices are ignored. A task that had not completed
    /// is no longer counted as running or unfinished; the first completion time is kept.
    pub fn mark_succeeded(&mut self, task_id: TaskId, now: Instant, output: V)
        ensures
            final(self).sid() == old(self).sid(),
            final(self).timeouts() == old(self).timeouts(),
            !old(self).owns(task_id) ==> final(self).tasks() == old(self).tasks()
                && final(self).running() == old(self).running()
                && final(self).unfinished() == old(self).unfinished(),
            old(self).owns(task_id) ==> {
                let t = old(self).tasks()[task_id.idx as int];
                &&& final(self).tasks() == old(self).tasks().update(task_id.idx as int, succeeded(t, now, output))
                &&& final(self).running() == (if t.state == State::Running && old(self).running() > 0 {
                    (old(self).running() - 1) as usize
                } else {
                    old(self).running()
                })
                &&& final(self).unfinished() == (if unfinished_state(t.state) && old(self).unfinished() > 0 {
                    (old(self).unfinished() - 1) as usize
                } else {
                    old(self).unfinished()
                })
            },
            old(self).wf() ==> final(self).wf(),
    {
        if !self.validate_task_id(task_id) {
            return;
        }
        let i = task_id.idx;
        if i >= self.tasks.len() {
            return;
        }
        proof {
            lemma_count_bounds(self.tasks@, i as int);
            lemma_count_update(self.tasks@, i as int, succeeded(self.tasks@[i as int], now, output));
        }
        let state = self.tasks[i].state;
        if state.is_pending() || state.is_running() {
            if state.is_running() {
                self.running_count = self.running_count.saturating_sub(1);
            }
            self.unfinished_count = self.unfinished_count.saturating_sub(1);
        }
        let task = &mut self.tasks[i];
        if task.completed_at.is_none() {
            task.completed_at = Some(now);
        }
        task.output = Some(output);
        task.error = None;
        task.state = State::Succeeded;
    }

    /// Records the failure of a task at `now` with its error.
    ///
    /// Ids of other schedules and unknown indices are ignored. A task that had not completed
    /// is no longer counted as running or unfinished; the first completion time is kept and
    /// any output is dropped.
    pub fn mark_failed(&mut self, task_id: TaskId, now: Instant, err: E)
        ensures
            final(self).sid() == old(self).sid(),
            final(self).timeouts() == old(self).timeouts(),
            !old(self).owns(task_id) ==> final(self).tasks() == old(self).tasks()
                && final(self).running() == old(self).running()
                && final(self).unfinished() == old(self).unfinished(),
            old(self).owns(task_id) ==> {
                let t = old(self).tasks()[task_id.idx as int];
                &&& final(self).tasks() == old(self).tasks().update(task_id.idx as int, failed(t, now, err))
                &&& final(self).running() == (if t.state == State::Running && old(self).running() > 0 {
                    (old(self).running() - 1) as usize
                } else {
                    old(self).running()
                })
                &&& final(self).unfinished() == (if unfinished_state(t.state) && old(self).unfinished() > 0 {
                    (old(self).unfinished() - 1) as usize
                } else {
                    old(self).unfinished()
                })
            },
            old(self).wf() ==> final(self).wf(),
    {
        if !self.validate_task_id(task_id) {
            return;
        }
        let i = task_id.idx;
        if i >= self.tasks.len() {
            return;
        }
        proof {
            lemma_count_bounds(self.tasks@, i as int);
            lemma_count_update(self.tasks@, i as int, failed(self.tasks@[i as int], now, err));
        }
        let state = self.tasks[i].state;
        if state.is_pending() || state.is_running() {
            if state.is_running() {
                self.running_count = self.running_count.saturating_sub(1);
            }
            self.unfinished_count = self.unfinished_count.saturating_sub(1);
        }
        let task = &mut self.tasks[i];
        if task.completed_at.is_none() {
            task.completed_at = Some(now);
        }
        task.output = None;
        task.error = Some(err);
        task.state = State::Failed;
    }

    /// Returns a reference to the stored output of the handle's task.
    ///
    /// Returns `None` if the task has no output: it has not completed successfully, its output
    /// was taken, or the handle belongs to another schedule.
    pub fn output_ref<O>(&self, handle: Handle<O>) -> (r: Option<&V>)
        ensures
            r == (if self.owns(handle.task_id) {
                match self.tasks()[handle.task_id.idx as int].output {
                    Some(v) => Some(&v),
                    None => None,
                }
            } else {
                None
            }),
    {
        let task_id = handle.task_id();
        if !self.validate_task_id(task_id) {
            return None;
        }
        if task_id.idx >= self.tasks.len() {
            return None;
        }
        self.tasks[task_id.idx].output.as_ref()
    }

    /// Takes the stored output of a task out of the execution.
    pub fn take_output_dyn(&mut self, task_id: TaskId) -> (r: Option<V>)
        ensures
            final(self).sid() == old(self).sid(),
            final(self).timeouts() == old(self).timeouts(),
            final(self).running() == old(self).running(),
            final(self).unfinished() == old(self).unfinished(),
            !old(self).owns(task_id) ==> r.is_none() && final(self).tasks() == old(self).tasks(),
            old(self).owns(task_id) ==> {
                let t = old(self).tasks()[task_id.idx as int];
                &&& r == t.output
                &&& final(self).tasks() == old(self).tasks().update(
                    task_id.idx as int,
                    TaskExecution { output: None, ..t },
                )
            },
            old(self).wf() ==> final(self).wf(),
    {
        if !self.validate_task_id(task_id) {
            return None;
        }
        if task_id.idx >= self.tasks.len() {
            return None;
        }
        proof {
            let t = self.tasks@[task_id.idx as int];
            lemma_count_update(self.tasks@, task_id.idx as int, TaskExecution { output: None, ..t });
        }
        let task = &mut self.tasks[task_id.idx];
        task.output.take()
    }

    /// Takes the stored output of the handle's task out of the execution.
    pub fn take_output<O>(&mut self, handle: Handle<O>) -> (r: Option<V>)
        ensures
            final(self).sid() == old(self).sid(),
            final(self).timeouts() == old(self).timeouts(),
            final(self).running() == old(self).running(),
            final(self).unfinished() == old(self).unfinished(),
            !old(self).owns(handle.task_id) ==> r.is_none() && final(self).tasks() == old(self).tasks(),
            old(self).owns(handle.task_id) ==> {
                let t = old(self).tasks()[handle.task_id.idx as int];
                &&& r == t.output
                &&& final(self).tasks() == old(self).tasks().update(
                    handle.task_id.idx as int,
                    TaskExecution { output: None, ..t },
                )
            },
            old(self).wf() ==> final(self).wf(),
    {
        self.take_output_dyn(handle.task_id())
    }

    /// Returns the time the task started, if known.
    pub fn started_at(&self, task_id: TaskId) -> (r: Option<Instant>)
        ensures
            r == (if self.owns(task_id) {
                self.tasks()[task_id.idx as int].started_at
            } else {
                None
            }),
    {
        if !self.validate_task_id(task_id) {
            return None;
        }
        if task_id.idx >= self.tasks.len() {
            return None;
        }
        self.tasks[task_id.idx].started_at
    }

    /// Returns the time the task completed, if known.
    pub fn completed_at(&self, task_id: TaskId) -> (r: Option<Instant>)
        ensures
            r == (if self.owns(task_id) {
                self.tasks()[task_id.idx as int].completed_at
            } else {
                None
            }),
    {
        if !self.validate_task_id(task_id) {
            return None;
        }
        if task_id.idx >= self.tasks.len() {
            return None;
        }
        self.tasks[task_id.idx].completed_at
    }
}


/// What a successful task leaves is what a later read gives back: once `mark_succeeded` has
/// recorded `output` for a task of the execution, the task is succeeded and its stored output
/// is `output`, which `output_ref` and `take_output` then return.
pub proof fn lemma_output_after_success<V, E>(
    before: Execution<V, E>,
    after: Execution<V, E>,
    id: TaskId,
    now: Instant,
    output: V,
)
    requires
        before.owns(id),
        after.sid() == before.sid(),
        after.tasks() == before.tasks().update(id.idx as int, succeeded(before.tasks()[id.idx as int], now, output)),
    ensures
        after.owns(id),
        after.state_of(id) == State::Succeeded,
        after.tasks()[id.idx as int].output == Some(output),
{
}

/// An output is taken once: after `take_output` the task keeps its state and has no output any
/// more, so a second take gives `None`.
pub proof fn lemma_output_taken_once<V, E>(before: Execution<V, E>, after: Execution<V, E>, id: TaskId)
    requires
        before.owns(id),
        after.sid() == before.sid(),
        after.tasks() == before.tasks().update(
            id.idx as int,
            TaskExecution { output: None, ..before.tasks()[id.idx as int] },
        ),
    ensures
        after.owns(id),
        after.state_of(id) == before.state_of(id),
        after.tasks()[id.idx as int].output is None,
{
}


/// A run ends with no task left behind: when no task of a well-formed execution is unfinished,
/// which is when the executor reports `Step::Finished`, every task has succeeded or failed.
pub proof fn lemma_all_tasks_completed<V, E>(e: Execution<V, E>)
    requires
        e.wf(),
        e.unfinished() == 0,
    ensures
        forall|i: int|
            0 <= i < e.tasks().len() ==> (#[trigger] e.tasks()[i]).state == State::Succeeded || e.tasks()[i].state
                == State::Failed,
{
    assert forall|i: int| 0 <= i < e.tasks().len() implies (#[trigger] e.tasks()[i]).state == State::Succeeded
        || e.tasks()[i].state == State::Failed by {
        lemma_count_bounds(e.tasks(), i);
    }
}


/// A task keeps the first start time it was given: marking a started task running again, at any
/// time, leaves its start time as it was.
pub proof fn lemma_start_time_kept<V, E>(before: Execution<V, E>, after: Execution<V, E>, id: TaskId, now: Instant)
    requires
        before.owns(id),
        before.tasks()[id.idx as int].started_at is Some,
        marked_running(before, id, now, after),
    ensures
        after.tasks()[id.idx as int].started_at == before.tasks()[id.idx as int].started_at,
{
}

} // verus!
