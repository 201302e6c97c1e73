//! The decision logic of schedule execution.
//!
//! `PolicyExecutor` holds a schedule, its execution state and a scheduling policy, and decides
//! step by step what happens next; the caller performs the work that each step asks for
//! (building and awaiting task futures, reading the clock) and reports back:
//!
//! 1. `begin_run` counts the dependencies of every task and announces the tasks without
//!    dependencies as ready.
//! 2. `next_step` asks the policy for a task and answers `Step::Start` (the caller starts the
//!    task), `Step::Wait` (the caller waits for a running task to complete), or
//!    `Step::Finished` with the report of the run.
//! 3. The caller reports a task whose inputs were not available with `task_unavailable`, and
//!    a completed task with `task_completed`; dependants of a failed task fail with it, and a
//!    dependant becomes ready once all its dependencies succeeded.

use crate::dag::{neighbors_in_order, reachable, reaches, Dir, Handle, TaskId};
use crate::execution::{
    count_state, lemma_count_state_all_pending, lemma_count_state_below, lemma_count_state_fail_set,
    lemma_count_state_le, lemma_count_state_update, marked_running, Execution, TaskExecution,
};
use crate::policy::{Fifo, Policy, Priority};
use crate::schedule::{self, Schedule};
use crate::task::State;
use crate::trace::{self, Trace};
use std::time::{Duration, Instant};
use vstd::prelude::*;

verus! {

/// A report of a schedule execution.
#[derive(Debug, Clone, Copy, PartialEq, Eq, Structural)]
pub struct RunReport {
    /// Total number of tasks in the schedule.
    pub total_tasks: usize,
    /// Number of tasks that completed successfully.
    pub succeeded_tasks: usize,
    /// Number of tasks that failed (including dependants failed due to dependency failure).
    pub failed_tasks: usize,
}

/// An error that can occur when running a schedule.
#[derive(Debug)]
pub enum RunError {
    /// The execution stalled with unfinished tasks: the policy produced no runnable task and
    /// no task was running.
    Stalled {
        /// Number of tasks that have not yet finished.
        unfinished_tasks: usize,
        /// Node indices that are still pending.
        pending_task_indices: Vec<usize>,
    },
    /// The execution timed out.
    TimedOut {
        /// Configured timeout.
        timeout: Duration,
        /// Number of tasks that have not yet finished.
        unfinished_tasks: usize,
        /// Node indices that are still pending.
        pending_task_indices: Vec<usize>,
        /// Node indices that were running at timeout.
        running_task_indices: Vec<usize>,
    },
}

/// An error used for failing individual tasks due to timeouts.
#[derive(Debug, Clone, Copy)]
pub enum TimeoutError {
    /// The task did not complete within its timeout.
    TaskTimedOut {
        /// The timeout of the task.
        timeout: Duration,
    },
}

/// What the caller of `PolicyExecutor::next_step` does next.
#[derive(Debug, Clone, Copy, PartialEq, Eq, Structural)]
pub enum Step {
    /// Start the given task, which is now marked running: build its future from the outputs of
    /// its dependencies, or report with `task_unavailable` that they are not available.
    Start(TaskId),
    /// Wait for a running task to complete and report it with `task_completed`.
    Wait,
    /// All tasks have completed.
    Finished(RunReport),
    /// The policy chose a task that the schedule does not hold.
    UnknownTask(TaskId),
}

/// A call that the executor made to its policy.
#[derive(Debug, Clone, Copy, PartialEq, Eq, Structural)]
pub enum PolicyCall {
    /// `reset`.
    Reset,
    /// `on_task_ready`, with the task it was given.
    Ready(TaskId),
    /// `on_task_started`, with the task it was given.
    Started(TaskId),
    /// `on_task_finished`, with the task and the state it was given.
    Finished(TaskId, State),
    /// `next_task`, and what it answered.
    Asked(Option<TaskId>),
}

/// The `on_task_ready` calls with which a run starts: one for each of the first `k` tasks that
/// has no incoming edge, in index order.
pub open spec fn initially_ready(sid: u64, edges: Seq<(usize, usize)>, k: nat) -> Seq<PolicyCall>
    decreases k,
{
    if k == 0 {
        Seq::empty()
    } else {
        let i = (k - 1) as usize;
        initially_ready(sid, edges, (k - 1) as nat) + if neighbors_in_order(edges, i, Dir::Incoming).len() == 0 {
            seq![PolicyCall::Ready(TaskId { schedule_id: sid, idx: i })]
        } else {
            Seq::empty()
        }
    }
}

/// The tasks announced when a run starts are tasks of the schedule without incoming edges.
pub proof fn lemma_initially_ready_entries(sid: u64, edges: Seq<(usize, usize)>, k: nat, j: int)
    requires
        0 <= j < initially_ready(sid, edges, k).len(),
    ensures
        initially_ready(sid, edges, k)[j] is Ready,
        initially_ready(sid, edges, k)[j]->Ready_0.schedule_id == sid,
        initially_ready(sid, edges, k)[j]->Ready_0.idx < k,
        neighbors_in_order(edges, initially_ready(sid, edges, k)[j]->Ready_0.idx, Dir::Incoming).len() == 0,
    decreases k,
{
    let prev = initially_ready(sid, edges, (k - 1) as nat);
    if j < prev.len() {
        lemma_initially_ready_entries(sid, edges, (k - 1) as nat, j);
        assert(initially_ready(sid, edges, k)[j] == prev[j]);
    }
}

/// Every dependant that becomes ready while the dependants `nb` are counted down is announced:
/// a pending dependant whose counter is positive and at most the number of times it occurs in
/// `nb` has an `on_task_ready` call.
pub proof fn lemma_ready_calls_complete<V, E>(
    sid: u64,
    rem: Seq<usize>,
    tasks: Seq<TaskExecution<V, E>>,
    nb: Seq<usize>,
    d: usize,
)
    requires
        d < rem.len(),
        d < tasks.len(),
        tasks[d as int].state == State::Pending,
        0 < rem[d as int] <= occurrences(nb, d),
    ensures
        exists|j: int|
            0 <= j < ready_calls(sid, rem, tasks, nb).len() && #[trigger] ready_calls(sid, rem, tasks, nb)[j]
                == PolicyCall::Ready(TaskId { schedule_id: sid, idx: d }),
    decreases nb.len(),
{
    let before = nb.drop_last();
    let prev = ready_calls(sid, rem, tasks, before);
    let all = ready_calls(sid, rem, tasks, nb);
    assert forall|j: int| 0 <= j < prev.len() implies all[j] == prev[j] by {}
    if rem[d as int] <= occurrences(before, d) {
        lemma_ready_calls_complete(sid, rem, tasks, before, d);
        let j = choose|j: int|
            0 <= j < prev.len() && #[trigger] prev[j] == PolicyCall::Ready(TaskId { schedule_id: sid, idx: d });
        assert(all[j] == prev[j]);
    } else {
        assert(nb.last() == d);
        assert(all[prev.len() as int] == PolicyCall::Ready(TaskId { schedule_id: sid, idx: d }));
    }
}

/// Counting a dependant down again never raises its counter.
proof fn lemma_occurrences_prefix(s: Seq<usize>, k: int, x: usize)
    requires
        0 <= k <= s.len(),
    ensures
        occurrences(s.take(k), x) <= occurrences(s, x),
    decreases s.len() - k,
{
    if k < s.len() {
        lemma_occurrences_prefix(s, k + 1, x);
        assert(s.take(k + 1).drop_last() == s.take(k));
    } else {
        assert(s.take(k) == s);
    }
}

/// A dependant announced while the dependants `nb` are counted down is pending in `tasks`, and
/// its counter is zero once all of `nb` is counted down.
pub proof fn lemma_ready_calls_entries<V, E>(
    sid: u64,
    rem: Seq<usize>,
    tasks: Seq<TaskExecution<V, E>>,
    nb: Seq<usize>,
    j: int,
)
    requires
        0 <= j < ready_calls(sid, rem, tasks, nb).len(),
    ensures
        ready_calls(sid, rem, tasks, nb)[j] is Ready,
        ({
            let t = ready_calls(sid, rem, tasks, nb)[j]->Ready_0;
            &&& t.schedule_id == sid
            &&& t.idx < rem.len()
            &&& t.idx < tasks.len()
            &&& tasks[t.idx as int].state == State::Pending
            &&& counted_down(rem[t.idx as int], nb, t.idx) == 0
        }),
    decreases nb.len(),
{
    let before = nb.drop_last();
    let prev = ready_calls(sid, rem, tasks, before);
    if j < prev.len() {
        lemma_ready_calls_entries(sid, rem, tasks, before, j);
        assert(ready_calls(sid, rem, tasks, nb)[j] == prev[j]);
        let x = prev[j]->Ready_0.idx;
        assert(occurrences(nb, x) >= occurrences(before, x));
    }
}

/// `q` is what a policy is after the call `c`, starting from `m`, as its spec functions say.
pub open spec fn call_post<L, P: Policy<L>>(m: P, q: P, c: PolicyCall, schedule: Schedule<L>) -> bool {
    match c {
        PolicyCall::Reset => m.reset_post(q),
        PolicyCall::Ready(t) => m.ready_post(q, t, schedule),
        PolicyCall::Started(t) => m.started_post(q, t, schedule),
        PolicyCall::Finished(t, st) => m.finished_post(q, t, st, schedule),
        PolicyCall::Asked(_) => false,
    }
}

/// `ms` are the states a policy passes through from `p` to `q` under the hook calls `calls`.
pub open spec fn call_steps<L, P: Policy<L>>(p: P, q: P, ms: Seq<P>, calls: Seq<PolicyCall>, schedule: Schedule<L>) -> bool {
    &&& ms.len() == calls.len() + 1
    &&& ms[0] == p
    &&& ms[calls.len() as int] == q
    &&& forall|i: int| 0 <= i < calls.len() ==> call_post(#[trigger] ms[i], ms[i + 1], calls[i], schedule)
}

/// `q` is what a policy is after the hook calls `calls`, in order, starting from `p`.
pub open spec fn calls_applied<L, P: Policy<L>>(p: P, q: P, calls: Seq<PolicyCall>, schedule: Schedule<L>) -> bool {
    exists|ms: Seq<P>| #[trigger] call_steps(p, q, ms, calls, schedule)
}

/// Where the policy follows its spec functions, the calls that `ex` logged from position `k0`
/// on took the policy from `p0` to its present state.
pub open spec fn policy_follows<L, P: Policy<L>, V, E>(ex: PolicyExecutor<P, L, V, E>, p0: P, k0: int) -> bool {
    &&& 0 <= k0 <= ex.policy_calls().len()
    &&& P::obeys_policy_spec() ==> calls_applied(
        p0,
        ex.pol(),
        ex.policy_calls().subrange(k0, ex.policy_calls().len() as int),
        ex.sched(),
    )
}

/// One more hook call, logged as `c`, keeps the policy following its log.
pub proof fn lemma_policy_follows_call<L, P: Policy<L>, V, E>(
    before: PolicyExecutor<P, L, V, E>,
    after: PolicyExecutor<P, L, V, E>,
    p0: P,
    k0: int,
    c: PolicyCall,
)
    requires
        policy_follows(before, p0, k0),
        after.policy_calls() == before.policy_calls().push(c),
        after.sched() == before.sched(),
        P::obeys_policy_spec() ==> call_post(before.pol(), after.pol(), c, before.sched()),
    ensures
        policy_follows(after, p0, k0),
{
    let seg = before.policy_calls().subrange(k0, before.policy_calls().len() as int);
    let seg2 = after.policy_calls().subrange(k0, after.policy_calls().len() as int);
    assert(seg2 =~= seg.push(c));
    if P::obeys_policy_spec() {
        let ms = choose|ms: Seq<P>| #[trigger] call_steps(p0, before.pol(), ms, seg, before.sched());
        let ms2 = ms.push(after.pol());
        assert forall|i: int| 0 <= i < seg2.len() implies call_post(#[trigger] ms2[i], ms2[i + 1], seg2[i], after.sched()) by {
            if i < seg.len() {
                assert(ms2[i] == ms[i] && ms2[i + 1] == ms[i + 1] && seg2[i] == seg[i]);
            }
        }
        assert(call_steps(p0, after.pol(), ms2, seg2, after.sched()));
    }
}

/// Logging a call that is not made to the policy's hooks changes nothing for the policy.
pub proof fn lemma_policy_follows_start<L, P: Policy<L>, V, E>(ex: PolicyExecutor<P, L, V, E>)
    ensures
        policy_follows(ex, ex.pol(), ex.policy_calls().len() as int),
{
    let seg = ex.policy_calls().subrange(ex.policy_calls().len() as int, ex.policy_calls().len() as int);
    assert(seg =~= Seq::<PolicyCall>::empty());
    assert(call_steps(ex.pol(), ex.pol(), seq![ex.pol()], seg, ex.sched()));
}

/// Each task that the calls logged by `ex` from position `k` on announce as ready is a task of
/// the schedule whose dependency counter is zero.
pub open spec fn announced_zero<P, L, V, E>(ex: PolicyExecutor<P, L, V, E>, k: int) -> bool {
    forall|j: int|
        k <= j < ex.policy_calls().len() && (#[trigger] ex.policy_calls()[j]) is Ready ==> {
            let t = ex.policy_calls()[j]->Ready_0;
            &&& t.schedule_id == ex.sched().sid()
            &&& t.idx < ex.sched().nodes().len()
            &&& t.idx < ex.remaining().len()
            &&& ex.remaining()[t.idx as int] == 0
        }
}

/// The calls logged by `ex` from position `k` on hold no `reset`.
pub open spec fn no_reset_since<P, L, V, E>(ex: PolicyExecutor<P, L, V, E>, k: int) -> bool {
    forall|j: int| k <= j < ex.policy_calls().len() ==> !(#[trigger] ex.policy_calls()[j] is Reset)
}

/// From `before` to `after` no task became pending again and no pending task whose counter was
/// zero got a counter above zero.
pub open spec fn ready_kept<P, L, V, E>(before: PolicyExecutor<P, L, V, E>, after: PolicyExecutor<P, L, V, E>) -> bool {
    &&& after.sched() == before.sched()
    &&& after.remaining().len() == before.remaining().len()
    &&& after.exec().tasks().len() == before.exec().tasks().len()
    &&& forall|i: int|
        0 <= i < before.exec().tasks().len() && (#[trigger] after.exec().tasks()[i]).state == State::Pending ==> {
            &&& before.exec().tasks()[i].state == State::Pending
            &&& i < before.remaining().len() && before.remaining()[i] == 0 ==> after.remaining()[i] == 0
        }
}

/// The `on_task_finished` calls that report the tasks `fs` as failed, in order.
pub open spec fn finished_failed(fs: Seq<TaskId>) -> Seq<PolicyCall> {
    fs.map_values(|x: TaskId| PolicyCall::Finished(x, State::Failed))
}

/// The `on_task_ready` calls made while the dependants `nb` of a completed task are counted
/// down from the counters `rem`: a pending dependant is announced when its counter goes from one
/// to zero.
pub open spec fn ready_calls<V, E>(
    sid: u64,
    rem: Seq<usize>,
    tasks: Seq<TaskExecution<V, E>>,
    nb: Seq<usize>,
) -> Seq<PolicyCall>
    decreases nb.len(),
{
    if nb.len() == 0 {
        Seq::empty()
    } else {
        let d = nb.last();
        let before = nb.drop_last();
        ready_calls(sid, rem, tasks, before) + if d < rem.len() && d < tasks.len() && tasks[d as int].state
            == State::Pending && counted_down(rem[d as int], before, d) == 1 {
            seq![PolicyCall::Ready(TaskId { schedule_id: sid, idx: d })]
        } else {
            Seq::empty()
        }
    }
}

/// The number of edges from `a` to `b`.
pub open spec fn count_edges(edges: Seq<(usize, usize)>, a: usize, b: usize) -> nat
    decreases edges.len(),
{
    if edges.len() == 0 {
        0
    } else {
        count_edges(edges.drop_last(), a, b) + if edges.last() == (a, b) { 1nat } else { 0nat }
    }
}

/// The number of edges into `b` whose source task has not succeeded.
pub open spec fn unsucceeded_dependencies<V, E>(
    edges: Seq<(usize, usize)>,
    tasks: Seq<TaskExecution<V, E>>,
    b: usize,
) -> nat
    decreases edges.len(),
{
    if edges.len() == 0 {
        0
    } else {
        let e = edges.last();
        unsucceeded_dependencies(edges.drop_last(), tasks, b) + if e.1 == b && tasks[e.0 as int].state
            != State::Succeeded {
            1nat
        } else {
            0nat
        }
    }
}

/// The number of times `x` occurs in `s`.
pub open spec fn occurrences(s: Seq<usize>, x: usize) -> nat
    decreases s.len(),
{
    if s.len() == 0 {
        0
    } else {
        occurrences(s.drop_last(), x) + if s.last() == x { 1nat } else { 0nat }
    }
}

/// The dependency counts are counts of edges: the edges from `a` to `b`, the edges into `b`
/// whose source has not succeeded, and the entries of `nb` equal to `x`.
pub proof fn lemma_counts_are_filters<V, E>(
    edges: Seq<(usize, usize)>,
    tasks: Seq<TaskExecution<V, E>>,
    a: usize,
    b: usize,
    nb: Seq<usize>,
    x: usize,
)
    ensures
        count_edges(edges, a, b) == edges.filter(|e: (usize, usize)| e == (a, b)).len(),
        unsucceeded_dependencies(edges, tasks, b) == edges.filter(
            |e: (usize, usize)| e.1 == b && tasks[e.0 as int].state != State::Succeeded,
        ).len(),
        occurrences(nb, x) == nb.filter(|y: usize| y == x).len(),
    decreases edges.len() + nb.len(),
{
    reveal(Seq::filter);
    if edges.len() > 0 {
        lemma_counts_are_filters(edges.drop_last(), tasks, a, b, nb, x);
    }
    if nb.len() > 0 {
        lemma_counts_are_filters(edges, tasks, a, b, nb.drop_last(), x);
    }
}

/// When no dependency has succeeded, a task's unsucceeded dependencies are all its incoming
/// edges.
pub proof fn lemma_unsucceeded_all<V, E>(edges: Seq<(usize, usize)>, tasks: Seq<TaskExecution<V, E>>, b: usize)
    requires
        forall|k: int|
            0 <= k < edges.len() ==> (#[trigger] edges[k]).0 < tasks.len() && tasks[edges[k].0 as int].state
                != State::Succeeded,
    ensures
        unsucceeded_dependencies(edges, tasks, b) == neighbors_in_order(edges, b, Dir::Incoming).len(),
    decreases edges.len(),
{
    if edges.len() > 0 {
        let rest = edges.drop_last();
        assert forall|k: int| 0 <= k < rest.len() implies (#[trigger] rest[k]).0 < tasks.len()
            && tasks[rest[k].0 as int].state != State::Succeeded by {
            assert(rest[k] == edges[k]);
        }
        lemma_unsucceeded_all(rest, tasks, b);
        assert(edges.last() == edges[edges.len() - 1]);
    }
}

/// A pending task whose counter reached zero has all its dependencies succeeded.
pub proof fn lemma_zero_means_dependencies_succeeded<V, E>(
    edges: Seq<(usize, usize)>,
    tasks: Seq<TaskExecution<V, E>>,
    b: usize,
)
    requires
        unsucceeded_dependencies(edges, tasks, b) == 0,
    ensures
        forall|k: int| 0 <= k < edges.len() && (#[trigger] edges[k]).1 == b ==> tasks[edges[k].0 as int].state
            == State::Succeeded,
    decreases edges.len(),
{
    if edges.len() > 0 {
        let rest = edges.drop_last();
        lemma_zero_means_dependencies_succeeded(rest, tasks, b);
        assert forall|k: int| 0 <= k < edges.len() && (#[trigger] edges[k]).1 == b implies tasks[edges[k].0 as int].state
            == State::Succeeded by {
            if k < edges.len() - 1 {
                assert(rest[k] == edges[k]);
            }
        }
    }
}

/// Changing tasks between states other than `Succeeded` changes no counter.
pub proof fn lemma_unsucceeded_same<V, E>(
    edges: Seq<(usize, usize)>,
    a: Seq<TaskExecution<V, E>>,
    b: Seq<TaskExecution<V, E>>,
    n: nat,
)
    requires
        a.len() == n,
        b.len() == n,
        forall|k: int| 0 <= k < edges.len() ==> (#[trigger] edges[k]).0 < n,
        forall|i: int| 0 <= i < n ==> ((#[trigger] a[i]).state == State::Succeeded) == (b[i].state == State::Succeeded),
    ensures
        forall|x: usize| unsucceeded_dependencies(edges, a, x) == #[trigger] unsucceeded_dependencies(edges, b, x),
    decreases edges.len(),
{
    let rest = edges.drop_last();
    if edges.len() > 0 {
        assert forall|k: int| 0 <= k < rest.len() implies (#[trigger] rest[k]).0 < n by {
            assert(rest[k] == edges[k]);
        }
        lemma_unsucceeded_same(rest, a, b, n);
        assert(edges.last() == edges[edges.len() - 1]);
        let e0 = edges.last().0 as int;
        assert((a[e0].state == State::Succeeded) == (b[e0].state == State::Succeeded));
        assert forall|x: usize| unsucceeded_dependencies(edges, a, x) == #[trigger] unsucceeded_dependencies(edges, b, x) by {
            assert(unsucceeded_dependencies(rest, a, x) == unsucceeded_dependencies(rest, b, x));
        }
    } else {
        assert forall|x: usize| unsucceeded_dependencies(edges, a, x) == #[trigger] unsucceeded_dependencies(edges, b, x) by {
        }
    }
}

/// `a + n`, saturated at `usize::MAX`.
pub open spec fn sat_add(a: usize, n: nat) -> usize {
    if a + n > usize::MAX {
        usize::MAX
    } else {
        (a + n) as usize
    }
}

/// `s` without the occurrences of `x`, in order.
pub open spec fn without(s: Seq<TaskId>, x: TaskId) -> Seq<TaskId>
    decreases s.len(),
{
    if s.len() == 0 {
        Seq::empty()
    } else {
        let r = without(s.drop_last(), x);
        if s.last() == x {
            r
        } else {
            r.push(s.last())
        }
    }
}

/// The counter of task `i` after the dependants in `nb` were counted down: one per
/// occurrence, stopping at zero.
pub open spec fn counted_down(rem: usize, nb: Seq<usize>, i: usize) -> usize {
    if rem >= occurrences(nb, i) {
        (rem - occurrences(nb, i)) as usize
    } else {
        0
    }
}

pub proof fn lemma_occurrences_concat(a: Seq<usize>, b: Seq<usize>, x: usize)
    ensures
        occurrences(a + b, x) == occurrences(a, x) + occurrences(b, x),
    decreases b.len(),
{
    if b.len() == 0 {
        assert(a + b == a);
    } else {
        lemma_occurrences_concat(a, b.drop_last(), x);
        assert((a + b).drop_last() == a + b.drop_last());
    }
}

pub proof fn lemma_occurrences_reverse(s: Seq<usize>, x: usize)
    ensures
        occurrences(s.reverse(), x) == occurrences(s, x),
    decreases s.len(),
{
    if s.len() > 0 {
        lemma_occurrences_reverse(s.drop_last(), x);
        assert(s.reverse() == seq![s.last()] + s.drop_last().reverse());
        lemma_occurrences_concat(seq![s.last()], s.drop_last().reverse(), x);
        assert(seq![s.last()].drop_last() == Seq::<usize>::empty());
        assert(seq![s.last()].last() == s.last());
        assert(occurrences(Seq::<usize>::empty(), x) == 0);
        assert(occurrences(seq![s.last()], x) == (if s.last() == x { 1nat } else { 0nat }));
    }
}

pub proof fn lemma_occurrences_neighbors(edges: Seq<(usize, usize)>, a: usize, x: usize)
    ensures
        occurrences(neighbors_in_order(edges, a, Dir::Outgoing), x) == count_edges(edges, a, x),
    decreases edges.len(),
{
    if edges.len() > 0 {
        lemma_occurrences_neighbors(edges.drop_last(), a, x);
        let rest = neighbors_in_order(edges.drop_last(), a, Dir::Outgoing);
        assert(rest.push(edges.last().1).drop_last() == rest);
    }
}

pub proof fn lemma_count_edges_some(edges: Seq<(usize, usize)>, a: usize, x: usize)
    requires
        count_edges(edges, a, x) > 0,
    ensures
        reaches(edges, a, x, 1),
    decreases edges.len(),
{
    let rest = edges.drop_last();
    if count_edges(rest, a, x) > 0 {
        lemma_count_edges_some(rest, a, x);
        let k = choose|k: int| 0 <= k < rest.len() && #[trigger] rest[k].0 == a && (rest[k].1 == x || reaches(rest, rest[k].1, x, 0));
        assert(edges[k] == rest[k]);
        assert(edges[k].0 == a);
    } else {
        assert(edges[edges.len() - 1] == (a, x));
        assert(edges[edges.len() - 1].0 == a);
    }
}

pub proof fn lemma_unsucceeded_update<V, E>(
    edges: Seq<(usize, usize)>,
    tasks: Seq<TaskExecution<V, E>>,
    a: usize,
    t: TaskExecution<V, E>,
    x: usize,
)
    requires
        a < tasks.len(),
        tasks[a as int].state != State::Succeeded,
        t.state == State::Succeeded,
        forall|k: int| 0 <= k < edges.len() ==> (#[trigger] edges[k]).0 < tasks.len(),
    ensures
        unsucceeded_dependencies(edges, tasks.update(a as int, t), x) + count_edges(edges, a, x)
            == unsucceeded_dependencies(edges, tasks, x),
    decreases edges.len(),
{
    if edges.len() > 0 {
        let rest = edges.drop_last();
        assert forall|k: int| 0 <= k < rest.len() implies (#[trigger] rest[k]).0 < tasks.len() by {
            assert(rest[k] == edges[k]);
        }
        lemma_unsucceeded_update(rest, tasks, a, t, x);
        assert(edges.last() == edges[edges.len() - 1]);
    }
}

/// `Duration::default`: the zero duration. `Duration` is opaque to the verifier, so nothing is
/// stated of the value.
#[verifier::external_body]
fn zero_duration() -> Duration {
    Duration::default()
}

/// The node indices among the first `k` whose task is pending in `exec`.
pub open spec fn pending_indices<V, E>(exec: Execution<V, E>, sid: u64, k: nat) -> Seq<usize>
    decreases k,
{
    if k == 0 {
        Seq::empty()
    } else {
        let rest = pending_indices(exec, sid, (k - 1) as nat);
        if exec.state_of(TaskId { schedule_id: sid, idx: (k - 1) as usize }) == State::Pending {
            rest.push((k - 1) as usize)
        } else {
            rest
        }
    }
}

/// The node indices of the tasks in `ids` that are running in `exec`, in order.
pub open spec fn running_indices<V, E>(exec: Execution<V, E>, ids: Seq<TaskId>) -> Seq<usize>
    decreases ids.len(),
{
    if ids.len() == 0 {
        Seq::empty()
    } else {
        let rest = running_indices(exec, ids.drop_last());
        if exec.state_of(ids.last()) == State::Running {
            rest.push(ids.last().idx)
        } else {
            rest
        }
    }
}

/// Removing a finished task from the started tasks keeps the others, in order: it is the
/// sequence filtered to the ids other than `x`.
pub proof fn lemma_without_is_filter(s: Seq<TaskId>, x: TaskId)
    ensures
        without(s, x) == s.filter(|t: TaskId| t != x),
    decreases s.len(),
{
    reveal(Seq::filter);
    if s.len() > 0 {
        lemma_without_is_filter(s.drop_last(), x);
    }
}

/// The running indices reported by a timed-out run are the indices of the started tasks that
/// are running, in the order in which they were started.
pub proof fn lemma_running_indices_is_filter<V, E>(exec: Execution<V, E>, ids: Seq<TaskId>)
    ensures
        running_indices(exec, ids) == ids.filter(|t: TaskId| exec.state_of(t) == State::Running).map_values(
            |t: TaskId| t.idx,
        ),
    decreases ids.len(),
{
    reveal(Seq::filter);
    if ids.len() > 0 {
        lemma_running_indices_is_filter(exec, ids.drop_last());
        let f = ids.drop_last().filter(|t: TaskId| exec.state_of(t) == State::Running);
        assert(f.push(ids.last()).map_values(|t: TaskId| t.idx) =~= f.map_values(|t: TaskId| t.idx).push(
            ids.last().idx,
        ));
    }
}

/// The pending indices reported by a stalled or timed-out run: every listed index is below `k`
/// and names a pending task, every pending task below `k` is listed, and the indices strictly
/// increase.
pub proof fn lemma_pending_indices_members<V, E>(exec: Execution<V, E>, sid: u64, k: nat)
    requires
        k <= usize::MAX,
    ensures
        forall|j: int|
            0 <= j < pending_indices(exec, sid, k).len() ==> {
                let i = #[trigger] pending_indices(exec, sid, k)[j];
                &&& i < k
                &&& exec.state_of(TaskId { schedule_id: sid, idx: i }) == State::Pending
            },
        forall|i: usize|
            i < k && #[trigger] exec.state_of(TaskId { schedule_id: sid, idx: i }) == State::Pending ==> exists|j: int|
                0 <= j < pending_indices(exec, sid, k).len() && pending_indices(exec, sid, k)[j] == i,
        forall|a: int, b: int|
            0 <= a < b < pending_indices(exec, sid, k).len() ==> pending_indices(exec, sid, k)[a]
                < pending_indices(exec, sid, k)[b],
    decreases k,
{
    if k > 0 {
        let k1 = (k - 1) as nat;
        lemma_pending_indices_members(exec, sid, k1);
        let rest = pending_indices(exec, sid, k1);
        let all = pending_indices(exec, sid, k);
        assert forall|j: int| 0 <= j < rest.len() implies all[j] == rest[j] by {}
        assert forall|i: usize|
            i < k && #[trigger] exec.state_of(TaskId { schedule_id: sid, idx: i }) == State::Pending implies exists|j: int|
                0 <= j < all.len() && all[j] == i by {
            if i < k1 {
                let j = choose|j: int| 0 <= j < rest.len() && rest[j] == i;
                assert(all[j] == i);
            } else {
                assert(all[rest.len() as int] == i);
            }
        }
    }
}

/// Failing a running task `root` and its pending dependants adds one plus the number of those
/// dependants to the number of failed tasks, and leaves the number of succeeded tasks as it was.
pub proof fn lemma_count_after_failing<V, E>(
    t0: Seq<TaskExecution<V, E>>,
    t1: Seq<TaskExecution<V, E>>,
    edges: Seq<(usize, usize)>,
    root: usize,
    n: nat,
)
    requires
        t0.len() == n,
        t1.len() == n,
        n < usize::MAX,
        root < n,
        t0[root as int].state == State::Running,
        t1[root as int].state == State::Failed,
        forall|b: int|
            0 <= b < n && b != root ==> if reachable(edges, root, b as usize) && t0[b].state == State::Pending {
                (#[trigger] t1[b]).state == State::Failed
            } else {
                t1[b].state == t0[b].state
            },
    ensures
        count_state(t1, State::Failed) == count_state(t0, State::Failed) + 1 + schedule::failing_set(
            edges,
            t0,
            root,
            n,
        ).len(),
        count_state(t1, State::Succeeded) == count_state(t0, State::Succeeded),
        count_state(t1, State::Failed) <= n,
{
    let fs = schedule::failing_set(edges, t0, root, n);
    let c = fs.insert(root);
    assert forall|b: int| 0 <= b < n implies if c.contains(b as usize) {
        &&& (#[trigger] t1[b]).state == State::Failed
        &&& crate::execution::unfinished_state(t0[b].state)
    } else {
        t1[b].state == t0[b].state
    } by {
        if b != root {
            assert(c.contains(b as usize) == (reachable(edges, root, b as usize) && t0[b].state == State::Pending));
        }
    }
    lemma_count_state_fail_set(t0, t1, c);
    assert(!fs.contains(root));
    assert(fs =~= c.remove(root));
    lemma_count_state_le(t1, State::Failed);
}

/// Executes a schedule step by step under a scheduling policy.
pub struct PolicyExecutor<P, L, V, E> {
    schedule_id: u64,
    schedule: Schedule<L>,
    execution: Execution<V, E>,
    policy: P,
    trace: Trace<TaskId>,
    timeout: Option<Duration>,
    running_task_ids: Vec<TaskId>,
    remaining_dependencies: Vec<usize>,
    succeeded_tasks: usize,
    failed_tasks: usize,
    asking_policy: bool,
    policy_calls: Ghost<Seq<PolicyCall>>,
}

impl<P, L, V, E> PolicyExecutor<P, L, V, E> {
    /// The schedule being executed.
    pub closed spec fn sched(&self) -> Schedule<L> {
        self.schedule
    }

    /// The execution state.
    pub closed spec fn exec(&self) -> Execution<V, E> {
        self.execution
    }

    /// The policy.
    pub closed spec fn pol(&self) -> P {
        self.policy
    }

    /// The trace of the completed tasks.
    pub closed spec fn tr(&self) -> Trace<TaskId> {
        self.trace
    }

    /// The timeout of a whole run.
    pub closed spec fn run_timeout(&self) -> Option<Duration> {
        self.timeout
    }

    /// For each task, the number of its dependencies whose success has not been reported.
    pub closed spec fn remaining(&self) -> Seq<usize> {
        self.remaining_dependencies@
    }

    /// The tasks that were started in this run and whose completion was not reported.
    pub closed spec fn started_ids(&self) -> Seq<TaskId> {
        self.running_task_ids@
    }

    /// The number of tasks that succeeded in this run.
    pub closed spec fn succeeded_count(&self) -> usize {
        self.succeeded_tasks
    }

    /// The number of tasks that failed in this run.
    pub closed spec fn failed_count(&self) -> usize {
        self.failed_tasks
    }

    /// The calls the executor made to its policy, oldest first.
    pub closed spec fn policy_calls(&self) -> Seq<PolicyCall> {
        self.policy_calls@
    }

    /// Each task that the calls to the policy from position `k` on announce as ready is a task
    /// of the schedule all of whose dependencies have succeeded.
    pub open spec fn announced_ready_ok(self, k: int) -> bool {
        forall|j: int|
            k <= j < self.policy_calls().len() && (#[trigger] self.policy_calls()[j]) is Ready ==> {
                let t = self.policy_calls()[j]->Ready_0;
                &&& t.schedule_id == self.sched().sid()
                &&& t.idx < self.sched().nodes().len()
                &&& forall|m: int|
                    0 <= m < self.sched().nodes()[t.idx as int].dependencies@.len() ==> self.exec().state_of(
                        #[trigger] self.sched().nodes()[t.idx as int].dependencies@[m],
                    ) == State::Succeeded
            }
    }

    /// Whether the executor is asking the policy for tasks to start, rather than waiting.
    pub closed spec fn asking(&self) -> bool {
        self.asking_policy
    }

    /// The schedule is well formed and the execution belongs to it.
    pub open spec fn wf(&self) -> bool {
        &&& self.sched().wf()
        &&& self.exec().sid() == self.sched().sid()
        &&& self.exec().tasks().len() == self.sched().nodes().len()
        &&& self.exec().shaped()
        &&& self.id_matches()
    }

    /// The executor's copy of the schedule id is the schedule's id.
    pub closed spec fn id_matches(&self) -> bool {
        self.schedule_id == self.schedule.sid()
    }

    /// The dependency counters are right: every pending task counts exactly its dependency
    /// edges whose source has not succeeded.
    pub open spec fn ready_inv(&self) -> bool {
        forall|i: int|
            0 <= i < self.sched().nodes().len() && (#[trigger] self.exec().tasks()[i]).state
                == State::Pending ==> i < self.remaining().len() && self.remaining()[i]
                == unsucceeded_dependencies(self.sched().edges(), self.exec().tasks(), i as usize)
    }

    /// The counters of the run are the numbers of tasks that succeeded and that failed.
    pub open spec fn counts_match(&self) -> bool {
        &&& self.succeeded_count() == count_state(self.exec().tasks(), State::Succeeded)
        &&& self.failed_count() == count_state(self.exec().tasks(), State::Failed)
    }

    /// The report of the run so far.
    pub open spec fn report(&self) -> RunReport {
        RunReport {
            total_tasks: self.sched().nodes().len() as usize,
            succeeded_tasks: self.succeeded_count(),
            failed_tasks: self.failed_count(),
        }
    }

    /// Creates an executor of `schedule` with a custom policy.
    pub fn new(schedule: Schedule<L>, policy: P) -> (r: Self)
        requires
            schedule.wf(),
        ensures
            r.wf(),
            r.sched() == schedule,
            r.pol() == policy,
            r.exec().running() == 0,
            r.exec().unfinished() == schedule.nodes().len(),
            r.exec().wf(),
            forall|i: int| 0 <= i < schedule.nodes().len() ==> (#[trigger] r.exec().tasks()[i]).state == State::Pending,
            r.tr().tasks@.len() == 0,
            r.run_timeout().is_none(),
            !r.asking(),
    {
        let schedule_id = schedule.schedule_id();
        let count = schedule.node_count();
        let execution = Execution::new(schedule_id, count);
        PolicyExecutor {
            schedule_id,
            schedule,
            execution,
            policy,
            trace: Trace::new(),
            timeout: None,
            running_task_ids: Vec::new(),
            remaining_dependencies: Vec::new(),
            succeeded_tasks: 0,
            failed_tasks: 0,
            asking_policy: false,
            policy_calls: Ghost(Seq::empty()),
        }
    }

    /// Sets an optional timeout for the entire execution.
    pub fn timeout(self, timeout: Option<Duration>) -> (r: Self)
        ensures
            r.run_timeout() == timeout,
            r.sched() == self.sched(),
            r.exec() == self.exec(),
            r.pol() == self.pol(),
            r.wf() == self.wf(),
    {
        PolicyExecutor { timeout, ..self }
    }

    /// Returns the timeout of the entire execution.
    pub fn run_timeout_value(&self) -> (r: Option<Duration>)
        ensures
            r == self.run_timeout(),
    {
        self.timeout
    }

    /// Sets an optional timeout for an individual task.
    pub fn set_task_timeout(&mut self, task_id: TaskId, timeout: Option<Duration>)
        ensures
            final(self).sched() == old(self).sched(),
            final(self).exec().tasks() == old(self).exec().tasks(),
            final(self).exec().sid() == old(self).exec().sid(),
            final(self).exec().timeouts() == (if task_id.schedule_id == old(self).exec().sid()
                && task_id.idx < old(self).exec().timeouts().len() {
                old(self).exec().timeouts().update(task_id.idx as int, timeout)
            } else {
                old(self).exec().timeouts()
            }),
            old(self).wf() ==> final(self).wf(),
    {
        self.execution.set_task_timeout(task_id, timeout);
    }

    /// Sets an optional timeout for the task of a handle.
    pub fn set_task_timeout_handle<O>(&mut self, handle: Handle<O>, timeout: Option<Duration>)
        ensures
            final(self).sched() == old(self).sched(),
            final(self).exec().tasks() == old(self).exec().tasks(),
            final(self).exec().sid() == old(self).exec().sid(),
            final(self).exec().timeouts() == (if handle.task_id.schedule_id == old(self).exec().sid()
                && handle.task_id.idx < old(self).exec().timeouts().len() {
                old(self).exec().timeouts().update(handle.task_id.idx as int, timeout)
            } else {
                old(self).exec().timeouts()
            }),
            old(self).wf() ==> final(self).wf(),
    {
        self.execution.set_task_timeout_handle(handle, timeout);
    }

    /// Returns the underlying schedule.
    pub fn schedule(&self) -> (r: &Schedule<L>)
        ensures
            *r == self.sched(),
    {
        &self.schedule
    }

    /// Returns the current execution state.
    pub fn execution(&self) -> (r: &Execution<V, E>)
        ensures
            *r == self.exec(),
    {
        &self.execution
    }

    /// Returns the policy.
    pub fn policy(&self) -> (r: &P)
        ensures
            *r == self.pol(),
    {
        &self.policy
    }

    /// Returns the execution trace collected during the run.
    pub fn trace(&self) -> (r: &Trace<TaskId>)
        ensures
            *r == self.tr(),
    {
        &self.trace
    }

    /// Starts a run: resets the counters of the run, counts the dependency edges of every
    /// task, resets the policy and announces every task without dependencies as ready, in
    /// index order.
    pub fn begin_run(&mut self)
        where P: Policy<L>,
        requires
            old(self).wf(),
        ensures
            final(self).wf(),
            final(self).sched() == old(self).sched(),
            final(self).exec() == old(self).exec(),
            final(self).tr() == old(self).tr(),
            final(self).run_timeout() == old(self).run_timeout(),
            final(self).remaining().len() == old(self).sched().nodes().len(),
            forall|i: int|
                0 <= i < final(self).remaining().len() ==> #[trigger] final(self).remaining()[i]
                    == neighbors_in_order(old(self).sched().edges(), i as usize, Dir::Incoming).len(),
            final(self).started_ids().len() == 0,
            final(self).succeeded_count() == 0,
            final(self).failed_count() == 0,
            !final(self).asking(),
            final(self).policy_calls() == old(self).policy_calls().push(PolicyCall::Reset) + initially_ready(
                old(self).sched().sid(),
                old(self).sched().edges(),
                old(self).sched().nodes().len(),
            ),
            final(self).announced_ready_ok(old(self).policy_calls().len() as int),
            announced_zero(*final(self), old(self).policy_calls().len() as int),
            policy_follows(*final(self), old(self).pol(), old(self).policy_calls().len() as int),
            (forall|i: int|
                0 <= i < old(self).exec().tasks().len() ==> (#[trigger] old(self).exec().tasks()[i]).state
                    == State::Pending) ==> final(self).ready_inv() && final(self).counts_match(),
    {
        self.running_task_ids = Vec::new();
        self.succeeded_tasks = 0;
        self.failed_tasks = 0;
        self.asking_policy = false;
        let indices = self.schedule.node_indices();
        let ghost edges = self.schedule.edges();
        let mut remaining: Vec<usize> = Vec::new();
        let mut k: usize = 0;
        while k < indices.len()
            invariant
                self.wf(),
                edges == self.sched().edges(),
                indices@.len() == self.sched().nodes().len(),
                forall|i: int| 0 <= i < indices@.len() ==> indices@[i] == i,
                k <= indices@.len(),
                remaining@.len() == k,
                forall|i: int|
                    0 <= i < k ==> #[trigger] remaining@[i] == neighbors_in_order(edges, i as usize, Dir::Incoming).len(),
            decreases indices@.len() - k,
        {
            let idx = indices[k];
            let incoming = self.schedule.neighbors(idx, Dir::Incoming);
            remaining.push(incoming.len());
            k = k + 1;
        }
        let ghost p0 = self.policy;
        let ghost k0 = self.policy_calls@.len() as int;
        proof {
            lemma_policy_follows_start(*self);
        }
        let ghost before = *self;
        self.policy.reset();
        self.policy_calls = Ghost(self.policy_calls@.push(PolicyCall::Reset));
        proof {
            lemma_policy_follows_call(before, *self, p0, k0, PolicyCall::Reset);
        }
        let ghost calls0 = self.policy_calls@;
        let mut k: usize = 0;
        while k < indices.len()
            invariant
                self.wf(),
                indices@.len() == self.sched().nodes().len(),
                forall|i: int| 0 <= i < indices@.len() ==> indices@[i] == i,
                k <= indices@.len(),
                remaining@.len() == indices@.len(),
                edges == self.sched().edges(),
                forall|i: int|
                    0 <= i < indices@.len() ==> #[trigger] remaining@[i] == neighbors_in_order(edges, i as usize, Dir::Incoming).len(),
                self.policy_calls() == calls0 + initially_ready(self.sched().sid(), edges, k as nat),
                policy_follows(*self, p0, k0),
                self.sched() == old(self).sched(),
                self.exec() == old(self).exec(),
                self.tr() == old(self).tr(),
                self.run_timeout() == old(self).run_timeout(),
                self.started_ids().len() == 0,
                self.succeeded_count() == 0,
                self.failed_count() == 0,
                !self.asking(),
            decreases indices@.len() - k,
        {
            let idx = indices[k];
            if remaining[idx] == 0 {
                let task_id = TaskId::new(self.schedule_id, idx);
                let ghost before = *self;
                self.policy.on_task_ready(task_id, &self.schedule);
                self.policy_calls = Ghost(self.policy_calls@.push(PolicyCall::Ready(task_id)));
                proof {
                    lemma_policy_follows_call(before, *self, p0, k0, PolicyCall::Ready(task_id));
                }
            }
            k = k + 1;
        }
        self.remaining_dependencies = remaining;
        proof {
            if forall|i: int|
                0 <= i < old(self).exec().tasks().len() ==> (#[trigger] old(self).exec().tasks()[i]).state
                    == State::Pending {
                lemma_count_state_all_pending(self.exec().tasks(), State::Succeeded);
                lemma_count_state_all_pending(self.exec().tasks(), State::Failed);
                schedule::lemma_dep_edges_ordered(self.sched().nodes(), self.sched().sid());
                assert forall|i: int|
                    0 <= i < self.sched().nodes().len() && (#[trigger] self.exec().tasks()[i]).state
                        == State::Pending implies i < self.remaining().len() && self.remaining()[i]
                        == unsucceeded_dependencies(self.sched().edges(), self.exec().tasks(), i as usize) by {
                    assert forall|kk: int|
                        0 <= kk < edges.len() implies (#[trigger] edges[kk]).0 < self.exec().tasks().len()
                        && self.exec().tasks()[edges[kk].0 as int].state != State::Succeeded by {
                        assert(self.exec().tasks()[edges[kk].0 as int].state == State::Pending);
                    }
                    lemma_unsucceeded_all(edges, self.exec().tasks(), i as usize);
                }
            }
            let k0 = old(self).policy_calls().len() as int;
            let announced = initially_ready(self.sched().sid(), edges, self.sched().nodes().len());
            assert forall|j: int|
                k0 <= j < self.policy_calls().len() && (#[trigger] self.policy_calls()[j]) is Ready implies {
                    let t = self.policy_calls()[j]->Ready_0;
                    &&& t.schedule_id == self.sched().sid()
                    &&& t.idx < self.sched().nodes().len()
                    &&& forall|m: int|
                        0 <= m < self.sched().nodes()[t.idx as int].dependencies@.len() ==> self.exec().state_of(
                            #[trigger] self.sched().nodes()[t.idx as int].dependencies@[m],
                        ) == State::Succeeded
                } by {
                assert(j > k0);
                lemma_initially_ready_entries(self.sched().sid(), edges, self.sched().nodes().len(), j - k0 - 1);
                assert(self.policy_calls()[j] == announced[j - k0 - 1]);
                let t = announced[j - k0 - 1]->Ready_0;
                schedule::lemma_no_incoming_no_dependencies(self.sched().nodes(), self.sched().sid(), t.idx as int);
            }
            assert forall|j: int|
                k0 <= j < self.policy_calls().len() && (#[trigger] self.policy_calls()[j]) is Ready implies {
                    let t = self.policy_calls()[j]->Ready_0;
                    &&& t.schedule_id == self.sched().sid()
                    &&& t.idx < self.sched().nodes().len()
                    &&& t.idx < self.remaining().len()
                    &&& self.remaining()[t.idx as int] == 0
                } by {
                assert(j > k0);
                lemma_initially_ready_entries(self.sched().sid(), edges, self.sched().nodes().len(), j - k0 - 1);
                assert(self.policy_calls()[j] == announced[j - k0 - 1]);
            }
        }
    }

    /// What the executor does with the answer `answer` of its policy at `now`, from `self` to
    /// `after`: the answer is logged; without a task the executor stops asking and the run is
    /// finished if no task is unfinished, else the caller waits; a task of the schedule is marked
    /// running, reported to the policy as started and returned as `Step::Start`; any other task
    /// is returned as `Step::UnknownTask` and nothing else changes.
    pub open spec fn answer_applied(self, answer: Option<TaskId>, now: Instant, s: Step, after: Self) -> bool {
        &&& after.sched() == self.sched()
        &&& after.tr() == self.tr()
        &&& after.run_timeout() == self.run_timeout()
        &&& after.remaining() == self.remaining()
        &&& after.succeeded_count() == self.succeeded_count()
        &&& after.failed_count() == self.failed_count()
        &&& match answer {
            None => {
                &&& s == (if self.exec().unfinished() == 0 {
                    Step::Finished(self.report())
                } else {
                    Step::Wait
                })
                &&& after.exec() == self.exec()
                &&& after.started_ids() == self.started_ids()
                &&& !after.asking()
                &&& after.policy_calls() == self.policy_calls().push(PolicyCall::Asked(None))
            },
            Some(t) => if t.schedule_id == self.sched().sid() && t.idx < self.sched().nodes().len() {
                &&& s == Step::Start(t)
                &&& marked_running(self.exec(), t, now, after.exec())
                &&& after.started_ids() == self.started_ids().push(t)
                &&& after.asking()
                &&& after.policy_calls() == self.policy_calls().push(PolicyCall::Asked(Some(t))).push(
                    PolicyCall::Started(t),
                )
            } else {
                &&& s == Step::UnknownTask(t)
                &&& after.exec() == self.exec()
                &&& after.started_ids() == self.started_ids()
                &&& after.asking()
                &&& after.policy_calls() == self.policy_calls().push(PolicyCall::Asked(Some(t)))
            },
        }
    }

    /// Acts on the answer of the policy to `next_task`, at `now`; see `answer_applied`.
    pub fn apply_answer(&mut self, answer: Option<TaskId>, now: Instant) -> (s: Step)
        where P: Policy<L>,
        requires
            old(self).wf(),
        ensures
            final(self).wf(),
            old(self).answer_applied(answer, now, s, *final(self)),
            !(s is Start) ==> final(self).pol() == old(self).pol(),
            P::obeys_policy_spec() && s is Start ==> old(self).pol().started_post(
                final(self).pol(),
                s->Start_0,
                old(self).sched(),
            ),
            old(self).ready_inv() && !(s matches Step::Start(t) && old(self).exec().tasks()[t.idx as int].state
                == State::Succeeded) ==> final(self).ready_inv(),
            old(self).counts_match() && !(s matches Step::Start(t) && !crate::execution::unfinished_state(
                old(self).exec().tasks()[t.idx as int].state,
            )) ==> final(self).counts_match(),
            old(self).exec().wf() ==> final(self).exec().wf(),
    {
        self.policy_calls = Ghost(self.policy_calls@.push(PolicyCall::Asked(answer)));
        match answer {
            None => {
                self.asking_policy = false;
                if self.execution.unfinished_count() == 0 {
                    Step::Finished(self.current_report())
                } else {
                    Step::Wait
                }
            },
            Some(task_id) => {
                self.asking_policy = true;
                if task_id.schedule_id != self.schedule_id || !self.schedule.contains_task(task_id.idx) {
                    return Step::UnknownTask(task_id);
                }
                let ghost before = self.execution.tasks();
                self.execution.mark_running(task_id, now);
                self.policy.on_task_started(task_id, &self.schedule);
                self.policy_calls = Ghost(self.policy_calls@.push(PolicyCall::Started(task_id)));
                self.running_task_ids.push(task_id);
                proof {
                    if before[task_id.idx as int].state == State::Pending {
                        let t1 = crate::execution::started(before[task_id.idx as int], now);
                        lemma_count_state_update(before, task_id.idx as int, t1, State::Succeeded);
                        lemma_count_state_update(before, task_id.idx as int, t1, State::Failed);
                    }
                    if old(self).ready_inv() && before[task_id.idx as int].state != State::Succeeded {
                        schedule::lemma_dep_edges_ordered(self.sched().nodes(), self.sched().sid());
                        lemma_unsucceeded_same(
                            self.sched().edges(),
                            before,
                            self.exec().tasks(),
                            self.sched().nodes().len(),
                        );
                    }
                }
                Step::Start(task_id)
            },
        }
    }

    /// Asks the policy for the next task to start.
    ///
    /// When the executor is not already asking the policy and no task is unfinished, the run is
    /// finished and nothing changes. Otherwise the executor asks the policy and acts on its
    /// answer as `apply_answer` does; the answer is the entry logged after the earlier calls.
    pub fn next_step(&mut self, now: Instant) -> (s: Step)
        where P: Policy<L>,
        requires
            old(self).wf(),
        ensures
            final(self).wf(),
            !old(self).asking() && old(self).exec().unfinished() == 0 ==> {
                &&& s == Step::Finished(old(self).report())
                &&& *final(self) == *old(self)
            },
            old(self).asking() || old(self).exec().unfinished() > 0 ==> {
                let k = old(self).policy_calls().len() as int;
                &&& final(self).policy_calls().len() > k
                &&& final(self).policy_calls()[k] is Asked
                &&& old(self).answer_applied(final(self).policy_calls()[k]->Asked_0, now, s, *final(self))
            },
            (old(self).asking() || old(self).exec().unfinished() > 0) && P::obeys_policy_spec() ==> {
                let k = old(self).policy_calls().len() as int;
                &&& final(self).policy_calls()[k] == PolicyCall::Asked(
                    old(self).pol().next_task_spec(old(self).sched(), old(self).exec().running(), old(self).exec().states()),
                )
                &&& exists|mid: P|
                    {
                        &&& old(self).pol().next_task_post(
                            mid,
                            old(self).sched(),
                            old(self).exec().running(),
                            old(self).exec().states(),
                        )
                        &&& if s is Start {
                            mid.started_post(final(self).pol(), s->Start_0, old(self).sched())
                        } else {
                            final(self).pol() == mid
                        }
                    }
            },
            old(self).ready_inv() && !(s matches Step::Start(t) && old(self).exec().tasks()[t.idx as int].state
                == State::Succeeded) ==> final(self).ready_inv(),
            old(self).counts_match() && !(s matches Step::Start(t) && !crate::execution::unfinished_state(
                old(self).exec().tasks()[t.idx as int].state,
            )) ==> final(self).counts_match(),
            old(self).exec().wf() ==> final(self).exec().wf(),
            ready_kept(*old(self), *final(self)),
    {
        if !self.asking_policy {
            if self.execution.unfinished_count() == 0 {
                return Step::Finished(self.current_report());
            }
            self.asking_policy = true;
        }
        let answer = self.policy.next_task(&self.schedule, &self.execution);
        let s = self.apply_answer(answer, now);
        assert(self.policy_calls()[old(self).policy_calls().len() as int] == PolicyCall::Asked(answer));
        s
    }

    /// The report of the run so far.
    fn current_report(&self) -> (r: RunReport)
        requires
            self.wf(),
        ensures
            r == self.report(),
    {
        RunReport {
            total_tasks: self.schedule.node_count(),
            succeeded_tasks: self.succeeded_tasks,
            failed_tasks: self.failed_tasks,
        }
    }

    /// Fails a started task whose inputs were not available at `now`, with the error
    /// `E::from(Error::FailedDependency)`, then fails its pending dependants likewise; reports
    /// each of them to the policy as finished in state `Failed` and counts them as failed.
    pub fn task_unavailable(&mut self, task_id: TaskId, now: Instant)
        where P: Policy<L>, E: From<schedule::Error>,
        requires
            old(self).wf(),
        ensures
            final(self).wf(),
            final(self).sched() == old(self).sched(),
            final(self).tr() == old(self).tr(),
            final(self).run_timeout() == old(self).run_timeout(),
            final(self).remaining() == old(self).remaining(),
            final(self).started_ids() == old(self).started_ids(),
            final(self).succeeded_count() == old(self).succeeded_count(),
            final(self).asking() == old(self).asking(),
            final(self).exec().sid() == old(self).exec().sid(),
            final(self).exec().timeouts() == old(self).exec().timeouts(),
            forall|b: int|
                0 <= b < old(self).sched().nodes().len() ==> {
                    let t = old(self).exec().tasks()[b];
                    let u = #[trigger] final(self).exec().tasks()[b];
                    if (old(self).exec().owns(task_id) && b == task_id.idx) || (reachable(
                        old(self).sched().edges(),
                        task_id.idx,
                        b as usize,
                    ) && t.state == State::Pending) {
                        &&& u.error is Some
                        &&& u == crate::execution::failed(t, now, u.error->0)
                        &&& schedule::dependency_error_spec(u.error->0)
                    } else {
                        u == t
                    }
                },
            final(self).failed_count() == sat_add(
                old(self).failed_count(),
                1 + schedule::failing_set(
                    old(self).sched().edges(),
                    old(self).exec().tasks(),
                    task_id.idx,
                    old(self).sched().nodes().len(),
                ).len(),
            ),
            exists|fs: Seq<TaskId>|
                {
                    &&& final(self).policy_calls() == old(self).policy_calls().push(
                        PolicyCall::Finished(task_id, State::Failed),
                    ) + finished_failed(fs)
                    &&& schedule::lists_failing(
                        fs,
                        old(self).sched().sid(),
                        old(self).sched().edges(),
                        old(self).exec().tasks(),
                        task_id.idx,
                        old(self).sched().nodes().len(),
                    )
                },
            old(self).ready_inv() && !(old(self).exec().owns(task_id)
                && old(self).exec().tasks()[task_id.idx as int].state == State::Succeeded) ==> final(self).ready_inv(),
            old(self).counts_match() && old(self).exec().owns(task_id) && old(self).exec().tasks()[task_id.idx as int].state
                == State::Running ==> final(self).counts_match(),
            old(self).exec().wf() ==> final(self).exec().wf(),
            policy_follows(*final(self), old(self).pol(), old(self).policy_calls().len() as int),
            ready_kept(*old(self), *final(self)),
            no_reset_since(*final(self), old(self).policy_calls().len() as int),
    {
        let ghost p0 = self.policy;
        let ghost k0 = self.policy_calls@.len() as int;
        proof {
            lemma_policy_follows_start(*self);
        }
        let ghost t0 = self.execution.tasks();
        let ghost edges = self.schedule.edges();
        let ghost n = self.schedule.nodes().len();
        proof {
            schedule::lemma_dep_edges_ordered(self.sched().nodes(), self.sched().sid());
        }
        let err = E::from(schedule::Error::FailedDependency);
        self.execution.mark_failed(task_id, now, err);
        let ghost mid = self.execution.tasks();
        self.failed_tasks = self.failed_tasks.saturating_add(1);
        let ghost before = *self;
        self.policy.on_task_finished(task_id, State::Failed, &self.schedule);
        self.policy_calls = Ghost(self.policy_calls@.push(PolicyCall::Finished(task_id, State::Failed)));
        proof {
            lemma_policy_follows_call(before, *self, p0, k0, PolicyCall::Finished(task_id, State::Failed));
        }
        let ghost calls1 = self.policy_calls@;
        let failed = self.schedule.fail_dependants(&mut self.execution, task_id, now);
        let ghost base = self.failed_tasks;
        let ghost ex = self.execution;
        let mut k: usize = 0;
        while k < failed.len()
            invariant
                k <= failed@.len(),
                self.policy_calls() == calls1 + finished_failed(failed@.take(k as int)),
                policy_follows(*self, p0, k0),
                self.failed_tasks == sat_add(base, k as nat),
                self.sched() == old(self).sched(),
                self.exec() == ex,
                self.tr() == old(self).tr(),
                self.run_timeout() == old(self).run_timeout(),
                self.remaining() == old(self).remaining(),
                self.started_ids() == old(self).started_ids(),
                self.succeeded_count() == old(self).succeeded_count(),
                self.asking() == old(self).asking(),
                self.id_matches(),
            decreases failed@.len() - k,
        {
            self.failed_tasks = self.failed_tasks.saturating_add(1);
            let ghost before = *self;
            self.policy.on_task_finished(failed[k], State::Failed, &self.schedule);
            self.policy_calls = Ghost(self.policy_calls@.push(PolicyCall::Finished(failed[k as int], State::Failed)));
            proof {
                lemma_policy_follows_call(before, *self, p0, k0, PolicyCall::Finished(failed[k as int], State::Failed));
            }
            assert(finished_failed(failed@.take(k + 1)) == finished_failed(failed@.take(k as int)).push(
                PolicyCall::Finished(failed@[k as int], State::Failed),
            ));
            k = k + 1;
        }
        proof {
            assert(failed@.take(k as int) == failed@);
            schedule::lemma_lists_failing_root_state(failed@, self.sched().sid(), edges, mid, t0, task_id.idx, n);
        }
        proof {
            let fs_t0 = schedule::failing_set(edges, t0, task_id.idx, n);
            let fs_mid = schedule::failing_set(edges, mid, task_id.idx, n);
            assert(fs_t0 =~= fs_mid) by {
                assert forall|b: usize| fs_t0.contains(b) == fs_mid.contains(b) by {
                    if b < n && reachable(edges, task_id.idx, b) {
                        let m = choose|m: nat| reaches(edges, task_id.idx, b, m);
                        schedule::lemma_reaches_upward(edges, task_id.idx, b, m);
                    }
                }
            }
            assert forall|b: int| 0 <= b < n implies {
                let t = t0[b];
                let u = #[trigger] self.exec().tasks()[b];
                if (old(self).exec().owns(task_id) && b == task_id.idx) || (reachable(edges, task_id.idx, b as usize)
                    && t.state == State::Pending) {
                    &&& u.error is Some
                    &&& u == crate::execution::failed(t, now, u.error->0)
                    &&& schedule::dependency_error_spec(u.error->0)
                } else {
                    u == t
                }
            } by {
                let bb = b as usize;
                if reachable(edges, task_id.idx, bb) {
                    let m = choose|m: nat| reaches(edges, task_id.idx, bb, m);
                    schedule::lemma_reaches_upward(edges, task_id.idx, bb, m);
                }
            }
            if old(self).ready_inv() && !(old(self).exec().owns(task_id) && t0[task_id.idx as int].state
                == State::Succeeded) {
                lemma_unsucceeded_same(edges, t0, self.exec().tasks(), n);
            }
            if old(self).counts_match() && old(self).exec().owns(task_id) && t0[task_id.idx as int].state
                == State::Running {
                lemma_count_after_failing(t0, self.exec().tasks(), edges, task_id.idx, n);
            }
        }
    }

    /// Records the completion of a started task, reported at `now` with its traced timing and
    /// its result.
    ///
    /// The task is no longer counted as started and is appended to the trace. On success its
    /// output is stored and it counts as succeeded; on failure its error is stored, it counts
    /// as failed, and its pending dependants fail with it (error
    /// `E::from(Error::FailedDependency)`), each reported to the policy and counted as failed.
    /// Then every pending dependant counts down one dependency per edge from the task; each
    /// one whose count reaches zero is announced to the policy as ready.
    #[verifier::rlimit(60)]
    pub fn task_completed(&mut self, task_id: TaskId, traced: trace::Task, result: Result<V, E>, now: Instant)
        where P: Policy<L>, E: From<schedule::Error>,
        requires
            old(self).wf(),
        ensures
            final(self).wf(),
            final(self).sched() == old(self).sched(),
            final(self).run_timeout() == old(self).run_timeout(),
            final(self).asking() == old(self).asking(),
            final(self).started_ids() == without(old(self).started_ids(), task_id),
            final(self).tr().tasks@ == old(self).tr().tasks@.push((task_id, traced)),
            final(self).tr().start_time == old(self).tr().start_time,
            final(self).exec().sid() == old(self).exec().sid(),
            final(self).exec().timeouts() == old(self).exec().timeouts(),
            result matches Ok(output) ==> final(self).exec().tasks() == (if old(self).exec().owns(task_id) {
                old(self).exec().tasks().update(
                    task_id.idx as int,
                    crate::execution::succeeded(old(self).exec().tasks()[task_id.idx as int], now, output),
                )
            } else {
                old(self).exec().tasks()
            }),
            result matches Err(err) ==> forall|b: int|
                0 <= b < old(self).sched().nodes().len() ==> {
                    let t = old(self).exec().tasks()[b];
                    let u = #[trigger] final(self).exec().tasks()[b];
                    if old(self).exec().owns(task_id) && b == task_id.idx {
                        u == crate::execution::failed(t, now, err)
                    } else if reachable(old(self).sched().edges(), task_id.idx, b as usize) && t.state
                        == State::Pending {
                        &&& u.error is Some
                        &&& u == crate::execution::failed(t, now, u.error->0)
                        &&& schedule::dependency_error_spec(u.error->0)
                    } else {
                        u == t
                    }
                },
            result is Err ==> final(self).succeeded_count() == old(self).succeeded_count(),
            result is Err ==> final(self).failed_count() == sat_add(
                old(self).failed_count(),
                1 + schedule::failing_set(
                    old(self).sched().edges(),
                    old(self).exec().tasks(),
                    task_id.idx,
                    old(self).sched().nodes().len(),
                ).len(),
            ),
            result is Ok ==> final(self).succeeded_count() == sat_add(old(self).succeeded_count(), 1),
            result is Ok ==> final(self).failed_count() == old(self).failed_count(),
            final(self).remaining().len() == old(self).remaining().len(),
            forall|i: int|
                0 <= i < old(self).remaining().len() ==> #[trigger] final(self).remaining()[i] == if i
                    < old(self).sched().nodes().len() && final(self).exec().tasks()[i].state == State::Pending {
                    counted_down(
                        old(self).remaining()[i],
                        neighbors_in_order(old(self).sched().edges(), task_id.idx, Dir::Outgoing).reverse(),
                        i as usize,
                    )
                } else {
                    old(self).remaining()[i]
                },
            old(self).ready_inv() && task_id.schedule_id == old(self).sched().sid() && !(task_id.idx
                < old(self).sched().nodes().len() && old(self).exec().tasks()[task_id.idx as int].state
                == State::Succeeded) ==> final(self).ready_inv() && final(self).announced_ready_ok(
                old(self).policy_calls().len() as int,
            ),
            old(self).counts_match() && old(self).exec().owns(task_id) && old(self).exec().tasks()[task_id.idx as int].state
                == State::Running ==> final(self).counts_match(),
            old(self).exec().wf() && old(self).exec().owns(task_id) && old(self).exec().tasks()[task_id.idx as int].state
                == State::Running ==> {
                let u = final(self).exec().tasks()[task_id.idx as int];
                &&& u.started_at == old(self).exec().tasks()[task_id.idx as int].started_at
                &&& u.started_at is Some
                &&& u.completed_at is Some
            },
            old(self).exec().wf() ==> final(self).exec().wf(),
            exists|fs: Seq<TaskId>|
                {
                    &&& final(self).policy_calls() == old(self).policy_calls().push(
                        PolicyCall::Finished(task_id, if result is Ok { State::Succeeded } else { State::Failed }),
                    ) + finished_failed(fs) + ready_calls(
                        old(self).sched().sid(),
                        old(self).remaining(),
                        final(self).exec().tasks(),
                        neighbors_in_order(old(self).sched().edges(), task_id.idx, Dir::Outgoing).reverse(),
                    )
                    &&& result is Ok ==> fs.len() == 0
                    &&& result is Err ==> schedule::lists_failing(
                        fs,
                        old(self).sched().sid(),
                        old(self).sched().edges(),
                        old(self).exec().tasks(),
                        task_id.idx,
                        old(self).sched().nodes().len(),
                    )
                },
            policy_follows(*final(self), old(self).pol(), old(self).policy_calls().len() as int),
            ready_kept(*old(self), *final(self)),
            no_reset_since(*final(self), old(self).policy_calls().len() as int),
            announced_zero(*final(self), old(self).policy_calls().len() as int),
    {
        let ghost p0 = self.policy;
        let ghost k0 = self.policy_calls@.len() as int;
        proof {
            lemma_policy_follows_start(*self);
        }
        let ghost t0 = self.execution.tasks();
        let ghost edges = self.schedule.edges();
        let ghost n = self.schedule.nodes().len();
        proof {
            schedule::lemma_dep_edges_ordered(self.sched().nodes(), self.sched().sid());
        }
        let mut kept: Vec<TaskId> = Vec::new();
        let mut k: usize = 0;
        while k < self.running_task_ids.len()
            invariant
                k <= self.running_task_ids@.len(),
                self.running_task_ids@ == old(self).running_task_ids@,
                kept@ == without(self.running_task_ids@.take(k as int), task_id),
            decreases self.running_task_ids@.len() - k,
        {
            let id = self.running_task_ids[k];
            assert(self.running_task_ids@.take(k + 1).drop_last() == self.running_task_ids@.take(k as int));
            if id != task_id {
                kept.push(id);
            }
            k = k + 1;
        }
        assert(self.running_task_ids@.take(k as int) == self.running_task_ids@);
        self.running_task_ids = kept;
        self.trace.tasks.push((task_id, traced));
        let ghost exec_before = self.execution;
        let state = match result {
            Ok(output) => {
                self.execution.mark_succeeded(task_id, now, output);
                self.succeeded_tasks = self.succeeded_tasks.saturating_add(1);
                State::Succeeded
            },
            Err(err) => {
                self.execution.mark_failed(task_id, now, err);
                self.failed_tasks = self.failed_tasks.saturating_add(1);
                State::Failed
            },
        };
        let ghost mid = self.execution.tasks();
        let ghost before = *self;
        self.policy.on_task_finished(task_id, state, &self.schedule);
        self.policy_calls = Ghost(self.policy_calls@.push(PolicyCall::Finished(task_id, state)));
        proof {
            lemma_policy_follows_call(before, *self, p0, k0, PolicyCall::Finished(task_id, state));
        }
        let ghost calls1 = self.policy_calls@;
        let ghost mut fs: Seq<TaskId> = Seq::empty();
        if state.did_fail() {
            let failed = self.schedule.fail_dependants(&mut self.execution, task_id, now);
            let ghost base = self.failed_tasks;
            let ghost ex = self.execution;
            let ghost tr1 = self.trace;
            let ghost ids1 = self.running_task_ids@;
            let ghost succ1 = self.succeeded_tasks;
            let mut k: usize = 0;
            while k < failed.len()
                invariant
                    k <= failed@.len(),
                    self.policy_calls() == calls1 + finished_failed(failed@.take(k as int)),
                    policy_follows(*self, p0, k0),
                    self.failed_tasks == sat_add(base, k as nat),
                    self.sched() == old(self).sched(),
                    self.exec() == ex,
                    self.tr() == tr1,
                    self.run_timeout() == old(self).run_timeout(),
                    self.remaining() == old(self).remaining(),
                    self.started_ids() == ids1,
                    self.succeeded_count() == succ1,
                    self.asking() == old(self).asking(),
                    self.id_matches(),
                decreases failed@.len() - k,
            {
                self.failed_tasks = self.failed_tasks.saturating_add(1);
                let ghost before = *self;
                self.policy.on_task_finished(failed[k], State::Failed, &self.schedule);
                self.policy_calls = Ghost(self.policy_calls@.push(PolicyCall::Finished(failed[k as int], State::Failed)));
                proof {
                    lemma_policy_follows_call(before, *self, p0, k0, PolicyCall::Finished(failed[k as int], State::Failed));
                }
                assert(finished_failed(failed@.take(k + 1)) == finished_failed(failed@.take(k as int)).push(
                    PolicyCall::Finished(failed@[k as int], State::Failed),
                ));
                k = k + 1;
            }
            proof {
                assert(failed@.take(k as int) == failed@);
                fs = failed@;
                schedule::lemma_lists_failing_root_state(failed@, self.sched().sid(), edges, mid, t0, task_id.idx, n);
                let fs_t0 = schedule::failing_set(edges, t0, task_id.idx, n);
                let fs_mid = schedule::failing_set(edges, mid, task_id.idx, n);
                assert(fs_t0 =~= fs_mid) by {
                    assert forall|b: usize| fs_t0.contains(b) == fs_mid.contains(b) by {
                        if b < n && reachable(edges, task_id.idx, b) {
                            let m = choose|m: nat| reaches(edges, task_id.idx, b, m);
                            schedule::lemma_reaches_upward(edges, task_id.idx, b, m);
                        }
                    }
                }
            }
        }
        let ghost states = self.execution.tasks();
        let dependants = self.schedule.neighbors(task_id.idx, Dir::Outgoing);
        let ghost rem0 = self.remaining_dependencies@;
        let ghost tr2 = self.trace;
        let ghost ids2 = self.running_task_ids@;
        let ghost succ2 = self.succeeded_tasks;
        let ghost fail2 = self.failed_tasks;
        let ghost ex2 = self.execution;
        let ghost calls2 = self.policy_calls@;
        proof {
            if state != State::Failed {
                assert(finished_failed(fs) =~= Seq::<PolicyCall>::empty());
            }
        }
        assert(calls2 == calls1 + finished_failed(fs));
        let mut j: usize = 0;
        while j < dependants.len()
            invariant
                j <= dependants@.len(),
                self.policy_calls() == calls2 + ready_calls(self.sched().sid(), rem0, states, dependants@.take(j as int)),
                policy_follows(*self, p0, k0),
                self.exec() == ex2,
                self.tr() == tr2,
                self.run_timeout() == old(self).run_timeout(),
                self.started_ids() == ids2,
                self.succeeded_count() == succ2,
                self.failed_count() == fail2,
                self.asking() == old(self).asking(),
                dependants@ == neighbors_in_order(edges, task_id.idx, Dir::Outgoing).reverse(),
                edges == self.sched().edges(),
                n == self.sched().nodes().len(),
                self.wf(),
                self.sched() == old(self).sched(),
                self.exec().tasks() == states,
                self.remaining_dependencies@.len() == rem0.len(),
                forall|kk: int| 0 <= kk < edges.len() ==> (#[trigger] edges[kk]).1 < n,
                forall|i: int|
                    0 <= i < rem0.len() ==> #[trigger] self.remaining_dependencies@[i] == if i < n
                        && states[i].state == State::Pending {
                        counted_down(rem0[i], dependants@.take(j as int), i as usize)
                    } else {
                        rem0[i]
                    },
            decreases dependants@.len() - j,
        {
            let d = dependants[j];
            proof {
                assert(dependants@.take(j + 1).drop_last() == dependants@.take(j as int));
                crate::dag::lemma_neighbors_contains(edges, task_id.idx, d);
                let out = neighbors_in_order(edges, task_id.idx, Dir::Outgoing);
                assert(out.contains(d)) by {
                    assert(out[out.len() - 1 - j] == d);
                }
                let kk = choose|kk: int| 0 <= kk < edges.len() && edges[kk] == (task_id.idx, d);
                assert(edges[kk].1 < n);
            }
            let dependant = TaskId::new(self.schedule_id, d);
            if self.execution.state(dependant).is_pending() && d < self.remaining_dependencies.len() {
                if self.remaining_dependencies[d] > 0 {
                    let left = self.remaining_dependencies[d] - 1;
                    self.remaining_dependencies.set(d, left);
                    if left == 0 {
                        let ghost before = *self;
                        self.policy.on_task_ready(dependant, &self.schedule);
                        self.policy_calls = Ghost(self.policy_calls@.push(PolicyCall::Ready(dependant)));
                        proof {
                            lemma_policy_follows_call(before, *self, p0, k0, PolicyCall::Ready(dependant));
                        }
                    }
                }
            }
            j = j + 1;
        }
        proof {
            assert(dependants@.take(j as int) == dependants@);
            let nb = dependants@;
            let idx = task_id.idx;
            if old(self).ready_inv() && task_id.schedule_id == old(self).sched().sid() && !(idx < n
                && t0[idx as int].state == State::Succeeded) {
                assert forall|i: int|
                    0 <= i < n && (#[trigger] states[i]).state == State::Pending implies i < rem0.len()
                        && self.remaining()[i] == unsucceeded_dependencies(edges, states, i as usize) by {
                    let x = i as usize;
                    lemma_occurrences_reverse(neighbors_in_order(edges, idx, Dir::Outgoing), x);
                    lemma_occurrences_neighbors(edges, idx, x);
                    if count_edges(edges, idx, x) > 0 {
                        lemma_count_edges_some(edges, idx, x);
                        let kk = choose|kk: int| 0 <= kk < edges.len() && #[trigger] edges[kk].0 == idx && (edges[kk].1 == x || reaches(edges, edges[kk].1, x, 0));
                        assert(edges[kk].0 < n);
                        assert(reachable(edges, idx, x));
                    }
                    if result is Ok {
                        if idx < n {
                            assert(t0[i].state == State::Pending);
                            lemma_unsucceeded_update(edges, t0, idx, states[idx as int], x);
                        } else {
                            assert(states == t0);
                        }
                    } else {
                        assert(t0[i].state == State::Pending);
                        assert(count_edges(edges, idx, x) == 0);
                        lemma_unsucceeded_same(edges, t0, states, n);
                    }
                }
                let k0 = old(self).policy_calls().len() as int;
                let rc = ready_calls(self.sched().sid(), rem0, states, nb);
                assert(self.policy_calls() == calls2 + rc);
                assert forall|jj: int|
                    k0 <= jj < self.policy_calls().len() && (#[trigger] self.policy_calls()[jj]) is Ready implies {
                        let t = self.policy_calls()[jj]->Ready_0;
                        &&& t.schedule_id == self.sched().sid()
                        &&& t.idx < self.sched().nodes().len()
                        &&& forall|m: int|
                            0 <= m < self.sched().nodes()[t.idx as int].dependencies@.len()
                                ==> self.exec().state_of(
                                #[trigger] self.sched().nodes()[t.idx as int].dependencies@[m],
                            ) == State::Succeeded
                    } by {
                    if jj < calls2.len() {
                        if jj < calls1.len() {
                            assert(self.policy_calls()[jj] == calls1[jj]);
                        } else {
                            assert(self.policy_calls()[jj] == finished_failed(fs)[jj - calls1.len()]);
                        }
                        assert(false);
                    } else {
                        lemma_ready_calls_entries(self.sched().sid(), rem0, states, nb, jj - calls2.len());
                        assert(self.policy_calls()[jj] == rc[jj - calls2.len()]);
                        let x = rc[jj - calls2.len()]->Ready_0.idx;
                        assert(self.remaining()[x as int] == 0);
                        lemma_ready_after_dependencies(*self, x);
                    }
                }
            }
        }
        proof {
            let nb = dependants@;
            let k0 = old(self).policy_calls().len() as int;
            let rc = ready_calls(self.sched().sid(), rem0, states, nb);
            assert(dependants@.take(j as int) == nb);
            assert(self.policy_calls() == calls2 + rc);
            assert forall|jj: int|
                k0 <= jj < self.policy_calls().len() && (#[trigger] self.policy_calls()[jj]) is Ready implies {
                    let t = self.policy_calls()[jj]->Ready_0;
                    &&& t.schedule_id == self.sched().sid()
                    &&& t.idx < self.sched().nodes().len()
                    &&& t.idx < self.remaining().len()
                    &&& self.remaining()[t.idx as int] == 0
                } by {
                if jj < calls2.len() {
                    if jj < calls1.len() {
                        assert(self.policy_calls()[jj] == calls1[jj]);
                    } else {
                        assert(self.policy_calls()[jj] == finished_failed(fs)[jj - calls1.len()]);
                    }
                    assert(false);
                } else {
                    lemma_ready_calls_entries(self.sched().sid(), rem0, states, nb, jj - calls2.len());
                    assert(self.policy_calls()[jj] == rc[jj - calls2.len()]);
                }
            }
            let idx = task_id.idx;
            if old(self).counts_match() && old(self).exec().owns(task_id) && t0[idx as int].state == State::Running {
                if state == State::Succeeded {
                    assert(states == t0.update(idx as int, states[idx as int]));
                    lemma_count_state_update(t0, idx as int, states[idx as int], State::Succeeded);
                    lemma_count_state_update(t0, idx as int, states[idx as int], State::Failed);
                    lemma_count_state_below(t0, idx as int, State::Succeeded);
                } else {
                    lemma_count_after_failing(t0, states, edges, idx, n);
                }
            }
            assert forall|jj: int| k0 <= jj < self.policy_calls().len() implies !(#[trigger] self.policy_calls()[jj] is Reset) by {
                if jj < calls2.len() {
                    if jj < calls1.len() {
                        assert(self.policy_calls()[jj] == calls1[jj]);
                    } else {
                        assert(self.policy_calls()[jj] == finished_failed(fs)[jj - calls1.len()]);
                    }
                } else {
                    lemma_ready_calls_entries(self.sched().sid(), rem0, states, nb, jj - calls2.len());
                    assert(self.policy_calls()[jj] == rc[jj - calls2.len()]);
                }
            }
        }
    }

    /// The node indices of the pending tasks, in increasing order.
    fn pending_task_indices(&self) -> (r: Vec<usize>)
        requires
            self.wf(),
        ensures
            r@ == pending_indices(self.exec(), self.sched().sid(), self.sched().nodes().len()),
    {
        let indices = self.schedule.node_indices();
        let mut out: Vec<usize> = Vec::new();
        let mut k: usize = 0;
        while k < indices.len()
            invariant
                self.wf(),
                indices@.len() == self.sched().nodes().len(),
                forall|i: int| 0 <= i < indices@.len() ==> indices@[i] == i,
                k <= indices@.len(),
                out@ == pending_indices(self.exec(), self.sched().sid(), k as nat),
            decreases indices@.len() - k,
        {
            let idx = indices[k];
            if self.execution.state(TaskId::new(self.schedule_id, idx)).is_pending() {
                out.push(idx);
            }
            k = k + 1;
        }
        out
    }

    /// The error of a run that stalled: the policy produced no task and none was running.
    pub fn stalled_error(&self) -> (r: RunError)
        requires
            self.wf(),
        ensures
            r matches RunError::Stalled { unfinished_tasks, pending_task_indices } && unfinished_tasks
                == self.exec().unfinished() && pending_task_indices@ == pending_indices(
                self.exec(),
                self.sched().sid(),
                self.sched().nodes().len(),
            ),
    {
        RunError::Stalled {
            unfinished_tasks: self.execution.unfinished_count(),
            pending_task_indices: self.pending_task_indices(),
        }
    }

    /// The error of a run that reached its timeout; the timeout is zero when none was set.
    pub fn timed_out_error(&self) -> (r: RunError)
        requires
            self.wf(),
        ensures
            r matches RunError::TimedOut {
                timeout,
                unfinished_tasks,
                pending_task_indices,
                running_task_indices,
            } && (self.run_timeout() matches Some(t) ==> timeout == t) && unfinished_tasks
                == self.exec().unfinished() && pending_task_indices@ == pending_indices(
                self.exec(),
                self.sched().sid(),
                self.sched().nodes().len(),
            ) && running_task_indices@ == running_indices(self.exec(), self.started_ids()),
    {
        let mut running: Vec<usize> = Vec::new();
        let mut k: usize = 0;
        while k < self.running_task_ids.len()
            invariant
                k <= self.running_task_ids@.len(),
                running@ == running_indices(self.exec(), self.running_task_ids@.take(k as int)),
            decreases self.running_task_ids@.len() - k,
        {
            let id = self.running_task_ids[k];
            assert(self.running_task_ids@.take(k + 1).drop_last() == self.running_task_ids@.take(k as int));
            if self.execution.state(id).is_running() {
                running.push(id.idx);
            }
            k = k + 1;
        }
        assert(self.running_task_ids@.take(k as int) == self.running_task_ids@);
        let timeout = match self.timeout {
            Some(t) => t,
            None => zero_duration(),
        };
        RunError::TimedOut {
            timeout,
            unfinished_tasks: self.execution.unfinished_count(),
            pending_task_indices: self.pending_task_indices(),
            running_task_indices: running,
        }
    }

    /// Returns the execution state for changes.
    pub fn execution_mut(&mut self) -> (r: &mut Execution<V, E>)
        ensures
            *r == old(self).exec(),
            final(self).exec() == *final(r),
            final(self).sched() == old(self).sched(),
            final(self).tr() == old(self).tr(),
            final(self).pol() == old(self).pol(),
            final(self).remaining() == old(self).remaining(),
            final(self).started_ids() == old(self).started_ids(),
            final(self).succeeded_count() == old(self).succeeded_count(),
            final(self).failed_count() == old(self).failed_count(),
            final(self).asking() == old(self).asking(),
            final(self).run_timeout() == old(self).run_timeout(),
            final(self).id_matches() == old(self).id_matches(),
    {
        &mut self.execution
    }

    /// Returns the schedule, and the execution state for changes.
    pub fn schedule_and_execution_mut(&mut self) -> (r: (&Schedule<L>, &mut Execution<V, E>))
        ensures
            *r.0 == old(self).sched(),
            *r.1 == old(self).exec(),
            final(self).exec() == *final(r.1),
            final(self).sched() == old(self).sched(),
            final(self).tr() == old(self).tr(),
            final(self).pol() == old(self).pol(),
            final(self).remaining() == old(self).remaining(),
            final(self).started_ids() == old(self).started_ids(),
            final(self).succeeded_count() == old(self).succeeded_count(),
            final(self).failed_count() == old(self).failed_count(),
            final(self).asking() == old(self).asking(),
            final(self).run_timeout() == old(self).run_timeout(),
            final(self).id_matches() == old(self).id_matches(),
    {
        (&self.schedule, &mut self.execution)
    }

    /// Returns the execution trace for changes, such as sorting it.
    pub fn trace_mut(&mut self) -> (r: &mut Trace<TaskId>)
        ensures
            *r == old(self).tr(),
            final(self).tr() == *final(r),
            final(self).sched() == old(self).sched(),
            final(self).exec() == old(self).exec(),
            final(self).pol() == old(self).pol(),
            final(self).remaining() == old(self).remaining(),
            final(self).started_ids() == old(self).started_ids(),
            final(self).succeeded_count() == old(self).succeeded_count(),
            final(self).failed_count() == old(self).failed_count(),
            final(self).asking() == old(self).asking(),
            final(self).run_timeout() == old(self).run_timeout(),
            old(self).wf() ==> final(self).wf(),
    {
        &mut self.trace
    }
}

/// A task is announced ready only once every task it depends on has succeeded: while the
/// dependency counters are right, a pending task whose counter is zero has all its
/// dependencies succeeded.
pub proof fn lemma_ready_after_dependencies<P, L, V, E>(ex: PolicyExecutor<P, L, V, E>, i: usize)
    requires
        ex.wf(),
        ex.ready_inv(),
        i < ex.sched().nodes().len(),
        ex.exec().tasks()[i as int].state == State::Pending,
        ex.remaining()[i as int] == 0,
    ensures
        forall|j: int|
            0 <= j < ex.sched().nodes()[i as int].dependencies@.len() ==> ex.exec().state_of(
                #[trigger] ex.sched().nodes()[i as int].dependencies@[j],
            ) == State::Succeeded,
{
    let edges = ex.sched().edges();
    let tasks = ex.exec().tasks();
    lemma_zero_means_dependencies_succeeded(edges, tasks, i);
    assert forall|j: int|
        0 <= j < ex.sched().nodes()[i as int].dependencies@.len() implies ex.exec().state_of(
            #[trigger] ex.sched().nodes()[i as int].dependencies@[j],
        ) == State::Succeeded by {
        let d = ex.sched().nodes()[i as int].dependencies@[j];
        schedule::lemma_dep_edge_present(ex.sched().nodes(), ex.sched().sid(), i as int, j);
        let k = choose|k: int| 0 <= k < edges.len() && edges[k] == (d.idx, i);
        assert(edges[k].1 == i);
    }
}

impl<L, V, E> PolicyExecutor<Fifo, L, V, E> {
    /// Creates an executor of `schedule` with a FIFO policy without a concurrency limit.
    pub fn fifo(schedule: Schedule<L>) -> (r: Self)
        requires
            schedule.wf(),
        ensures
            r.wf(),
            r.sched() == schedule,
            r.pol().limit().is_none(),
            r.pol().queue() == Seq::<usize>::empty(),
            r.exec().wf(),
            forall|i: int| 0 <= i < schedule.nodes().len() ==> (#[trigger] r.exec().tasks()[i]).state == State::Pending,
            r.tr().tasks@.len() == 0,
            r.run_timeout().is_none(),
            !r.asking(),
    {
        Self::new(schedule, Fifo::default())
    }

    /// Sets a maximum number of concurrently running tasks.
    pub fn max_concurrent(self, limit: Option<usize>) -> (r: Self)
        ensures
            r.pol().limit() == limit,
            r.pol().queue() == self.pol().queue(),
            r.sched() == self.sched(),
            r.exec() == self.exec(),
            r.tr() == self.tr(),
            r.run_timeout() == self.run_timeout(),
            r.asking() == self.asking(),
            r.wf() == self.wf(),
    {
        let mut this = self;
        this.policy.set_max_concurrent(limit);
        this
    }
}

impl<L: Ord, V, E> PolicyExecutor<Priority, L, V, E> {
    /// Creates an executor of `schedule` with a priority policy without a concurrency limit:
    /// the label of a task is its priority.
    pub fn priority(schedule: Schedule<L>) -> (r: Self)
        requires
            schedule.wf(),
        ensures
            r.wf(),
            r.sched() == schedule,
            r.pol().limit().is_none(),
            r.pol().queue() == Seq::<usize>::empty(),
            r.exec().wf(),
            forall|i: int| 0 <= i < schedule.nodes().len() ==> (#[trigger] r.exec().tasks()[i]).state == State::Pending,
            r.tr().tasks@.len() == 0,
            r.run_timeout().is_none(),
            !r.asking(),
    {
        Self::new(schedule, Priority::default())
    }

    /// Sets a maximum number of concurrently running tasks.
    pub fn max_concurrent(self, limit: Option<usize>) -> (r: Self)
        ensures
            r.pol().limit() == limit,
            r.pol().queue() == self.pol().queue(),
            r.sched() == self.sched(),
            r.exec() == self.exec(),
            r.tr() == self.tr(),
            r.run_timeout() == self.run_timeout(),
            r.asking() == self.asking(),
            r.wf() == self.wf(),
    {
        let mut this = self;
        this.policy.set_max_concurrent(limit);
        this
    }
}

} // verus!
