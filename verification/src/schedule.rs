//! Schedules: the dependency graph of the tasks and what each task is labelled with.

use crate::dag::{
    dag_add_edge, dag_add_node, dag_contains, dag_count, dag_edges, dag_neighbors, dag_new,
    dag_node_indices,
    dag_compact, dag_node_count, has_edge, lemma_closed_set_holds_reachable, lemma_neighbors_contains,
    lemma_reaches_extend, neighbors_in_order, reachable, reaches, Dir, Handle, TaskId, DAG,
};
use crate::execution::{failed, Execution};
use crate::task::State;
use std::collections::HashSet;
use std::time::Instant;
use vstd::prelude::*;
use vstd::std_specs::convert::FromSpec;

verus! {

broadcast use vstd::std_specs::hash::group_hash_axioms;

/// A scheduling error: the reason a task fails without running.
#[derive(Debug, Clone, Copy, PartialEq, Eq, Structural)]
pub enum Error {
    /// One of the dependencies of the task failed, or its inputs were not available.
    FailedDependency,
}

/// A schedule construction error.
#[derive(Debug, Clone, Copy, PartialEq, Eq, Structural)]
pub enum BuildError {
    /// A dependency belongs to a different schedule.
    DifferentScheduleDependency,
    /// A dependency is not contained in the schedule.
    MissingDependency,
}

/// What the schedule knows of one task: its label and the tasks whose outputs it consumes.
#[derive(Debug)]
pub struct TaskNode<L> {
    /// User-provided label used by scheduling policies.
    pub label: L,
    /// The ids of the dependency tasks, in the order in which they were given.
    pub dependencies: Vec<TaskId>,
}

/// The edges that the dependencies of `nodes` make: for task `i`, one edge `(d.idx, i)` per
/// dependency `d`, tasks in order and each task's dependencies in order.
pub open spec fn dep_edges<L>(nodes: Seq<TaskNode<L>>) -> Seq<(usize, usize)>
    decreases nodes.len(),
{
    if nodes.len() == 0 {
        Seq::empty()
    } else {
        let i = (nodes.len() - 1) as usize;
        dep_edges(nodes.drop_last()) + nodes.last().dependencies@.map_values(|d: TaskId| (d.idx, i))
    }
}

/// Every dependency of task `i` is a task of schedule `sid` that was added before `i`.
pub open spec fn deps_valid<L>(nodes: Seq<TaskNode<L>>, sid: u64) -> bool {
    forall|i: int, j: int|
        0 <= i < nodes.len() && 0 <= j < nodes[i].dependencies@.len() ==> {
            let d = #[trigger] nodes[i].dependencies@[j];
            d.schedule_id == sid && d.idx < i
        }
}

/// The error that adding a task with dependencies `deps` to a schedule `sid` with `n` tasks
/// meets: the first dependency that belongs to another schedule or to no task decides it.
pub open spec fn build_error(deps: Seq<TaskId>, sid: u64, n: nat) -> Option<BuildError>
    decreases deps.len(),
{
    if deps.len() == 0 {
        None
    } else {
        match build_error(deps.drop_last(), sid, n) {
            Some(e) => Some(e),
            None => {
                let d = deps.last();
                if d.schedule_id != sid {
                    Some(BuildError::DifferentScheduleDependency)
                } else if d.idx >= n {
                    Some(BuildError::MissingDependency)
                } else {
                    None
                }
            },
        }
    }
}

/// Adding a task fails exactly when one of its dependencies is not a task of the schedule, and
/// the first such dependency decides the error: another schedule's id gives
/// `DifferentScheduleDependency`, an index without a task `MissingDependency`.
pub proof fn lemma_build_error_first_bad(deps: Seq<TaskId>, sid: u64, n: nat)
    ensures
        build_error(deps, sid, n) is None <==> forall|j: int|
            0 <= j < deps.len() ==> (#[trigger] deps[j]).schedule_id == sid && deps[j].idx < n,
        build_error(deps, sid, n) matches Some(e) ==> exists|j: int|
            0 <= j < deps.len() && !((#[trigger] deps[j]).schedule_id == sid && deps[j].idx < n) && (forall|k: int|
                0 <= k < j ==> deps[k].schedule_id == sid && deps[k].idx < n) && e == (if deps[j].schedule_id != sid {
                BuildError::DifferentScheduleDependency
            } else {
                BuildError::MissingDependency
            }),
    decreases deps.len(),
{
    if deps.len() > 0 {
        let d = deps.drop_last();
        lemma_build_error_first_bad(d, sid, n);
        assert forall|j: int| 0 <= j < d.len() implies d[j] == deps[j] by {}
        let last = deps.len() - 1;
        match build_error(d, sid, n) {
            Some(e) => {
                let j = choose|j: int|
                    0 <= j < d.len() && !((#[trigger] d[j]).schedule_id == sid && d[j].idx < n) && (forall|k: int|
                        0 <= k < j ==> d[k].schedule_id == sid && d[k].idx < n) && e == (if d[j].schedule_id != sid {
                        BuildError::DifferentScheduleDependency
                    } else {
                        BuildError::MissingDependency
                    });
                assert(deps[j] == d[j]);
            },
            None => {
                if !(deps[last].schedule_id == sid && deps[last].idx < n) {
                    assert(deps[last] == deps.last());
                } else {
                    assert forall|j: int| 0 <= j < deps.len() implies (#[trigger] deps[j]).schedule_id == sid
                        && deps[j].idx < n by {
                        if j < last {
                            assert(d[j] == deps[j]);
                        }
                    }
                }
            },
        }
    }
}

/// Task `i` of `exec` is pending and all its dependencies succeeded.
pub open spec fn is_ready<V, E, L>(exec: Execution<V, E>, sid: u64, nodes: Seq<TaskNode<L>>, i: int) -> bool {
    &&& exec.state_of(TaskId { schedule_id: sid, idx: i as usize }) == State::Pending
    &&& forall|j: int|
        0 <= j < nodes[i].dependencies@.len() ==> exec.state_of(#[trigger] nodes[i].dependencies@[j])
            == State::Succeeded
}

/// The ids of the tasks among the first `k` whose state satisfies `pick`, in index order.
pub open spec fn ids_where(sid: u64, k: nat, pick: spec_fn(int) -> bool) -> Seq<TaskId>
    decreases k,
{
    if k == 0 {
        Seq::empty()
    } else {
        let rest = ids_where(sid, (k - 1) as nat, pick);
        if pick(k - 1) {
            rest.push(TaskId { schedule_id: sid, idx: (k - 1) as usize })
        } else {
            rest
        }
    }
}

/// The listing of the tasks among the first `k` that satisfy `pick`: each listed id is an id of
/// schedule `sid` below `k` whose index satisfies `pick`, every such index is listed, and the
/// indices strictly increase.
pub proof fn lemma_ids_where_members(sid: u64, k: nat, pick: spec_fn(int) -> bool)
    requires
        k <= usize::MAX,
    ensures
        forall|j: int|
            0 <= j < ids_where(sid, k, pick).len() ==> {
                let t = #[trigger] ids_where(sid, k, pick)[j];
                &&& t.schedule_id == sid
                &&& t.idx < k
                &&& pick(t.idx as int)
            },
        forall|i: int|
            0 <= i < k && #[trigger] pick(i) ==> exists|j: int|
                0 <= j < ids_where(sid, k, pick).len() && (#[trigger] ids_where(sid, k, pick)[j]).idx == i,
        forall|a: int, b: int|
            0 <= a < b < ids_where(sid, k, pick).len() ==> ids_where(sid, k, pick)[a].idx < ids_where(
                sid,
                k,
                pick,
            )[b].idx,
    decreases k,
{
    if k > 0 {
        let k1 = (k - 1) as nat;
        lemma_ids_where_members(sid, k1, pick);
        let rest = ids_where(sid, k1, pick);
        let all = ids_where(sid, k, pick);
        assert forall|j: int| 0 <= j < rest.len() implies all[j] == rest[j] by {}
        assert forall|i: int| 0 <= i < k && #[trigger] pick(i) implies exists|j: int|
            0 <= j < all.len() && (#[trigger] all[j]).idx == i by {
            if i < k1 {
                let j = choose|j: int| 0 <= j < rest.len() && (#[trigger] rest[j]).idx == i;
                assert(all[j] == rest[j]);
            } else {
                assert(all[rest.len() as int].idx == i);
            }
        }
    }
}

/// What the ready listing of a schedule holds: the ids, in increasing index order, of exactly the
/// tasks of the schedule that are pending in `execution` and whose dependencies all are in
/// state `Succeeded`; a task with a running, pending or failed dependency is not listed.
pub proof fn lemma_ready_listing<V, E, L>(schedule: Schedule<L>, execution: Execution<V, E>, r: Seq<TaskId>)
    requires
        schedule.wf(),
        r == ids_where(
            schedule.sid(),
            schedule.nodes().len(),
            |i: int| is_ready(execution, schedule.sid(), schedule.nodes(), i),
        ),
    ensures
        forall|j: int|
            0 <= j < r.len() ==> {
                let t = #[trigger] r[j];
                &&& t.schedule_id == schedule.sid()
                &&& t.idx < schedule.nodes().len()
                &&& execution.state_of(t) == State::Pending
                &&& forall|m: int|
                    0 <= m < schedule.nodes()[t.idx as int].dependencies@.len() ==> execution.state_of(
                        #[trigger] schedule.nodes()[t.idx as int].dependencies@[m],
                    ) == State::Succeeded
            },
        forall|i: int|
            #![trigger execution.state_of(TaskId { schedule_id: schedule.sid(), idx: i as usize })]
            0 <= i < schedule.nodes().len() && execution.state_of(TaskId { schedule_id: schedule.sid(), idx: i as usize })
                == State::Pending && (forall|m: int|
                0 <= m < schedule.nodes()[i].dependencies@.len() ==> execution.state_of(
                    #[trigger] schedule.nodes()[i].dependencies@[m],
                ) == State::Succeeded) ==> exists|j: int| 0 <= j < r.len() && (#[trigger] r[j]).idx == i,
        forall|a: int, b: int| 0 <= a < b < r.len() ==> r[a].idx < r[b].idx,
{
    let pick = |i: int| is_ready(execution, schedule.sid(), schedule.nodes(), i);
    lemma_ids_where_members(schedule.sid(), schedule.nodes().len(), pick);
    assert forall|i: int|
        #![trigger execution.state_of(TaskId { schedule_id: schedule.sid(), idx: i as usize })]
        0 <= i < schedule.nodes().len() && execution.state_of(TaskId { schedule_id: schedule.sid(), idx: i as usize })
            == State::Pending && (forall|m: int|
            0 <= m < schedule.nodes()[i].dependencies@.len() ==> execution.state_of(
                #[trigger] schedule.nodes()[i].dependencies@[m],
            ) == State::Succeeded) implies exists|j: int| 0 <= j < r.len() && (#[trigger] r[j]).idx == i by {
        assert(pick(i));
    }
}

/// The error every failed dependant gets, as far as `From` is specified for `E`.
pub open spec fn dependency_error_spec<E: From<Error>>(e: E) -> bool {
    <E as FromSpec<Error>>::obeys_from_spec() ==> e == <E as FromSpec<Error>>::from_spec(
        Error::FailedDependency,
    )
}

/// `r` lists, once each, the tasks among the first `n` of schedule `sid` that are reachable
/// from `root` and pending in `tasks`.
pub open spec fn lists_failing<V, E>(
    r: Seq<TaskId>,
    sid: u64,
    edges: Seq<(usize, usize)>,
    tasks: Seq<crate::execution::TaskExecution<V, E>>,
    root: usize,
    n: nat,
) -> bool {
    &&& forall|j: int|
        0 <= j < r.len() ==> {
            let t = #[trigger] r[j];
            &&& t.schedule_id == sid
            &&& t.idx < n
            &&& reachable(edges, root, t.idx)
            &&& tasks[t.idx as int].state == State::Pending
        }
    &&& forall|b: int|
        0 <= b < n && reachable(edges, root, b as usize) && tasks[b].state == State::Pending ==> exists|j: int|
            0 <= j < r.len() && (#[trigger] r[j]).idx == b
    &&& forall|i: int, j: int| 0 <= i < j < r.len() ==> r[i].idx != r[j].idx
    &&& r.len() == failing_set(edges, tasks, root, n).len()
}

/// Which tasks fail with `root` does not depend on the state of `root` itself, since no path
/// leads from `root` back to it.
pub proof fn lemma_lists_failing_root_state<V, E>(
    r: Seq<TaskId>,
    sid: u64,
    edges: Seq<(usize, usize)>,
    mid: Seq<crate::execution::TaskExecution<V, E>>,
    t0: Seq<crate::execution::TaskExecution<V, E>>,
    root: usize,
    n: nat,
)
    requires
        lists_failing(r, sid, edges, mid, root, n),
        forall|k: int| 0 <= k < edges.len() ==> (#[trigger] edges[k]).0 < edges[k].1,
        forall|b: int| 0 <= b < n && b != root ==> (#[trigger] mid[b]).state == t0[b].state,
    ensures
        lists_failing(r, sid, edges, t0, root, n),
{
    assert forall|b: usize| reachable(edges, root, b) implies root < b by {
        let m = choose|m: nat| reaches(edges, root, b, m);
        lemma_reaches_upward(edges, root, b, m);
    }
    assert(failing_set(edges, mid, root, n) =~= failing_set(edges, t0, root, n)) by {
        assert forall|b: usize| failing_set(edges, mid, root, n).contains(b) == failing_set(edges, t0, root, n).contains(b) by {
            if b < n && reachable(edges, root, b) {
                assert(mid[b as int].state == t0[b as int].state);
            }
        }
    }
    assert forall|j: int| 0 <= j < r.len() implies {
        let t = #[trigger] r[j];
        &&& t.schedule_id == sid
        &&& t.idx < n
        &&& reachable(edges, root, t.idx)
        &&& t0[t.idx as int].state == State::Pending
    } by {
        assert(mid[r[j].idx as int].state == t0[r[j].idx as int].state);
    }
    assert forall|b: int|
        0 <= b < n && reachable(edges, root, b as usize) && t0[b].state == State::Pending implies exists|j: int|
            0 <= j < r.len() && (#[trigger] r[j]).idx == b by {
        assert(mid[b].state == t0[b].state);
    }
}

/// A task without incoming edges has no dependencies.
pub proof fn lemma_no_incoming_no_dependencies<L>(nodes: Seq<TaskNode<L>>, sid: u64, i: int)
    requires
        deps_valid(nodes, sid),
        nodes.len() <= usize::MAX,
        0 <= i < nodes.len(),
        neighbors_in_order(dep_edges(nodes), i as usize, Dir::Incoming).len() == 0,
    ensures
        nodes[i].dependencies@.len() == 0,
{
    if nodes[i].dependencies@.len() > 0 {
        lemma_dep_edge_present(nodes, sid, i, 0);
        let d = nodes[i].dependencies@[0];
        crate::dag::lemma_neighbors_contains(dep_edges(nodes), i as usize, d.idx);
        assert(neighbors_in_order(dep_edges(nodes), i as usize, Dir::Incoming).contains(d.idx));
    }
}

/// Every edge of a schedule's graph goes from an earlier task to a later one.
pub proof fn lemma_dep_edges_ordered<L>(nodes: Seq<TaskNode<L>>, sid: u64)
    requires
        deps_valid(nodes, sid),
        nodes.len() <= usize::MAX,
    ensures
        forall|k: int|
            0 <= k < dep_edges(nodes).len() ==> (#[trigger] dep_edges(nodes)[k]).0 < dep_edges(nodes)[k].1
                && dep_edges(nodes)[k].1 < nodes.len(),
    decreases nodes.len(),
{
    if nodes.len() > 0 {
        let rest = nodes.drop_last();
        assert(deps_valid(rest, sid)) by {
            assert forall|i: int, j: int|
                0 <= i < rest.len() && 0 <= j < rest[i].dependencies@.len() implies {
                    let d = #[trigger] rest[i].dependencies@[j];
                    d.schedule_id == sid && d.idx < i
                } by {
                assert(rest[i] == nodes[i]);
            }
        }
        lemma_dep_edges_ordered(rest, sid);
        let i = (nodes.len() - 1) as usize;
        let tail = nodes.last().dependencies@.map_values(|d: TaskId| (d.idx, i));
        assert(dep_edges(nodes) == dep_edges(rest) + tail);
        assert(nodes.last() == nodes[nodes.len() - 1]);
        assert forall|k: int| 0 <= k < dep_edges(nodes).len() implies (#[trigger] dep_edges(nodes)[k]).0
            < dep_edges(nodes)[k].1 && dep_edges(nodes)[k].1 < nodes.len() by {
            if k >= dep_edges(rest).len() {
                let j = k - dep_edges(rest).len();
                assert(tail[j] == dep_edges(nodes)[k]);
                assert(nodes[nodes.len() - 1].dependencies@[j].idx < nodes.len() - 1);
            } else {
                assert(dep_edges(rest)[k] == dep_edges(nodes)[k]);
            }
        }
    }
}

/// Each dependency `d` of task `i` makes an edge `(d.idx, i)`, and belongs to the schedule.
pub proof fn lemma_dep_edge_present<L>(nodes: Seq<TaskNode<L>>, sid: u64, i: int, j: int)
    requires
        deps_valid(nodes, sid),
        nodes.len() <= usize::MAX,
        0 <= i < nodes.len(),
        0 <= j < nodes[i].dependencies@.len(),
    ensures
        nodes[i].dependencies@[j].schedule_id == sid,
        nodes[i].dependencies@[j].idx < nodes.len(),
        has_edge(dep_edges(nodes), nodes[i].dependencies@[j].idx, i as usize),
    decreases nodes.len(),
{
    let rest = nodes.drop_last();
    let last = (nodes.len() - 1) as usize;
    let tail = nodes.last().dependencies@.map_values(|d: TaskId| (d.idx, last));
    assert(dep_edges(nodes) == dep_edges(rest) + tail);
    let d = nodes[i].dependencies@[j];
    if i == nodes.len() - 1 {
        assert(tail[j] == (d.idx, i as usize));
        assert(dep_edges(nodes)[dep_edges(rest).len() + j] == (d.idx, i as usize));
    } else {
        assert(rest[i] == nodes[i]);
        assert(deps_valid(rest, sid)) by {
            assert forall|a: int, b: int|
                0 <= a < rest.len() && 0 <= b < rest[a].dependencies@.len() implies {
                    let dd = #[trigger] rest[a].dependencies@[b];
                    dd.schedule_id == sid && dd.idx < a
                } by {
                assert(rest[a] == nodes[a]);
            }
        }
        lemma_dep_edge_present(rest, sid, i, j);
        let k = choose|k: int| 0 <= k < dep_edges(rest).len() && dep_edges(rest)[k] == (d.idx, i as usize);
        assert(dep_edges(nodes)[k] == (d.idx, i as usize));
    }
}

/// In a graph whose edges all go from smaller to larger nodes, paths go upwards.
pub proof fn lemma_reaches_upward(edges: Seq<(usize, usize)>, a: usize, b: usize, n: nat)
    requires
        forall|k: int| 0 <= k < edges.len() ==> (#[trigger] edges[k]).0 < edges[k].1,
        reaches(edges, a, b, n),
    ensures
        a < b,
    decreases n,
{
    let k = choose|k: int|
        0 <= k < edges.len() && #[trigger] edges[k].0 == a && (edges[k].1 == b || reaches(
            edges,
            edges[k].1,
            b,
            (n - 1) as nat,
        ));
    assert(edges[k].0 < edges[k].1);
    if edges[k].1 != b {
        lemma_reaches_upward(edges, edges[k].1, b, (n - 1) as nat);
    }
}

/// A schedule's dependency graph is acyclic: no task can be reached from itself along its
/// dependency edges, so no task ever waits, directly or through others, on its own output.
pub proof fn lemma_schedule_acyclic<L>(schedule: Schedule<L>, a: usize)
    requires
        schedule.wf(),
    ensures
        !reachable(schedule.edges(), a, a),
{
    lemma_dep_edges_ordered(schedule.nodes(), schedule.sid());
    if reachable(schedule.edges(), a, a) {
        let n = choose|n: nat| reaches(schedule.edges(), a, a, n);
        lemma_reaches_upward(schedule.edges(), a, a, n);
    }
}

proof fn lemma_build_error_prefix(deps: Seq<TaskId>, sid: u64, n: nat, i: int)
    requires
        0 <= i < deps.len(),
        build_error(deps.take(i), sid, n).is_none(),
    ensures
        build_error(deps.take(i + 1), sid, n) == (if deps[i].schedule_id != sid {
            Some(BuildError::DifferentScheduleDependency)
        } else if deps[i].idx >= n {
            Some(BuildError::MissingDependency)
        } else {
            None
        }),
{
    assert(deps.take(i + 1).drop_last() == deps.take(i));
}

proof fn lemma_build_error_extends(deps: Seq<TaskId>, sid: u64, n: nat, i: int)
    requires
        0 <= i <= deps.len(),
        build_error(deps.take(i), sid, n).is_some(),
    ensures
        build_error(deps, sid, n) == build_error(deps.take(i), sid, n),
    decreases deps.len() - i,
{
    if i < deps.len() {
        assert(deps.take(i + 1).drop_last() == deps.take(i));
        lemma_build_error_extends(deps, sid, n, i + 1);
    } else {
        assert(deps.take(i) == deps);
    }
}

proof fn lemma_build_error_valid(deps: Seq<TaskId>, sid: u64, n: nat, j: int)
    requires
        0 <= j < deps.len(),
        build_error(deps, sid, n).is_none(),
    ensures
        deps[j].schedule_id == sid,
        deps[j].idx < n,
    decreases deps.len(),
{
    if j < deps.len() - 1 {
        lemma_build_error_valid(deps.drop_last(), sid, n, j);
    }
}

/// The tasks among the first `n` that are reachable from `root` and pending in `tasks`.
pub open spec fn failing_set<V, E>(
    edges: Seq<(usize, usize)>,
    tasks: Seq<crate::execution::TaskExecution<V, E>>,
    root: usize,
    n: nat,
) -> Set<usize> {
    Set::new(|b: usize| b < n && reachable(edges, root, b) && tasks[b as int].state == State::Pending)
}

/// A task schedule based on a DAG of task nodes.
#[derive(Debug)]
pub struct Schedule<L> {
    schedule_id: u64,
    dag: DAG,
    nodes: Vec<TaskNode<L>>,
}

impl<L> Schedule<L> {
    /// The id of this schedule.
    pub closed spec fn sid(&self) -> u64 {
        self.schedule_id
    }

    /// The tasks of this schedule, indexed by node index.
    pub closed spec fn nodes(&self) -> Seq<TaskNode<L>> {
        self.nodes@
    }

    /// The number of nodes of the dependency graph.
    pub closed spec fn count(&self) -> nat {
        dag_node_count(self.dag)
    }

    /// The edges of the dependency graph, in the order in which they were added.
    pub closed spec fn edges(&self) -> Seq<(usize, usize)> {
        dag_edges(self.dag)
    }

    /// Nothing was ever removed from the dependency graph.
    pub closed spec fn compact(&self) -> bool {
        dag_compact(self.dag)
    }

    /// The graph has no vacant slot, one node per task and exactly the edges of the tasks'
    /// dependencies, each of which is an earlier task of this schedule.
    pub open spec fn wf(&self) -> bool {
        &&& self.compact()
        &&& self.count() == self.nodes().len()
        &&& self.nodes().len() < usize::MAX
        &&& self.edges() == dep_edges(self.nodes())
        &&& deps_valid(self.nodes(), self.sid())
    }

    /// Creates an empty schedule with the given id.
    pub fn new(schedule_id: u64) -> (r: Self)
        ensures
            r.sid() == schedule_id,
            r.nodes().len() == 0,
            r.wf(),
    {
        Schedule { schedule_id, dag: dag_new(), nodes: Vec::new() }
    }

    /// Returns the id of this schedule.
    pub fn schedule_id(&self) -> (r: u64)
        ensures
            r == self.sid(),
    {
        self.schedule_id
    }

    /// Returns the number of tasks in the schedule.
    pub fn node_count(&self) -> (r: usize)
        requires
            self.wf(),
        ensures
            r == self.nodes().len(),
    {
        dag_count(&self.dag)
    }

    /// Whether the schedule has a task with node index `idx`.
    pub fn contains_task(&self, idx: usize) -> (r: bool)
        ensures
            r == (idx < self.nodes().len()),
    {
        idx < self.nodes.len()
    }

    /// The neighbors of task `idx` in the dependency graph, most recently added edge first:
    /// its dependants for `Dir::Outgoing`, its dependencies for `Dir::Incoming`, one entry
    /// per edge.
    pub fn neighbors(&self, idx: usize, dir: Dir) -> (r: Vec<usize>)
        requires
            self.wf(),
        ensures
            r@ == neighbors_in_order(self.edges(), idx, dir).reverse(),
    {
        dag_neighbors(&self.dag, idx, dir)
    }

    /// The node indices of the tasks, in increasing order.
    pub fn node_indices(&self) -> (r: Vec<usize>)
        requires
            self.wf(),
        ensures
            r@.len() == self.nodes().len(),
            forall|i: int| 0 <= i < r@.len() ==> r@[i] == i,
    {
        dag_node_indices(&self.dag)
    }

    /// Returns the id of the task with the given node index in this schedule.
    pub fn task_id(&self, idx: usize) -> (r: TaskId)
        ensures
            r == (TaskId { schedule_id: self.sid(), idx }),
    {
        TaskId::new(self.schedule_id, idx)
    }

    /// Returns the label of a task.
    pub fn task_label(&self, task_id: TaskId) -> (r: &L)
        requires
            task_id.idx < self.nodes().len(),
        ensures
            *r == self.nodes()[task_id.idx as int].label,
    {
        &self.nodes[task_id.idx].label
    }

    /// Returns the ids of the tasks a task depends on.
    pub fn task_dependencies(&self, task_id: TaskId) -> (r: &Vec<TaskId>)
        requires
            task_id.idx < self.nodes().len(),
        ensures
            *r == self.nodes()[task_id.idx as int].dependencies,
    {
        &self.nodes[task_id.idx].dependencies
    }

    /// Returns the current state of a task in `execution`.
    pub fn task_state<V, E>(&self, execution: &Execution<V, E>, task_id: TaskId) -> (r: State)
        requires
            task_id.idx < self.nodes().len(),
        ensures
            r == execution.state_of(TaskId { schedule_id: self.sid(), idx: task_id.idx }),
    {
        execution.state(TaskId::new(self.schedule_id, task_id.idx))
    }

    /// Adds a task to the schedule.
    ///
    /// The dependencies must be tasks of this schedule that were added before; the first one
    /// that is not decides the error, and the schedule is then left unchanged. Otherwise the
    /// task gets the next node index and one edge from each dependency, in order.
    pub fn add_node<O>(&mut self, dependencies: Vec<TaskId>, label: L) -> (r: Result<Handle<O>, BuildError>)
        requires
            old(self).wf(),
            old(self).nodes().len() < usize::MAX - 1,
            old(self).edges().len() + dependencies@.len() < usize::MAX - 1,
        ensures
            final(self).wf(),
            final(self).sid() == old(self).sid(),
            match build_error(dependencies@, old(self).sid(), old(self).nodes().len()) {
                Some(e) => r == Err::<Handle<O>, BuildError>(e) && final(self).nodes() == old(self).nodes()
                    && final(self).edges() == old(self).edges(),
                None => {
                    &&& r is Ok
                    &&& r->Ok_0.task_id == (TaskId {
                        schedule_id: old(self).sid(),
                        idx: old(self).nodes().len() as usize,
                    })
                    &&& final(self).nodes() == old(self).nodes().push(TaskNode { label, dependencies })
                    &&& final(self).edges() == old(self).edges() + dependencies@.map_values(
                        |d: TaskId| (d.idx, old(self).nodes().len() as usize),
                    )
                },
            },
    {
        let ghost deps = dependencies@;
        let ghost n = self.nodes@.len();
        let mut i: usize = 0;
        while i < dependencies.len()
            invariant
                i <= dependencies@.len(),
                deps == dependencies@,
                self.wf(),
                n == self.nodes().len(),
                build_error(deps.take(i as int), self.sid(), n).is_none(),
            decreases dependencies@.len() - i,
        {
            proof {
                lemma_build_error_prefix(deps, self.sid(), n, i as int);
            }
            let d = dependencies[i];
            if d.schedule_id != self.schedule_id {
                proof {
                    lemma_build_error_extends(deps, self.sid(), n, i + 1);
                }
                return Err(BuildError::DifferentScheduleDependency);
            }
            if !dag_contains(&self.dag, d.idx) {
                proof {
                    lemma_build_error_extends(deps, self.sid(), n, i + 1);
                }
                return Err(BuildError::MissingDependency);
            }
            i = i + 1;
        }
        assert(deps.take(i as int) == deps);
        let ghost old_edges = self.edges();
        let ghost old_nodes = self.nodes();
        let node_index = dag_add_node(&mut self.dag);
        let mut j: usize = 0;
        while j < dependencies.len()
            invariant
                j <= dependencies@.len(),
                deps == dependencies@,
                node_index == n,
                self.sid() == old(self).sid(),
                dag_compact(self.dag),
                dag_node_count(self.dag) == n + 1,
                self.nodes() == old_nodes,
                build_error(deps, self.sid(), n).is_none(),
                old_edges.len() + deps.len() < usize::MAX - 1,
                self.edges() == old_edges + deps.take(j as int).map_values(|d: TaskId| (d.idx, node_index)),
            decreases dependencies@.len() - j,
        {
            proof {
                lemma_build_error_valid(deps, self.sid(), n, j as int);
            }
            dag_add_edge(&mut self.dag, dependencies[j].idx, node_index);
            assert(deps.take(j + 1).map_values(|d: TaskId| (d.idx, node_index)) == deps.take(j as int).map_values(
                |d: TaskId| (d.idx, node_index),
            ).push((deps[j as int].idx, node_index)));
            j = j + 1;
        }
        assert(deps.take(j as int) == deps);
        let ghost new_node = TaskNode { label, dependencies };
        self.nodes.push(TaskNode { label, dependencies });
        proof {
            assert(self.nodes().drop_last() == old_nodes);
            assert(self.nodes()[n as int].dependencies@ == deps);
            assert forall|a: int, b: int|
                0 <= a < self.nodes().len() && 0 <= b < self.nodes()[a].dependencies@.len() implies {
                    let d = #[trigger] self.nodes()[a].dependencies@[b];
                    d.schedule_id == self.sid() && d.idx < a
                } by {
                if a < old_nodes.len() {
                    assert(self.nodes()[a] == old_nodes[a]);
                } else {
                    lemma_build_error_valid(deps, self.sid(), n, b);
                }
            }
        }
        Ok(Handle::new(TaskId::new(self.schedule_id, node_index)))
    }

    /// Adds a task without dependencies, such as an input value, to the schedule. It cannot
    /// fail: a task without dependencies has no dependency to refuse.
    pub fn add_input<O>(&mut self, label: L) -> (r: Handle<O>)
        requires
            old(self).wf(),
            old(self).nodes().len() < usize::MAX - 1,
            old(self).edges().len() < usize::MAX - 1,
        ensures
            final(self).wf(),
            final(self).sid() == old(self).sid(),
            r.task_id == (TaskId { schedule_id: old(self).sid(), idx: old(self).nodes().len() as usize }),
            final(self).nodes().len() == old(self).nodes().len() + 1,
            final(self).nodes().drop_last() == old(self).nodes(),
            final(self).nodes().last().label == label,
            final(self).nodes().last().dependencies@ == Seq::<TaskId>::empty(),
            final(self).edges() == old(self).edges(),
    {
        let deps: Vec<TaskId> = Vec::new();
        assert(build_error(deps@, self.sid(), self.nodes().len()) is None);
        let ghost n = self.nodes().len() as usize;
        assert(deps@.map_values(|d: TaskId| (d.idx, n)) =~= Seq::empty());
        let r = self.add_node(deps, label);
        assert(self.edges() =~= old(self).edges());
        r.unwrap()
    }

    /// Marks as failed every pending task that depends, directly or through other tasks, on
    /// `root`, and returns their ids.
    ///
    /// The walk goes along the dependants of each task; each task is looked at once, and only
    /// the ones still pending are failed, with the error `E::from(Error::FailedDependency)` and
    /// `now` as their completion time.
    pub fn fail_dependants<V, E: From<Error>>(
        &self,
        execution: &mut Execution<V, E>,
        root: TaskId,
        now: Instant,
    ) -> (r: Vec<TaskId>)
        requires
            self.wf(),
            old(execution).sid() == self.sid(),
            old(execution).tasks().len() == self.nodes().len(),
        ensures
            final(execution).sid() == old(execution).sid(),
            final(execution).timeouts() == old(execution).timeouts(),
            final(execution).tasks().len() == old(execution).tasks().len(),
            forall|b: int|
                0 <= b < self.nodes().len() ==> {
                    let t = old(execution).tasks()[b];
                    let u = #[trigger] final(execution).tasks()[b];
                    if reachable(self.edges(), root.idx, b as usize) && t.state == State::Pending {
                        &&& u.error is Some
                        &&& u == failed(t, now, u.error->0)
                        &&& dependency_error_spec(u.error->0)
                    } else {
                        u == t
                    }
                },
            lists_failing(r@, self.sid(), self.edges(), old(execution).tasks(), root.idx, self.nodes().len()),
            old(execution).wf() ==> final(execution).wf(),
    {
        let ghost edges = self.edges();
        let ghost orig = execution.tasks();
        let ghost n = self.nodes@.len();
        let ghost rt = root.idx;
        let ghost bound = Set::<usize>::range(0, n as usize).insert(rt);
        proof {
            lemma_dep_edges_ordered(self.nodes(), self.sid());
            vstd::set_lib::range_set_properties::<usize>(0, n as usize);
        }
        let mut queue: Vec<TaskId> = Vec::new();
        queue.push(root);
        let mut processed: HashSet<usize> = HashSet::new();
        processed.insert(root.idx);
        let mut failed_ids: Vec<TaskId> = Vec::new();
        assert(queue@[0].idx == rt);
        while queue.len() > 0
            invariant
                self.wf(),
                edges == self.edges(),
                n == self.nodes().len(),
                rt == root.idx,
                bound == Set::<usize>::range(0, n as usize).insert(rt),
                bound.finite(),
                bound.len() <= n + 1,
                forall|k: int|
                    0 <= k < edges.len() ==> (#[trigger] edges[k]).0 < edges[k].1 && edges[k].1 < n,
                execution.sid() == self.sid(),
                execution.timeouts() == old(execution).timeouts(),
                orig == old(execution).tasks(),
                execution.tasks().len() == n,
                old(execution).wf() ==> execution.wf(),
                processed@.contains(rt),
                processed@.subset_of(bound),
                forall|x: usize|
                    #[trigger] processed@.contains(x) && x != rt ==> x < n && reachable(edges, rt, x),
                forall|i: int| 0 <= i < queue@.len() ==> processed@.contains((#[trigger] queue@[i]).idx),
                forall|i: int, j: int| 0 <= i < j < queue@.len() ==> queue@[i].idx != queue@[j].idx,
                forall|x: usize|
                    #[trigger] processed@.contains(x) ==> (exists|i: int|
                        0 <= i < queue@.len() && (#[trigger] queue@[i]).idx == x) || (forall|k: int|
                        0 <= k < edges.len() && (#[trigger] edges[k]).0 == x ==> processed@.contains(
                            edges[k].1,
                        )),
                forall|b: int|
                    0 <= b < n ==> {
                        let t = orig[b];
                        let u = #[trigger] execution.tasks()[b];
                        if processed@.contains(b as usize) && b != rt && t.state == State::Pending {
                            &&& u.error is Some
                            &&& u == failed(t, now, u.error->0)
                            &&& dependency_error_spec(u.error->0)
                        } else {
                            u == t
                        }
                    },
                forall|j: int|
                    0 <= j < failed_ids@.len() ==> {
                        let t = #[trigger] failed_ids@[j];
                        &&& t.schedule_id == self.sid()
                        &&& t.idx < n
                        &&& t.idx != rt
                        &&& processed@.contains(t.idx)
                        &&& orig[t.idx as int].state == State::Pending
                    },
                forall|b: usize|
                    #[trigger] processed@.contains(b) && b != rt && b < n && orig[b as int].state
                        == State::Pending ==> exists|j: int|
                        0 <= j < failed_ids@.len() && (#[trigger] failed_ids@[j]).idx == b,
                forall|i: int, j: int|
                    0 <= i < j < failed_ids@.len() ==> failed_ids@[i].idx != failed_ids@[j].idx,
            decreases n + 1 - processed@.len(), queue@.len(),
        {
            proof {
                vstd::set_lib::lemma_len_subset(processed@, bound);
            }
            let ghost queue_before = queue@;
            let ghost processed_before = processed@;
            let cur = queue.pop().unwrap();
            assert(queue_before == queue@.push(cur));
            let neighbors = dag_neighbors(&self.dag, cur.idx, Dir::Outgoing);
            let ghost out = neighbors_in_order(edges, cur.idx, Dir::Outgoing);
            let mut j: usize = 0;
            while j < neighbors.len()
                invariant
                    self.wf(),
                    edges == self.edges(),
                    n == self.nodes().len(),
                    rt == root.idx,
                    bound == Set::<usize>::range(0, n as usize).insert(rt),
                    bound.finite(),
                    bound.len() <= n + 1,
                    forall|k: int|
                        0 <= k < edges.len() ==> (#[trigger] edges[k]).0 < edges[k].1 && edges[k].1 < n,
                    neighbors@ == out.reverse(),
                    out == neighbors_in_order(edges, cur.idx, Dir::Outgoing),
                    j <= neighbors@.len(),
                    processed@.contains(cur.idx),
                    cur.idx == rt || reachable(edges, rt, cur.idx),
                    forall|i: int| 0 <= i < queue@.len() ==> (#[trigger] queue@[i]).idx != cur.idx,
                    processed_before.subset_of(processed@),
                    processed_before.len() + queue@.len() + 1 <= processed@.len() + queue_before.len(),
                    processed@ == processed_before || processed@.len() > processed_before.len(),
                    execution.sid() == self.sid(),
                    execution.timeouts() == old(execution).timeouts(),
                    orig == old(execution).tasks(),
                    execution.tasks().len() == n,
                    old(execution).wf() ==> execution.wf(),
                    processed@.contains(rt),
                    processed@.subset_of(bound),
                    forall|jj: int| 0 <= jj < j ==> processed@.contains(#[trigger] neighbors@[jj]),
                    forall|x: usize|
                        #[trigger] processed@.contains(x) && x != rt ==> x < n && reachable(edges, rt, x),
                    forall|i: int| 0 <= i < queue@.len() ==> processed@.contains((#[trigger] queue@[i]).idx),
                    forall|i: int, j2: int| 0 <= i < j2 < queue@.len() ==> queue@[i].idx != queue@[j2].idx,
                    forall|x: usize|
                        #[trigger] processed@.contains(x) ==> x == cur.idx || (exists|i: int|
                            0 <= i < queue@.len() && (#[trigger] queue@[i]).idx == x) || (forall|k: int|
                            0 <= k < edges.len() && (#[trigger] edges[k]).0 == x ==> processed@.contains(
                                edges[k].1,
                            )),
                    forall|b: int|
                        0 <= b < n ==> {
                            let t = orig[b];
                            let u = #[trigger] execution.tasks()[b];
                            if processed@.contains(b as usize) && b != rt && t.state == State::Pending {
                                &&& u.error is Some
                                &&& u == failed(t, now, u.error->0)
                                &&& dependency_error_spec(u.error->0)
                            } else {
                                u == t
                            }
                        },
                    forall|jf: int|
                        0 <= jf < failed_ids@.len() ==> {
                            let t = #[trigger] failed_ids@[jf];
                            &&& t.schedule_id == self.sid()
                            &&& t.idx < n
                            &&& t.idx != rt
                            &&& processed@.contains(t.idx)
                            &&& orig[t.idx as int].state == State::Pending
                        },
                    forall|b: usize|
                        #[trigger] processed@.contains(b) && b != rt && b < n && orig[b as int].state
                            == State::Pending ==> exists|jf: int|
                            0 <= jf < failed_ids@.len() && (#[trigger] failed_ids@[jf]).idx == b,
                    forall|i: int, j2: int|
                        0 <= i < j2 < failed_ids@.len() ==> failed_ids@[i].idx != failed_ids@[j2].idx,
                decreases neighbors@.len() - j,
            {
                let d = neighbors[j];
                proof {
                    lemma_neighbors_contains(edges, cur.idx, d);
                    assert(out.contains(d)) by {
                        assert(out[out.len() - 1 - j] == d);
                    }
                }
                let dependant = TaskId::new(self.schedule_id, d);
                let ghost p0 = processed@;
                let ghost q0 = queue@;
                let ghost f0 = failed_ids@;
                let newly = processed.insert(d);
                if newly {
                    proof {
                        let k = choose|k: int| 0 <= k < edges.len() && edges[k] == (cur.idx, d);
                        assert(edges[k].0 == cur.idx);
                        if cur.idx == rt {
                            assert(reaches(edges, rt, d, 1));
                        } else {
                            let m = choose|m: nat| reaches(edges, rt, cur.idx, m);
                            lemma_reaches_extend(edges, rt, cur.idx, d, m);
                        }
                        assert(d < n);
                        vstd::set_lib::lemma_len_subset(processed@, bound);
                    }
                    let ghost before_exec = execution.tasks();
                    if execution.state(dependant).is_pending() {
                        let err = E::from(Error::FailedDependency);
                        execution.mark_failed(dependant, now, err);
                        failed_ids.push(dependant);
                        proof {
                            assert forall|b: usize|
                                #[trigger] processed@.contains(b) && b != rt && b < n && orig[b as int].state
                                    == State::Pending implies exists|jf: int|
                                    0 <= jf < failed_ids@.len() && (#[trigger] failed_ids@[jf]).idx == b by {
                                if b == d {
                                    assert(failed_ids@[failed_ids@.len() - 1].idx == b);
                                } else {
                                    assert(p0.contains(b));
                                    let jf = choose|jf: int| 0 <= jf < f0.len() && (#[trigger] f0[jf]).idx == b;
                                    assert(failed_ids@[jf] == f0[jf]);
                                }
                            }
                        }
                    } else {
                        proof {
                            assert forall|b: usize|
                                #[trigger] processed@.contains(b) && b != rt && b < n && orig[b as int].state
                                    == State::Pending implies exists|jf: int|
                                    0 <= jf < failed_ids@.len() && (#[trigger] failed_ids@[jf]).idx == b by {
                                if b == d {
                                    assert(before_exec[d as int] == orig[d as int]);
                                } else {
                                    assert(p0.contains(b));
                                }
                            }
                        }
                    }
                    queue.push(dependant);
                    proof {
                        assert forall|x: usize|
                            #[trigger] processed@.contains(x) implies x == cur.idx || (exists|i: int|
                                0 <= i < queue@.len() && (#[trigger] queue@[i]).idx == x) || (forall|k: int|
                                0 <= k < edges.len() && (#[trigger] edges[k]).0 == x ==> processed@.contains(
                                    edges[k].1,
                                )) by {
                            if x == d {
                                assert(queue@[queue@.len() - 1].idx == x);
                            } else {
                                assert(p0.contains(x));
                                if exists|i: int| 0 <= i < q0.len() && (#[trigger] q0[i]).idx == x {
                                    let i = choose|i: int| 0 <= i < q0.len() && (#[trigger] q0[i]).idx == x;
                                    assert(queue@[i] == q0[i]);
                                }
                            }
                        }
                    }
                } else {
                    proof {
                        assert(p0 == processed@);
                    }
                }
                j = j + 1;
            }
            proof {
                assert forall|k: int| 0 <= k < edges.len() && (#[trigger] edges[k]).0 == cur.idx implies processed@.contains(
                    edges[k].1,
                ) by {
                    let y = edges[k].1;
                    lemma_neighbors_contains(edges, cur.idx, y);
                    assert(has_edge(edges, cur.idx, y));
                    let i = choose|i: int| 0 <= i < out.len() && out[i] == y;
                    assert(neighbors@[out.len() - 1 - i] == y);
                }
                vstd::set_lib::lemma_len_subset(processed@, bound);
            }
        }
        proof {
            assert forall|bb: usize|
                bb < n implies (#[trigger] processed@.contains(bb) && bb != rt) == reachable(edges, rt, bb) by {
                if reachable(edges, rt, bb) {
                    let m = choose|m: nat| reaches(edges, rt, bb, m);
                    lemma_closed_set_holds_reachable(edges, processed@, rt, bb, m);
                    lemma_reaches_upward(edges, rt, bb, m);
                }
            }
            assert forall|b: int|
                0 <= b < n && reachable(edges, rt, b as usize) && orig[b].state == State::Pending implies exists|j: int|
                    0 <= j < failed_ids@.len() && (#[trigger] failed_ids@[j]).idx == b by {
                let bb = b as usize;
                assert(processed@.contains(bb));
                assert(bb != rt) by {
                    let m = choose|m: nat| reaches(edges, rt, bb, m);
                    lemma_reaches_upward(edges, rt, bb, m);
                }
            }
            assert forall|j: int| 0 <= j < failed_ids@.len() implies reachable(edges, rt, (#[trigger] failed_ids@[j]).idx) by {
                let t = failed_ids@[j];
                assert(processed@.contains(t.idx));
            }
            let ids = failed_ids@.map_values(|t: TaskId| t.idx);
            assert(ids.no_duplicates()) by {
                assert forall|i: int, j: int| 0 <= i < ids.len() && 0 <= j < ids.len() && i != j implies ids[i] != ids[j] by {
                    if i < j {
                        assert(failed_ids@[i].idx != failed_ids@[j].idx);
                    } else {
                        assert(failed_ids@[j].idx != failed_ids@[i].idx);
                    }
                }
            }
            ids.unique_seq_to_set();
            let fs = failing_set(edges, orig, rt, n);
            assert(ids.to_set() =~= fs) by {
                assert forall|b: usize| ids.to_set().contains(b) implies fs.contains(b) by {
                    let j = choose|j: int| 0 <= j < ids.len() && ids[j] == b;
                    assert(failed_ids@[j].idx == b);
                }
                assert forall|b: usize| fs.contains(b) implies ids.to_set().contains(b) by {
                    let bi = b as int;
                    assert(0 <= bi < n && reachable(edges, rt, bi as usize) && orig[bi].state == State::Pending);
                    let j = choose|j: int| 0 <= j < failed_ids@.len() && (#[trigger] failed_ids@[j]).idx == bi;
                    assert(ids[j] == b);
                }
            }
        }
        failed_ids
    }

    /// Whether task `idx` is pending and all its dependencies succeeded.
    fn is_ready_at<V, E>(&self, execution: &Execution<V, E>, idx: usize) -> (r: bool)
        requires
            idx < self.nodes().len(),
        ensures
            r == is_ready(*execution, self.sid(), self.nodes(), idx as int),
            r == (execution.state_of(TaskId { schedule_id: self.sid(), idx }) == State::Pending && forall|m: int|
                0 <= m < self.nodes()[idx as int].dependencies@.len() ==> execution.state_of(
                    #[trigger] self.nodes()[idx as int].dependencies@[m],
                ) == State::Succeeded),
    {
        if !execution.state(TaskId::new(self.schedule_id, idx)).is_pending() {
            return false;
        }
        let deps = &self.nodes[idx].dependencies;
        let mut j: usize = 0;
        while j < deps.len()
            invariant
                j <= deps@.len(),
                *deps == self.nodes()[idx as int].dependencies,
                forall|jj: int| 0 <= jj < j ==> execution.state_of(#[trigger] deps@[jj]) == State::Succeeded,
            decreases deps@.len() - j,
        {
            if !execution.state(deps[j]).did_succeed() {
                return false;
            }
            j = j + 1;
        }
        true
    }

    /// The ready tasks of the schedule, in index order: the tasks that are pending and whose
    /// dependencies all succeeded, so that all their inputs are available.
    pub fn ready<V, E>(&self, execution: &Execution<V, E>) -> (r: Vec<TaskId>)
        requires
            self.wf(),
        ensures
            r@ == ids_where(
                self.sid(),
                self.nodes().len(),
                |i: int| is_ready(*execution, self.sid(), self.nodes(), i),
            ),
            forall|j: int|
                0 <= j < r@.len() ==> {
                    let t = #[trigger] r@[j];
                    &&& t.schedule_id == self.sid()
                    &&& t.idx < self.nodes().len()
                    &&& execution.state_of(t) == State::Pending
                    &&& forall|m: int|
                        0 <= m < self.nodes()[t.idx as int].dependencies@.len() ==> execution.state_of(
                            #[trigger] self.nodes()[t.idx as int].dependencies@[m],
                        ) == State::Succeeded
                },
            forall|i: int|
                #![trigger execution.state_of(TaskId { schedule_id: self.sid(), idx: i as usize })]
                0 <= i < self.nodes().len() && execution.state_of(TaskId { schedule_id: self.sid(), idx: i as usize })
                    == State::Pending && (forall|m: int|
                    0 <= m < self.nodes()[i].dependencies@.len() ==> execution.state_of(
                        #[trigger] self.nodes()[i].dependencies@[m],
                    ) == State::Succeeded) ==> exists|j: int| 0 <= j < r@.len() && (#[trigger] r@[j]).idx == i,
            forall|a: int, b: int| 0 <= a < b < r@.len() ==> r@[a].idx < r@[b].idx,
    {
        let ghost pick = |i: int| is_ready(*execution, self.sid(), self.nodes(), i);
        let indices = dag_node_indices(&self.dag);
        let mut out: Vec<TaskId> = Vec::new();
        let mut k: usize = 0;
        while k < indices.len()
            invariant
                self.wf(),
                indices@.len() == self.nodes().len(),
                forall|i: int| 0 <= i < indices@.len() ==> indices@[i] == i,
                k <= indices@.len(),
                pick == (|i: int| is_ready(*execution, self.sid(), self.nodes(), i)),
                out@ == ids_where(self.sid(), k as nat, pick),
            decreases indices@.len() - k,
        {
            let i = indices[k];
            if self.is_ready_at(execution, i) {
                out.push(TaskId::new(self.schedule_id, i));
            }
            k = k + 1;
        }
        proof {
            lemma_ready_listing(*self, *execution, out@);
        }
        out
    }

    /// The running tasks of the schedule, in index order.
    pub fn running<V, E>(&self, execution: &Execution<V, E>) -> (r: Vec<TaskId>)
        requires
            self.wf(),
        ensures
            r@ == ids_where(
                self.sid(),
                self.nodes().len(),
                |i: int| execution.state_of(TaskId { schedule_id: self.sid(), idx: i as usize }) == State::Running,
            ),
    {
        let ghost pick = |i: int| execution.state_of(TaskId { schedule_id: self.sid(), idx: i as usize }) == State::Running;
        let indices = dag_node_indices(&self.dag);
        let mut out: Vec<TaskId> = Vec::new();
        let mut k: usize = 0;
        while k < indices.len()
            invariant
                self.wf(),
                indices@.len() == self.nodes().len(),
                forall|i: int| 0 <= i < indices@.len() ==> indices@[i] == i,
                k <= indices@.len(),
                pick == (|i: int| execution.state_of(TaskId { schedule_id: self.sid(), idx: i as usize }) == State::Running),
                out@ == ids_where(self.sid(), k as nat, pick),
            decreases indices@.len() - k,
        {
            let i = indices[k];
            let id = TaskId::new(self.schedule_id, i);
            if execution.state(id).is_running() {
                out.push(id);
            }
            k = k + 1;
        }
        out
    }
}

} // verus!
