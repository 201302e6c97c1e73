//! Task identifiers, typed handles and the dependency graph of a schedule.
//!
//! The graph itself is a `petgraph` `StableDiGraph` whose nodes carry no weight: node `i` is
//! the `i`-th task that was added to the schedule, and an edge `(a, b)` says that task `b`
//! consumes the output of task `a`.

use petgraph::stable_graph::StableGraph;
use petgraph::{Directed, Direction};
use std::marker::PhantomData;
use vstd::prelude::*;

verus! {

/// Opaque identifier for a task node within a specific schedule.
///
/// A task id carries the id of the schedule it belongs to, so that schedules and executions
/// can refuse ids that belong to another schedule.
#[derive(Debug, Clone, Copy, PartialEq, Eq, Structural, Hash, PartialOrd, Ord)]
pub struct TaskId {
    pub schedule_id: u64,
    pub idx: usize,
}

impl TaskId {
    pub fn new(schedule_id: u64, idx: usize) -> (r: Self)
        ensures
            r.schedule_id == schedule_id,
            r.idx == idx,
    {
        TaskId { schedule_id, idx }
    }

    /// Returns the id of the schedule of the task.
    pub fn schedule_id(self) -> (r: u64)
        ensures
            r == self.schedule_id,
    {
        self.schedule_id
    }

    /// Returns the underlying node index.
    pub fn idx(self) -> (r: usize)
        ensures
            r == self.idx,
    {
        self.idx
    }
}

/// A typed handle to the output of a task.
///
/// Handles are created when a task is added to a schedule; the type parameter records the type
/// of the task's output.
#[derive(Debug, PartialEq, Eq, Hash, PartialOrd, Ord)]
pub struct Handle<O> {
    pub task_id: TaskId,
    pub output: PhantomData<O>,
}

impl<O> Clone for Handle<O> {
    fn clone(&self) -> (r: Self)
        ensures
            r.task_id == self.task_id,
    {
        Handle { task_id: self.task_id, output: PhantomData }
    }
}

impl<O> Copy for Handle<O> {

}

impl<O> Handle<O> {
    pub fn new(task_id: TaskId) -> (r: Self)
        ensures
            r.task_id == task_id,
    {
        Handle { task_id, output: PhantomData }
    }

    /// Returns the task id of this handle.
    pub fn task_id(self) -> (r: TaskId)
        ensures
            r == self.task_id,
    {
        self.task_id
    }

    /// Returns the task id of this handle, by reference to the handle.
    pub fn task_id_ref(&self) -> (r: TaskId)
        ensures
            r == self.task_id,
    {
        self.task_id
    }
}

#[verifier::external_type_specification]
#[verifier::external_body]
pub struct ExDirected(Directed);

#[verifier::external_type_specification]
#[verifier::external_body]
#[verifier::reject_recursive_types(N)]
#[verifier::reject_recursive_types(E)]
#[verifier::reject_recursive_types(Ty)]
#[verifier::reject_recursive_types(Ix)]
pub struct ExStableGraph<N, E, Ty, Ix>(StableGraph<N, E, Ty, Ix>);

/// The dependency graph of a schedule: nodes carry no weight, node `i` is task `i`.
pub type DAG = StableGraph<(), (), Directed, usize>;

/// The edges of the graph, `(source, target)`, in the order of their edge indices: on a compact
/// graph (see `dag_compact`), the order in which they were added.
pub uninterp spec fn dag_edges(g: DAG) -> Seq<(usize, usize)>;

/// The number of nodes of the graph.
pub uninterp spec fn dag_node_count(g: DAG) -> nat;

/// The graph has no vacant node or edge slot: nothing was ever removed from it, so its nodes
/// are `0..dag_node_count(g)` and its edges are numbered in the order in which they were added.
pub uninterp spec fn dag_compact(g: DAG) -> bool;

/// The direction of a neighbor query.
#[derive(Debug, Clone, Copy, PartialEq, Eq, Structural)]
pub enum Dir {
    /// Towards the tasks that consume a task's output (edges leaving the task).
    Outgoing,
    /// Towards the tasks whose outputs a task consumes (edges entering the task).
    Incoming,
}

/// The neighbors of node `a` in direction `dir`, in the order in which the edges were added.
pub open spec fn neighbors_in_order(edges: Seq<(usize, usize)>, a: usize, dir: Dir) -> Seq<usize>
    decreases edges.len(),
{
    if edges.len() == 0 {
        Seq::empty()
    } else {
        let rest = neighbors_in_order(edges.drop_last(), a, dir);
        let e = edges.last();
        match dir {
            Dir::Outgoing => if e.0 == a { rest.push(e.1) } else { rest },
            Dir::Incoming => if e.1 == a { rest.push(e.0) } else { rest },
        }
    }
}

/// There is an edge from `a` to `b`.
pub open spec fn has_edge(edges: Seq<(usize, usize)>, a: usize, b: usize) -> bool {
    exists|k: int| 0 <= k < edges.len() && edges[k] == (a, b)
}

/// `b` can be reached from `a` along at most `steps` edges, and along at least one.
pub open spec fn reaches(edges: Seq<(usize, usize)>, a: usize, b: usize, steps: nat) -> bool
    decreases steps,
{
    steps > 0 && exists|k: int|
        0 <= k < edges.len() && #[trigger] edges[k].0 == a && (edges[k].1 == b || reaches(
            edges,
            edges[k].1,
            b,
            (steps - 1) as nat,
        ))
}

/// `b` can be reached from `a` along one or more edges.
pub open spec fn reachable(edges: Seq<(usize, usize)>, a: usize, b: usize) -> bool {
    exists|n: nat| reaches(edges, a, b, n)
}

/// The targets of the edges leaving `a` are exactly the outgoing neighbors of `a`; likewise the
/// sources of the edges entering `a` are its incoming neighbors.
pub proof fn lemma_neighbors_contains(edges: Seq<(usize, usize)>, a: usize, y: usize)
    ensures
        neighbors_in_order(edges, a, Dir::Outgoing).contains(y) <==> has_edge(edges, a, y),
        neighbors_in_order(edges, a, Dir::Incoming).contains(y) <==> has_edge(edges, y, a),
    decreases edges.len(),
{
    if edges.len() > 0 {
        let rest = edges.drop_last();
        lemma_neighbors_contains(rest, a, y);
        if has_edge(rest, a, y) {
            let k = choose|k: int| 0 <= k < rest.len() && rest[k] == (a, y);
            assert(edges[k] == (a, y));
        }
        if has_edge(rest, y, a) {
            let k = choose|k: int| 0 <= k < rest.len() && rest[k] == (y, a);
            assert(edges[k] == (y, a));
        }
        if has_edge(edges, a, y) {
            let k = choose|k: int| 0 <= k < edges.len() && edges[k] == (a, y);
            if k < edges.len() - 1 {
                assert(rest[k] == (a, y));
            }
        }
        if has_edge(edges, y, a) {
            let k = choose|k: int| 0 <= k < edges.len() && edges[k] == (y, a);
            if k < edges.len() - 1 {
                assert(rest[k] == (y, a));
            }
        }
        let out = neighbors_in_order(rest, a, Dir::Outgoing);
        let inc = neighbors_in_order(rest, a, Dir::Incoming);
        if edges.last().0 == a {
            assert(out.push(edges.last().1).contains(y) <==> (out.contains(y) || edges.last().1 == y)) by {
                if out.push(edges.last().1).contains(y) {
                    let j = choose|j: int| 0 <= j < out.len() + 1 && out.push(edges.last().1)[j] == y;
                    if j < out.len() {
                        assert(out[j] == y);
                    }
                }
                if out.contains(y) {
                    let j = choose|j: int| 0 <= j < out.len() && out[j] == y;
                    assert(out.push(edges.last().1)[j] == y);
                }
                if edges.last().1 == y {
                    assert(out.push(edges.last().1)[out.len() as int] == y);
                }
            }
        }
        if edges.last().1 == a {
            assert(inc.push(edges.last().0).contains(y) <==> (inc.contains(y) || edges.last().0 == y)) by {
                if inc.push(edges.last().0).contains(y) {
                    let j = choose|j: int| 0 <= j < inc.len() + 1 && inc.push(edges.last().0)[j] == y;
                    if j < inc.len() {
                        assert(inc[j] == y);
                    }
                }
                if inc.contains(y) {
                    let j = choose|j: int| 0 <= j < inc.len() && inc[j] == y;
                    assert(inc.push(edges.last().0)[j] == y);
                }
                if edges.last().0 == y {
                    assert(inc.push(edges.last().0)[inc.len() as int] == y);
                }
            }
        }
    }
}

/// A path to `x` extended by an edge `(x, y)` is a path to `y`.
pub proof fn lemma_reaches_extend(edges: Seq<(usize, usize)>, a: usize, x: usize, y: usize, n: nat)
    requires
        reaches(edges, a, x, n),
        has_edge(edges, x, y),
    ensures
        reaches(edges, a, y, n + 1),
    decreases n,
{
    let k = choose|k: int|
        0 <= k < edges.len() && #[trigger] edges[k].0 == a && (edges[k].1 == x || reaches(
            edges,
            edges[k].1,
            x,
            (n - 1) as nat,
        ));
    if edges[k].1 == x {
        let k2 = choose|k2: int| 0 <= k2 < edges.len() && edges[k2] == (x, y);
        assert(edges[k2].0 == x);
        assert(reaches(edges, x, y, n));
        assert(reaches(edges, a, y, n + 1));
    } else {
        lemma_reaches_extend(edges, edges[k].1, x, y, (n - 1) as nat);
        assert(reaches(edges, a, y, n + 1));
    }
}

/// A set of nodes that holds `a` and the targets of all edges leaving its members holds every
/// node reachable from `a`.
pub proof fn lemma_closed_set_holds_reachable(
    edges: Seq<(usize, usize)>,
    nodes: Set<usize>,
    a: usize,
    b: usize,
    n: nat,
)
    requires
        nodes.contains(a),
        forall|k: int| 0 <= k < edges.len() && nodes.contains(#[trigger] edges[k].0) ==> nodes.contains(edges[k].1),
        reaches(edges, a, b, n),
    ensures
        nodes.contains(b),
    decreases n,
{
    let k = choose|k: int|
        0 <= k < edges.len() && #[trigger] edges[k].0 == a && (edges[k].1 == b || reaches(
            edges,
            edges[k].1,
            b,
            (n - 1) as nat,
        ));
    if edges[k].1 != b {
        lemma_closed_set_holds_reachable(edges, nodes, edges[k].1, b, (n - 1) as nat);
    }
}

/// `StableGraph::default`: an empty graph.
#[verifier::external_body]
pub(crate) fn dag_new() -> (g: DAG)
    ensures
        dag_edges(g) == Seq::<(usize, usize)>::empty(),
        dag_node_count(g) == 0,
        dag_compact(g),
{
    StableGraph::default()
}

/// `StableGraph::node_count`: the number of nodes.
#[verifier::external_body]
pub(crate) fn dag_count(g: &DAG) -> (n: usize)
    ensures
        n == dag_node_count(*g),
{
    g.node_count()
}

/// `StableGraph::add_node`: on a graph without removed nodes the new node gets the next index.
/// It panics only when the index space of `usize` is used up, which `requires` leaves out.
#[verifier::external_body]
pub(crate) fn dag_add_node(g: &mut DAG) -> (i: usize)
    requires
        dag_compact(*old(g)),
        dag_node_count(*old(g)) < usize::MAX - 1,
    ensures
        dag_compact(*final(g)),
        i == dag_node_count(*old(g)),
        dag_node_count(*final(g)) == dag_node_count(*old(g)) + 1,
        dag_edges(*final(g)) == dag_edges(*old(g)),
{
    g.add_node(()).index()
}

/// `StableGraph::contains_node`: whether `i` is a node of the graph.
#[verifier::external_body]
pub(crate) fn dag_contains(g: &DAG, i: usize) -> (r: bool)
    requires
        dag_compact(*g),
    ensures
        r == (i < dag_node_count(*g)),
{
    g.contains_node(petgraph::graph::NodeIndex::new(i))
}

/// `StableGraph::add_edge`: appends the edge `(a, b)`; parallel edges are allowed.
/// It panics when `a` or `b` is not a node, which `requires` leaves out.
#[verifier::external_body]
pub(crate) fn dag_add_edge(g: &mut DAG, a: usize, b: usize)
    requires
        dag_compact(*old(g)),
        a < dag_node_count(*old(g)),
        b < dag_node_count(*old(g)),
        dag_edges(*old(g)).len() < usize::MAX - 1,
    ensures
        dag_compact(*final(g)),
        dag_node_count(*final(g)) == dag_node_count(*old(g)),
        dag_edges(*final(g)) == dag_edges(*old(g)).push((a, b)),
{
    g.add_edge(petgraph::graph::NodeIndex::new(a), petgraph::graph::NodeIndex::new(b), ());
}

/// `StableGraph::neighbors_directed`: for a directed graph the neighbors are listed in reverse
/// order of the addition of their edges, one entry per edge; a non-node has no neighbors.
#[verifier::external_body]
pub(crate) fn dag_neighbors(g: &DAG, a: usize, dir: Dir) -> (r: Vec<usize>)
    requires
        dag_compact(*g),
    ensures
        r@ == neighbors_in_order(dag_edges(*g), a, dir).reverse(),
{
    let d = match dir {
        Dir::Outgoing => Direction::Outgoing,
        Dir::Incoming => Direction::Incoming,
    };
    g.neighbors_directed(petgraph::graph::NodeIndex::new(a), d).map(|n| n.index()).collect()
}

/// `StableGraph::node_indices`: the indices of the nodes in increasing order.
#[verifier::external_body]
pub(crate) fn dag_node_indices(g: &DAG) -> (r: Vec<usize>)
    requires
        dag_compact(*g),
    ensures
        r@.len() == dag_node_count(*g),
        forall|i: int| 0 <= i < r@.len() ==> r@[i] == i,
{
    g.node_indices().map(|n| n.index()).collect()
}

} // verus!
