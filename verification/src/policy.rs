//! Scheduling policies: which ready task the executor starts next.

use crate::dag::TaskId;
use crate::execution::Execution;
use crate::schedule::Schedule;
use crate::task::State;
use std::collections::VecDeque;
use vstd::prelude::*;
use vstd::std_specs::cmp::{PartialEqIs, PartialEqSpec, PartialOrdIs, PartialOrdSpec};

verus! {

/// A scheduling policy.
///
/// The executor tells the policy which tasks became ready, started and finished, and asks it
/// for the next task to start. Users implement this trait for custom policies.
///
/// A policy may describe what its methods do with the spec functions below and set
/// `obeys_policy_spec` to `true`; its methods are then held to that description. A policy that
/// keeps the defaults promises nothing.
pub trait Policy<L>: Sized {
    /// Whether the methods of this policy behave as its spec functions say.
    open spec fn obeys_policy_spec() -> bool {
        false
    }

    /// The answer of `next_task` in this state, for `schedule` and an execution with `running`
    /// running tasks and the task states `states`.
    open spec fn next_task_spec(&self, schedule: Schedule<L>, running: usize, states: spec_fn(TaskId) -> State) -> Option<TaskId> {
        None
    }

    /// `after` is this policy after `next_task` for `schedule` and an execution with `running`
    /// running tasks and the task states `states`.
    open spec fn next_task_post(
        &self,
        after: Self,
        schedule: Schedule<L>,
        running: usize,
        states: spec_fn(TaskId) -> State,
    ) -> bool {
        true
    }

    /// `after` is this policy after `reset`.
    open spec fn reset_post(&self, after: Self) -> bool {
        true
    }

    /// `after` is this policy after `on_task_ready` of `task_id`.
    open spec fn ready_post(&self, after: Self, task_id: TaskId, schedule: Schedule<L>) -> bool {
        true
    }

    /// `after` is this policy after `on_task_started` of `task_id`.
    open spec fn started_post(&self, after: Self, task_id: TaskId, schedule: Schedule<L>) -> bool {
        true
    }

    /// `after` is this policy after `on_task_finished` of `task_id` in `state`.
    open spec fn finished_post(&self, after: Self, task_id: TaskId, state: State, schedule: Schedule<L>) -> bool {
        true
    }

    /// Forgets everything learned during an earlier run.
    fn reset(&mut self)
        ensures
            Self::obeys_policy_spec() ==> old(self).reset_post(*final(self)),
    ;

    /// A task became ready: all its dependencies succeeded.
    fn on_task_ready(&mut self, task_id: TaskId, schedule: &Schedule<L>)
        ensures
            Self::obeys_policy_spec() ==> old(self).ready_post(*final(self), task_id, *schedule),
    ;

    /// A task was started.
    fn on_task_started(&mut self, task_id: TaskId, schedule: &Schedule<L>)
        ensures
            Self::obeys_policy_spec() ==> old(self).started_post(*final(self), task_id, *schedule),
    ;

    /// A task finished in the given state.
    fn on_task_finished(&mut self, task_id: TaskId, state: State, schedule: &Schedule<L>)
        ensures
            Self::obeys_policy_spec() ==> old(self).finished_post(*final(self), task_id, state, *schedule),
    ;

    /// The next task to start, if any should start now.
    fn next_task<V, E>(&mut self, schedule: &Schedule<L>, execution: &Execution<V, E>) -> (r: Option<TaskId>)
        ensures
            Self::obeys_policy_spec() ==> r == old(self).next_task_spec(
                *schedule,
                execution.running(),
                execution.states(),
            ) && old(self).next_task_post(*final(self), *schedule, execution.running(), execution.states()),
    ;
}

/// The position of the first entry of `q` whose task is pending by `states`.
pub open spec fn first_pending(q: Seq<usize>, states: spec_fn(TaskId) -> State, sid: u64) -> Option<int>
    decreases q.len(),
{
    if q.len() == 0 {
        None
    } else if states(TaskId { schedule_id: sid, idx: q[0] }) == State::Pending {
        Some(0)
    } else {
        match first_pending(q.subrange(1, q.len() as int), states, sid) {
            Some(j) => Some(j + 1),
            None => None,
        }
    }
}

/// The first pending entry of a ready list: the entry found is pending and no entry before it
/// is; when none is found, no entry is pending.
pub proof fn lemma_first_pending_is_first(q: Seq<usize>, states: spec_fn(TaskId) -> State, sid: u64)
    ensures
        first_pending(q, states, sid) matches Some(j) ==> {
            &&& 0 <= j < q.len()
            &&& states(TaskId { schedule_id: sid, idx: q[j] }) == State::Pending
            &&& forall|k: int| 0 <= k < j ==> states(TaskId { schedule_id: sid, idx: #[trigger] q[k] }) != State::Pending
        },
        first_pending(q, states, sid) is None ==> forall|k: int|
            0 <= k < q.len() ==> states(TaskId { schedule_id: sid, idx: #[trigger] q[k] }) != State::Pending,
    decreases q.len(),
{
    if q.len() > 0 && states(TaskId { schedule_id: sid, idx: q[0] }) != State::Pending {
        let rest = q.subrange(1, q.len() as int);
        lemma_first_pending_is_first(rest, states, sid);
        assert forall|k: int| 1 <= k < q.len() implies q[k] == rest[k - 1] by {}
        if let Some(j) = first_pending(rest, states, sid) {
            assert forall|k: int| 0 <= k < j + 1 implies states(TaskId { schedule_id: sid, idx: #[trigger] q[k] })
                != State::Pending by {
                if k > 0 {
                    assert(q[k] == rest[k - 1]);
                }
            }
        } else {
            assert forall|k: int| 0 <= k < q.len() implies states(TaskId { schedule_id: sid, idx: #[trigger] q[k] })
                != State::Pending by {
                if k > 0 {
                    assert(q[k] == rest[k - 1]);
                }
            }
        }
    }
}

/// Whether `limit` forbids starting a task while `running` tasks run.
pub open spec fn limit_reached(limit: Option<usize>, running: usize) -> bool {
    match limit {
        Some(l) => running >= l,
        None => false,
    }
}

/// First in, first out: ready tasks start in the order in which they became ready.
#[derive(Debug, Clone)]
pub struct Fifo {
    /// The most tasks that may run at once; `None` for no limit.
    pub max_concurrent: Option<usize>,
    ready: VecDeque<usize>,
}

impl Default for Fifo {
    fn default() -> (r: Self)
        ensures
            r.limit().is_none(),
            r.queue() == Seq::<usize>::empty(),
    {
        Fifo { max_concurrent: None, ready: VecDeque::new() }
    }
}

impl Fifo {
    /// The node indices of the ready tasks, oldest first.
    pub closed spec fn queue(&self) -> Seq<usize> {
        self.ready@
    }

    /// The concurrency limit.
    pub closed spec fn limit(&self) -> Option<usize> {
        self.max_concurrent
    }

    /// A FIFO policy without a concurrency limit.
    pub fn new() -> (r: Self)
        ensures
            r.limit().is_none(),
            r.queue() == Seq::<usize>::empty(),
    {
        Self::default()
    }

    /// A FIFO policy with the given concurrency limit.
    pub fn max_concurrent(limit: Option<usize>) -> (r: Self)
        ensures
            r.limit() == limit,
            r.queue() == Seq::<usize>::empty(),
    {
        Self::from_limit(limit)
    }

    /// Changes the concurrency limit.
    pub fn set_max_concurrent(&mut self, limit: Option<usize>)
        ensures
            final(self).limit() == limit,
            final(self).queue() == old(self).queue(),
    {
        self.max_concurrent = limit;
    }

    /// A FIFO policy with the given concurrency limit.
    pub fn from_limit(limit: Option<usize>) -> (r: Self)
        ensures
            r.limit() == limit,
            r.queue() == Seq::<usize>::empty(),
    {
        Fifo { max_concurrent: limit, ready: VecDeque::new() }
    }
}

impl<L> Policy<L> for Fifo {
    open spec fn obeys_policy_spec() -> bool {
        true
    }

    /// The oldest ready task that is still pending, unless the concurrency limit is reached.
    open spec fn next_task_spec(&self, schedule: Schedule<L>, running: usize, states: spec_fn(TaskId) -> State) -> Option<TaskId> {
        if limit_reached(self.limit(), running) {
            None
        } else {
            match first_pending(self.queue(), states, schedule.sid()) {
                Some(j) => Some(TaskId { schedule_id: schedule.sid(), idx: self.queue()[j] }),
                None => None,
            }
        }
    }

    /// The entries up to the answer leave the ready list; all of them when there is no answer.
    open spec fn next_task_post(
        &self,
        after: Self,
        schedule: Schedule<L>,
        running: usize,
        states: spec_fn(TaskId) -> State,
    ) -> bool {
        &&& after.limit() == self.limit()
        &&& after.queue() == if limit_reached(self.limit(), running) {
            self.queue()
        } else {
            match first_pending(self.queue(), states, schedule.sid()) {
                Some(j) => self.queue().subrange(j + 1, self.queue().len() as int),
                None => Seq::<usize>::empty(),
            }
        }
    }

    open spec fn reset_post(&self, after: Self) -> bool {
        after.limit() == self.limit() && after.queue() == Seq::<usize>::empty()
    }

    open spec fn ready_post(&self, after: Self, task_id: TaskId, schedule: Schedule<L>) -> bool {
        after.limit() == self.limit() && after.queue() == self.queue().push(task_id.idx)
    }

    open spec fn started_post(&self, after: Self, task_id: TaskId, schedule: Schedule<L>) -> bool {
        after.limit() == self.limit() && after.queue() == self.queue()
    }

    open spec fn finished_post(&self, after: Self, task_id: TaskId, state: State, schedule: Schedule<L>) -> bool {
        after.limit() == self.limit() && after.queue() == self.queue()
    }

    fn reset(&mut self)
        ensures
            final(self).limit() == old(self).limit(),
            final(self).queue() == Seq::<usize>::empty(),
    {
        self.ready.clear();
    }

    fn on_task_ready(&mut self, task_id: TaskId, schedule: &Schedule<L>)
        ensures
            final(self).limit() == old(self).limit(),
            final(self).queue() == old(self).queue().push(task_id.idx),
    {
        self.ready.push_back(task_id.idx());
    }

    fn on_task_started(&mut self, task_id: TaskId, schedule: &Schedule<L>)
        ensures
            final(self).limit() == old(self).limit(),
            final(self).queue() == old(self).queue(),
    {
    }

    fn on_task_finished(&mut self, task_id: TaskId, state: State, schedule: &Schedule<L>)
        ensures
            final(self).limit() == old(self).limit(),
            final(self).queue() == old(self).queue(),
    {
    }

    /// Returns the oldest ready task that is still pending, dropping the ready entries before
    /// it; returns `None` while the concurrency limit is reached.
    fn next_task<V, E>(&mut self, schedule: &Schedule<L>, execution: &Execution<V, E>) -> (r: Option<TaskId>)
        ensures
            final(self).limit() == old(self).limit(),
            limit_reached(old(self).limit(), execution.running()) ==> r.is_none()
                && final(self).queue() == old(self).queue(),
            !limit_reached(old(self).limit(), execution.running()) ==> match first_pending(
                old(self).queue(),
                execution.states(),
                schedule.sid(),
            ) {
                Some(j) => r == Some(TaskId { schedule_id: schedule.sid(), idx: old(self).queue()[j] })
                    && final(self).queue() == old(self).queue().subrange(j + 1, old(self).queue().len() as int),
                None => r.is_none() && final(self).queue() == Seq::<usize>::empty(),
            },
            r matches Some(t) ==> {
                &&& !limit_reached(old(self).limit(), execution.running())
                &&& t.schedule_id == schedule.sid()
                &&& execution.state_of(t) == State::Pending
                &&& exists|j: int|
                    0 <= j < old(self).queue().len() && old(self).queue()[j] == t.idx && final(self).queue()
                        == old(self).queue().subrange(j + 1, old(self).queue().len() as int) && forall|k: int|
                        0 <= k < j ==> execution.state_of(TaskId { schedule_id: schedule.sid(), idx: #[trigger] old(self).queue()[k] })
                            != State::Pending
            },
            r is None && !limit_reached(old(self).limit(), execution.running()) ==> forall|k: int|
                0 <= k < old(self).queue().len() ==> execution.state_of(
                    TaskId { schedule_id: schedule.sid(), idx: #[trigger] old(self).queue()[k] },
                ) != State::Pending,
    {
        if let Some(limit) = self.max_concurrent {
            if execution.running_count() >= limit {
                return None;
            }
        }
        let ghost q0 = self.ready@;
        loop
            invariant
                self.max_concurrent == old(self).limit(),
                !limit_reached(old(self).limit(), execution.running()),
                q0 == old(self).ready@,
                q0.len() >= self.ready@.len(),
                self.ready@ == q0.subrange(q0.len() - self.ready@.len(), q0.len() as int),
                first_pending(q0, execution.states(), schedule.sid()) == match first_pending(
                    self.ready@,
                    execution.states(),
                    schedule.sid(),
                ) {
                    Some(j) => Some(j + q0.len() - self.ready@.len()),
                    None => None,
                },
            decreases self.ready@.len(),
        {
            let ghost before = self.ready@;
            match self.ready.pop_front() {
                Some(task_idx) => {
                    let task_id = schedule.task_id(task_idx);
                    if execution.state(task_id).is_pending() {
                        proof {
                            let j = first_pending(q0, execution.states(), schedule.sid())->Some_0;
                            assert(self.queue() =~= q0.subrange(j + 1, q0.len() as int));
                            lemma_first_pending_is_first(q0, execution.states(), schedule.sid());
                        }
                        assert(Policy::<L>::next_task_post(
                            old(self),
                            *self,
                            *schedule,
                            execution.running(),
                            execution.states(),
                        ));
                        return Some(task_id);
                    }
                    assert(self.ready@ == before.subrange(1, before.len() as int));
                },
                None => {
                    proof {
                        lemma_first_pending_is_first(q0, execution.states(), schedule.sid());
                    }
                    assert(self.queue() =~= Seq::<usize>::empty());
                    assert(Policy::<L>::next_task_post(
                        old(self),
                        *self,
                        *schedule,
                        execution.running(),
                        execution.states(),
                    ));
                    return None;
                },
            }
        }
    }
}

/// The label of each ready entry whose task is pending by `states` and known to the schedule;
/// `None` for the other entries.
pub open spec fn candidates<L>(q: Seq<usize>, sched: Schedule<L>, states: spec_fn(TaskId) -> State) -> Seq<Option<L>> {
    Seq::new(
        q.len(),
        |i: int|
            if q[i] < sched.nodes().len() && states(TaskId { schedule_id: sched.sid(), idx: q[i] })
                == State::Pending {
                Some(sched.nodes()[q[i] as int].label)
            } else {
                None
            },
    )
}

/// The entry a priority policy picks among `c`: the highest label, the latest entry among equal
/// labels.
pub open spec fn best_candidate<L: PartialOrd>(c: Seq<Option<L>>) -> Option<int>
    decreases c.len(),
{
    if c.len() == 0 {
        None
    } else {
        let b = best_candidate(c.drop_last());
        let k = c.len() - 1;
        match c[k] {
            None => b,
            Some(l) => match b {
                None => Some(k),
                Some(bi) => if l.is_gt(&c[bi]->0) || l.is_eq(&c[bi]->0) {
                    Some(k)
                } else {
                    b
                },
            },
        }
    }
}

/// Label `a` is at least label `b`, as the label comparisons say.
pub open spec fn label_ge<L: PartialOrd>(a: L, b: L) -> bool {
    a.is_gt(&b) || a.is_eq(&b)
}

/// The labels compare as a total order: any two are comparable, and "at least" is transitive.
pub open spec fn labels_total<L: PartialOrd>() -> bool {
    &&& forall|x: L, y: L| #![trigger label_ge(x, y)] label_ge(x, y) || label_ge(y, x)
    &&& forall|x: L, y: L, z: L|
        #![trigger label_ge(x, y), label_ge(y, z)]
        label_ge(x, y) && label_ge(y, z) ==> label_ge(x, z)
}

/// The priority pick is the latest of the highest candidates: no later candidate has a label
/// at least as high, and, where the labels are totally ordered, its label is at least as high
/// as that of every candidate.
pub proof fn lemma_best_candidate_is_highest<L: PartialOrd>(c: Seq<Option<L>>)
    ensures
        best_candidate(c) matches Some(bi) ==> forall|k: int|
            bi < k < c.len() && (#[trigger] c[k]) is Some ==> !label_ge(c[k]->0, c[bi]->0),
        labels_total::<L>() ==> (best_candidate(c) matches Some(bi) ==> forall|k: int|
            0 <= k < c.len() && (#[trigger] c[k]) is Some ==> label_ge(c[bi]->0, c[k]->0)),
    decreases c.len(),
{
    if c.len() > 0 {
        let d = c.drop_last();
        lemma_best_candidate_is_highest(d);
        lemma_best_candidate_is_some(d);
        lemma_best_candidate_is_some(c);
        let last = c.len() - 1;
        assert forall|k: int| 0 <= k < d.len() implies d[k] == c[k] by {}
        if let Some(l) = c[last] {
            if labels_total::<L>() {
                assert(label_ge(l, l));
            }
            match best_candidate(d) {
                None => {
                    assert forall|k: int| 0 <= k < d.len() implies !(d[k] is Some) by {}
                },
                Some(bi) => {
                    if labels_total::<L>() {
                        if label_ge(l, c[bi]->0) {
                            assert forall|k: int| 0 <= k < c.len() && (#[trigger] c[k]) is Some implies label_ge(
                                l,
                                c[k]->0,
                            ) by {
                                if k < last {
                                    assert(d[k] is Some);
                                    assert(label_ge(c[bi]->0, c[k]->0));
                                }
                            }
                        } else {
                            assert(label_ge(c[bi]->0, l));
                        }
                    }
                },
            }
        }
    }
}

/// `PartialOrd` and `PartialEq` of `L` behave as their specifications say.
pub open spec fn labels_specified<L: PartialOrd>() -> bool {
    L::obeys_partial_cmp_spec() && L::obeys_eq_spec()
}

/// The priority policy picks a task whenever one of its ready tasks is still pending, and what
/// it picks is such a task.
pub proof fn lemma_best_candidate_is_some<L: PartialOrd>(c: Seq<Option<L>>)
    ensures
        best_candidate(c) is Some <==> exists|i: int| 0 <= i < c.len() && c[i] is Some,
        best_candidate(c) matches Some(bi) ==> 0 <= bi < c.len() && c[bi] is Some,
    decreases c.len(),
{
    if c.len() > 0 {
        lemma_best_candidate_is_some(c.drop_last());
        if exists|i: int| 0 <= i < c.drop_last().len() && c.drop_last()[i] is Some {
            let i = choose|i: int| 0 <= i < c.drop_last().len() && c.drop_last()[i] is Some;
            assert(c[i] is Some);
        }
        if exists|i: int| 0 <= i < c.len() && c[i] is Some {
            let i = choose|i: int| 0 <= i < c.len() && c[i] is Some;
            if i < c.len() - 1 {
                assert(c.drop_last()[i] is Some);
            }
        }
    }
}

/// Highest label first: among the ready tasks that are still pending, the one with the
/// greatest label starts next, the most recently ready one among equal labels.
#[derive(Debug, Clone)]
pub struct Priority {
    /// The most tasks that may run at once; `None` for no limit.
    pub max_concurrent: Option<usize>,
    ready: Vec<usize>,
}

impl Default for Priority {
    fn default() -> (r: Self)
        ensures
            r.limit().is_none(),
            r.queue() == Seq::<usize>::empty(),
    {
        Priority { max_concurrent: None, ready: Vec::new() }
    }
}

impl Priority {
    /// The node indices of the ready tasks, in the order in which they became ready.
    pub closed spec fn queue(&self) -> Seq<usize> {
        self.ready@
    }

    /// The concurrency limit.
    pub closed spec fn limit(&self) -> Option<usize> {
        self.max_concurrent
    }

    /// A priority policy without a concurrency limit.
    pub fn new() -> (r: Self)
        ensures
            r.limit().is_none(),
            r.queue() == Seq::<usize>::empty(),
    {
        Self::default()
    }

    /// A priority policy with the given concurrency limit.
    pub fn max_concurrent(limit: Option<usize>) -> (r: Self)
        ensures
            r.limit() == limit,
            r.queue() == Seq::<usize>::empty(),
    {
        Self::from_limit(limit)
    }

    /// Changes the concurrency limit.
    pub fn set_max_concurrent(&mut self, limit: Option<usize>)
        ensures
            final(self).limit() == limit,
            final(self).queue() == old(self).queue(),
    {
        self.max_concurrent = limit;
    }

    /// A priority policy with the given concurrency limit.
    pub fn from_limit(limit: Option<usize>) -> (r: Self)
        ensures
            r.limit() == limit,
            r.queue() == Seq::<usize>::empty(),
    {
        Priority { max_concurrent: limit, ready: Vec::new() }
    }
}

impl<L: Ord> Policy<L> for Priority {
    /// The policy is exact where the labels compare as their specifications say.
    open spec fn obeys_policy_spec() -> bool {
        labels_specified::<L>()
    }

    /// The ready task with the highest label among those still pending (the latest among equal
    /// labels), unless the concurrency limit is reached.
    open spec fn next_task_spec(&self, schedule: Schedule<L>, running: usize, states: spec_fn(TaskId) -> State) -> Option<TaskId> {
        if limit_reached(self.limit(), running) {
            None
        } else {
            match best_candidate(candidates(self.queue(), schedule, states)) {
                Some(bi) => Some(TaskId { schedule_id: schedule.sid(), idx: self.queue()[bi] }),
                None => None,
            }
        }
    }

    /// The answer leaves the ready list.
    open spec fn next_task_post(
        &self,
        after: Self,
        schedule: Schedule<L>,
        running: usize,
        states: spec_fn(TaskId) -> State,
    ) -> bool {
        &&& after.limit() == self.limit()
        &&& after.queue() == if limit_reached(self.limit(), running) {
            self.queue()
        } else {
            match best_candidate(candidates(self.queue(), schedule, states)) {
                Some(bi) => self.queue().remove(bi),
                None => self.queue(),
            }
        }
    }

    open spec fn reset_post(&self, after: Self) -> bool {
        after.limit() == self.limit() && after.queue() == Seq::<usize>::empty()
    }

    open spec fn ready_post(&self, after: Self, task_id: TaskId, schedule: Schedule<L>) -> bool {
        after.limit() == self.limit() && after.queue() == self.queue().push(task_id.idx)
    }

    open spec fn started_post(&self, after: Self, task_id: TaskId, schedule: Schedule<L>) -> bool {
        after.limit() == self.limit() && after.queue() == self.queue()
    }

    open spec fn finished_post(&self, after: Self, task_id: TaskId, state: State, schedule: Schedule<L>) -> bool {
        after.limit() == self.limit() && after.queue() == self.queue()
    }

    fn reset(&mut self)
        ensures
            final(self).limit() == old(self).limit(),
            final(self).queue() == Seq::<usize>::empty(),
    {
        self.ready.clear();
    }

    fn on_task_ready(&mut self, task_id: TaskId, schedule: &Schedule<L>)
        ensures
            final(self).limit() == old(self).limit(),
            final(self).queue() == old(self).queue().push(task_id.idx),
    {
        self.ready.push(task_id.idx());
    }

    fn on_task_started(&mut self, task_id: TaskId, schedule: &Schedule<L>)
        ensures
            final(self).limit() == old(self).limit(),
            final(self).queue() == old(self).queue(),
    {
    }

    fn on_task_finished(&mut self, task_id: TaskId, state: State, schedule: &Schedule<L>)
        ensures
            final(self).limit() == old(self).limit(),
            final(self).queue() == old(self).queue(),
    {
    }

    /// Removes and returns the ready task with the highest label among those still pending
    /// (the latest among equal labels); returns `None` while the concurrency limit is reached.
    /// Entries whose task is not pending stay in the ready list.
    fn next_task<V, E>(&mut self, schedule: &Schedule<L>, execution: &Execution<V, E>) -> (r: Option<TaskId>)
        ensures
            final(self).limit() == old(self).limit(),
            limit_reached(old(self).limit(), execution.running()) ==> r.is_none()
                && final(self).queue() == old(self).queue(),
            !limit_reached(old(self).limit(), execution.running()) ==> {
                let c = candidates(old(self).queue(), *schedule, execution.states());
                match r {
                    None => (forall|i: int| 0 <= i < c.len() ==> c[i] is None)
                        && final(self).queue() == old(self).queue(),
                    Some(t) => exists|bi: int|
                        0 <= bi < c.len() && c[bi] is Some && t == (TaskId {
                            schedule_id: schedule.sid(),
                            idx: old(self).queue()[bi],
                        }) && final(self).queue() == old(self).queue().remove(bi) && (labels_specified::<L>()
                            ==> best_candidate(c) == Some(bi)) && (labels_specified::<L>() ==> forall|k: int|
                            bi < k < c.len() && (#[trigger] c[k]) is Some ==> !label_ge(c[k]->0, c[bi]->0)) && (
                        labels_specified::<L>() && labels_total::<L>() ==> forall|k: int|
                            0 <= k < c.len() && (#[trigger] c[k]) is Some ==> label_ge(c[bi]->0, c[k]->0)),
                }
            },
            r matches Some(t) ==> {
                &&& t.schedule_id == schedule.sid()
                &&& t.idx < schedule.nodes().len()
                &&& execution.state_of(t) == State::Pending
            },
            r is None && !limit_reached(old(self).limit(), execution.running()) ==> forall|k: int|
                0 <= k < old(self).queue().len() && #[trigger] old(self).queue()[k] < schedule.nodes().len()
                    ==> execution.state_of(TaskId { schedule_id: schedule.sid(), idx: old(self).queue()[k] })
                    != State::Pending,
    {
        if let Some(limit) = self.max_concurrent {
            if execution.running_count() >= limit {
                return None;
            }
        }
        let ghost c = candidates(self.ready@, *schedule, execution.states());
        let mut best: Option<(usize, &L)> = None;
        let mut idx: usize = 0;
        while idx < self.ready.len()
            invariant
                idx <= self.ready@.len(),
                self.ready@ == old(self).ready@,
                self.max_concurrent == old(self).max_concurrent,
                c == candidates(self.ready@, *schedule, execution.states()),
                match best {
                    None => forall|i: int| 0 <= i < idx ==> c[i] is None,
                    Some((bi, bl)) => bi < idx && c[bi as int] == Some(*bl),
                },
                labels_specified::<L>() ==> best_candidate(c.take(idx as int)) == match best {
                    None => None::<int>,
                    Some((bi, bl)) => Some(bi as int),
                },
            decreases self.ready@.len() - idx,
        {
            let task_idx = self.ready[idx];
            let task_id = schedule.task_id(task_idx);
            assert(c.take(idx + 1).drop_last() == c.take(idx as int));
            if execution.state(task_id).is_pending() && schedule.contains_task(task_idx) {
                let label = schedule.task_label(task_id);
                match best {
                    None => {
                        best = Some((idx, label));
                    },
                    Some((best_idx, best_label)) => {
                        if label.gt(best_label) || (label.eq(best_label) && idx > best_idx) {
                            best = Some((idx, label));
                        }
                    },
                }
            }
            idx = idx + 1;
        }
        assert(c.take(idx as int) == c);
        proof {
            lemma_best_candidate_is_some(c);
            lemma_best_candidate_is_highest(c);
        }
        match best {
            None => {
                assert forall|k: int|
                    0 <= k < old(self).queue().len() && #[trigger] old(self).queue()[k] < schedule.nodes().len()
                        implies execution.state_of(TaskId { schedule_id: schedule.sid(), idx: old(self).queue()[k] })
                        != State::Pending by {
                    assert(c[k] is None);
                }
                None
            },
            Some((best_idx, best_label)) => {
                let task_idx = self.ready.remove(best_idx);
                Some(schedule.task_id(task_idx))
            },
        }
    }
}

} // verus!
