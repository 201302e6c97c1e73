//! The built-in policies start only tasks whose dependencies all succeeded.
//!
//! The executor announces a task as ready only once its dependency counter is zero, and a FIFO
//! or priority policy answers only entries of its ready list whose task is still pending. So
//! while every pending entry of the ready list has a zero counter (`queue_ready`), the task that
//! a step starts has all its dependencies succeeded; `begin_run` makes that so, and every later
//! step keeps it.

use crate::dag::{neighbors_in_order, Dir, TaskId};
use crate::executor::{
    announced_zero, calls_applied, call_steps, initially_ready, lemma_ready_after_dependencies, no_reset_since,
    policy_follows, ready_kept, PolicyCall, PolicyExecutor,
};
use crate::policy::{best_candidate, candidates, first_pending, labels_specified, lemma_best_candidate_is_some, limit_reached, Fifo, Policy, Priority};
use crate::schedule::Schedule;
use crate::task::State;
use vstd::prelude::*;

verus! {

/// The ready list of a FIFO or priority policy after the hook calls `calls`, starting from `q`:
/// `reset` empties it, `on_task_ready` appends the task, the other hooks leave it alone.
pub open spec fn queue_after(q: Seq<usize>, calls: Seq<PolicyCall>) -> Seq<usize>
    decreases calls.len(),
{
    if calls.len() == 0 {
        q
    } else {
        let r = queue_after(q, calls.drop_last());
        match calls.last() {
            PolicyCall::Reset => Seq::empty(),
            PolicyCall::Ready(t) => r.push(t.idx),
            _ => r,
        }
    }
}

/// The indices of the first `k` tasks that have no incoming edge, in index order.
pub open spec fn roots_in_order(edges: Seq<(usize, usize)>, k: nat) -> Seq<usize>
    decreases k,
{
    if k == 0 {
        Seq::empty()
    } else {
        let i = (k - 1) as usize;
        roots_in_order(edges, (k - 1) as nat) + if neighbors_in_order(edges, i, Dir::Incoming).len() == 0 {
            seq![i]
        } else {
            Seq::empty()
        }
    }
}

/// The tasks without dependencies, in order: every listed index is below `k` and has no incoming
/// edge, every such index is listed, and the indices strictly increase.
pub proof fn lemma_roots_in_order_members(edges: Seq<(usize, usize)>, k: nat)
    requires
        k <= usize::MAX,
    ensures
        forall|j: int|
            0 <= j < roots_in_order(edges, k).len() ==> {
                let i = #[trigger] roots_in_order(edges, k)[j];
                &&& i < k
                &&& neighbors_in_order(edges, i, Dir::Incoming).len() == 0
            },
        forall|i: usize|
            i < k && #[trigger] neighbors_in_order(edges, i, Dir::Incoming).len() == 0 ==> exists|j: int|
                0 <= j < roots_in_order(edges, k).len() && roots_in_order(edges, k)[j] == i,
        forall|a: int, b: int|
            0 <= a < b < roots_in_order(edges, k).len() ==> roots_in_order(edges, k)[a] < roots_in_order(edges, k)[b],
    decreases k,
{
    if k > 0 {
        let k1 = (k - 1) as nat;
        lemma_roots_in_order_members(edges, k1);
        let rest = roots_in_order(edges, k1);
        let all = roots_in_order(edges, k);
        assert forall|j: int| 0 <= j < rest.len() implies all[j] == rest[j] by {}
        assert forall|i: usize|
            i < k && #[trigger] neighbors_in_order(edges, i, Dir::Incoming).len() == 0 implies exists|j: int|
                0 <= j < all.len() && all[j] == i by {
            if i < k1 {
                let j = choose|j: int| 0 <= j < rest.len() && rest[j] == i;
                assert(all[j] == i);
            } else {
                assert(all[rest.len() as int] == i);
            }
        }
    }
}

/// Running the hook calls `a` and then `b` is running `a + b`.
proof fn lemma_queue_after_concat(q: Seq<usize>, a: Seq<PolicyCall>, b: Seq<PolicyCall>)
    ensures
        queue_after(q, a + b) == queue_after(queue_after(q, a), b),
    decreases b.len(),
{
    if b.len() == 0 {
        assert(a + b == a);
    } else {
        lemma_queue_after_concat(q, a, b.drop_last());
        assert((a + b).drop_last() == a + b.drop_last());
        assert((a + b).last() == b.last());
    }
}

/// The announcements with which a run starts append the tasks without incoming edges, in
/// index order.
proof fn lemma_queue_after_initially_ready(q: Seq<usize>, sid: u64, edges: Seq<(usize, usize)>, k: nat)
    ensures
        queue_after(q, initially_ready(sid, edges, k)) == q + roots_in_order(edges, k),
    decreases k,
{
    if k == 0 {
        assert(q + Seq::<usize>::empty() == q);
    } else {
        let i = (k - 1) as usize;
        let prev = initially_ready(sid, edges, (k - 1) as nat);
        let tail = if neighbors_in_order(edges, i, Dir::Incoming).len() == 0 {
            seq![PolicyCall::Ready(TaskId { schedule_id: sid, idx: i })]
        } else {
            Seq::empty()
        };
        lemma_queue_after_initially_ready(q, sid, edges, (k - 1) as nat);
        lemma_queue_after_concat(q, prev, tail);
        if tail.len() == 1 {
            assert(tail.drop_last() == Seq::<PolicyCall>::empty());
            assert(queue_after(q + roots_in_order(edges, (k - 1) as nat), tail) == queue_after(
                q + roots_in_order(edges, (k - 1) as nat),
                Seq::<PolicyCall>::empty(),
            ).push(i));
        }
        assert(q + roots_in_order(edges, k) == q + roots_in_order(edges, (k - 1) as nat) + if neighbors_in_order(
            edges,
            i,
            Dir::Incoming,
        ).len() == 0 {
            seq![i]
        } else {
            Seq::<usize>::empty()
        });
    }
}

/// The ready list left by the calls with which a run starts: the tasks without incoming edges,
/// in index order, whatever the list held before.
proof fn lemma_queue_after_run_start(q: Seq<usize>, sid: u64, edges: Seq<(usize, usize)>, k: nat)
    ensures
        queue_after(q, seq![PolicyCall::Reset] + initially_ready(sid, edges, k)) == roots_in_order(edges, k),
{
    lemma_queue_after_concat(q, seq![PolicyCall::Reset], initially_ready(sid, edges, k));
    assert(seq![PolicyCall::Reset].drop_last() == Seq::<PolicyCall>::empty());
    lemma_queue_after_initially_ready(Seq::empty(), sid, edges, k);
    assert(Seq::<usize>::empty() + roots_in_order(edges, k) == roots_in_order(edges, k));
}

/// `x` was announced ready by one of `calls`, or it was in `q` and `calls` hold no `reset`.
pub open spec fn came_from(x: usize, q: Seq<usize>, calls: Seq<PolicyCall>) -> bool {
    ||| exists|j: int| 0 <= j < calls.len() && (#[trigger] calls[j]) is Ready && calls[j]->Ready_0.idx == x
    ||| (forall|j: int| 0 <= j < calls.len() ==> !(#[trigger] calls[j] is Reset)) && q.contains(x)
}

/// Every entry of the ready list after `calls` came from `q` or from an announcement.
pub proof fn lemma_queue_after_entries(q: Seq<usize>, calls: Seq<PolicyCall>)
    ensures
        forall|i: int| 0 <= i < queue_after(q, calls).len() ==> came_from(#[trigger] queue_after(q, calls)[i], q, calls),
    decreases calls.len(),
{
    if calls.len() > 0 {
        let prev = calls.drop_last();
        lemma_queue_after_entries(q, prev);
        let r = queue_after(q, prev);
        assert forall|i: int| 0 <= i < queue_after(q, calls).len() implies came_from(
            #[trigger] queue_after(q, calls)[i],
            q,
            calls,
        ) by {
            let x = queue_after(q, calls)[i];
            let last = calls.len() - 1;
            if calls.last() is Ready && i == r.len() {
                assert(calls[last] is Ready && calls[last]->Ready_0.idx == x);
            } else {
                assert(x == r[i]);
                assert(came_from(x, q, prev));
                if exists|j: int| 0 <= j < prev.len() && (#[trigger] prev[j]) is Ready && prev[j]->Ready_0.idx == x {
                    let j = choose|j: int| 0 <= j < prev.len() && (#[trigger] prev[j]) is Ready && prev[j]->Ready_0.idx == x;
                    assert(calls[j] == prev[j]);
                } else {
                    assert forall|j: int| 0 <= j < calls.len() implies !(#[trigger] calls[j] is Reset) by {
                        if j < prev.len() {
                            assert(calls[j] == prev[j]);
                        }
                    }
                }
            }
        }
    }
}

/// The first pending entry is pending.
pub proof fn lemma_first_pending(q: Seq<usize>, states: spec_fn(TaskId) -> State, sid: u64)
    ensures
        first_pending(q, states, sid) matches Some(j) ==> 0 <= j < q.len() && states(
            TaskId { schedule_id: sid, idx: q[j] },
        ) == State::Pending,
    decreases q.len(),
{
    if q.len() > 0 && states(TaskId { schedule_id: sid, idx: q[0] }) != State::Pending {
        let rest = q.subrange(1, q.len() as int);
        lemma_first_pending(rest, states, sid);
        if let Some(j) = first_pending(rest, states, sid) {
            assert(q[j + 1] == rest[j]);
        }
    }
}

/// Every entry of `q` names a task of the schedule, and a pending one has a zero dependency
/// counter.
pub open spec fn queue_ready<P, L, V, E>(ex: PolicyExecutor<P, L, V, E>, q: Seq<usize>) -> bool {
    forall|i: int|
        0 <= i < q.len() ==> {
            &&& #[trigger] q[i] < ex.sched().nodes().len()
            &&& ex.exec().tasks()[q[i] as int].state == State::Pending ==> q[i] < ex.remaining().len()
                && ex.remaining()[q[i] as int] == 0
        }
}

/// A ready list whose entries came from a ready list of `before` or from announcements logged
/// since position `k` stays ready from `before` to `after`.
pub proof fn lemma_queue_ready_kept<P, L, V, E>(
    before: PolicyExecutor<P, L, V, E>,
    after: PolicyExecutor<P, L, V, E>,
    q_before: Seq<usize>,
    q_after: Seq<usize>,
    k: int,
)
    requires
        before.wf(),
        queue_ready(before, q_before),
        ready_kept(before, after),
        announced_zero(after, k),
        0 <= k <= after.policy_calls().len(),
        forall|i: int|
            0 <= i < q_after.len() ==> came_from(
                #[trigger] q_after[i],
                q_before,
                after.policy_calls().subrange(k, after.policy_calls().len() as int),
            ),
    ensures
        queue_ready(after, q_after),
{
    let seg = after.policy_calls().subrange(k, after.policy_calls().len() as int);
    assert forall|i: int| 0 <= i < q_after.len() implies {
        &&& #[trigger] q_after[i] < after.sched().nodes().len()
        &&& after.exec().tasks()[q_after[i] as int].state == State::Pending ==> q_after[i] < after.remaining().len()
            && after.remaining()[q_after[i] as int] == 0
    } by {
        let x = q_after[i];
        assert(came_from(x, q_before, seg));
        if exists|j: int| 0 <= j < seg.len() && (#[trigger] seg[j]) is Ready && seg[j]->Ready_0.idx == x {
            let j = choose|j: int| 0 <= j < seg.len() && (#[trigger] seg[j]) is Ready && seg[j]->Ready_0.idx == x;
            assert(after.policy_calls()[k + j] == seg[j]);
        } else {
            let i0 = choose|i0: int| 0 <= i0 < q_before.len() && q_before[i0] == x;
            assert(q_before[i0] < before.sched().nodes().len());
            if after.exec().tasks()[x as int].state == State::Pending {
                assert(before.exec().tasks()[x as int].state == State::Pending);
            }
        }
    }
}

/// A FIFO policy's ready list follows `queue_after`.
pub proof fn lemma_fifo_queue_after<L>(p: Fifo, q: Fifo, calls: Seq<PolicyCall>, schedule: Schedule<L>)
    requires
        calls_applied::<L, Fifo>(p, q, calls, schedule),
    ensures
        q.queue() == queue_after(p.queue(), calls),
        q.limit() == p.limit(),
{
    let ms = choose|ms: Seq<Fifo>| #[trigger] call_steps::<L, Fifo>(p, q, ms, calls, schedule);
    lemma_fifo_steps(p, ms, calls, schedule, calls.len() as int);
    assert(calls.take(calls.len() as int) == calls);
}

proof fn lemma_fifo_steps<L>(p: Fifo, ms: Seq<Fifo>, calls: Seq<PolicyCall>, schedule: Schedule<L>, k: int)
    requires
        call_steps::<L, Fifo>(p, ms[calls.len() as int], ms, calls, schedule),
        0 <= k <= calls.len(),
    ensures
        ms[k].queue() == queue_after(p.queue(), calls.take(k)),
        ms[k].limit() == p.limit(),
    decreases k,
{
    if k > 0 {
        lemma_fifo_steps(p, ms, calls, schedule, k - 1);
        assert(calls.take(k).drop_last() == calls.take(k - 1));
        assert(calls.take(k).last() == calls[k - 1]);
        assert(crate::executor::call_post::<L, Fifo>(ms[k - 1], ms[k], calls[k - 1], schedule));
    } else {
        assert(calls.take(0) == Seq::<PolicyCall>::empty());
    }
}

/// A priority policy's ready list follows `queue_after`.
pub proof fn lemma_priority_queue_after<L: Ord>(p: Priority, q: Priority, calls: Seq<PolicyCall>, schedule: Schedule<L>)
    requires
        calls_applied::<L, Priority>(p, q, calls, schedule),
    ensures
        q.queue() == queue_after(p.queue(), calls),
        q.limit() == p.limit(),
{
    let ms = choose|ms: Seq<Priority>| #[trigger] call_steps::<L, Priority>(p, q, ms, calls, schedule);
    lemma_priority_steps(p, ms, calls, schedule, calls.len() as int);
    assert(calls.take(calls.len() as int) == calls);
}

proof fn lemma_priority_steps<L: Ord>(p: Priority, ms: Seq<Priority>, calls: Seq<PolicyCall>, schedule: Schedule<L>, k: int)
    requires
        call_steps::<L, Priority>(p, ms[calls.len() as int], ms, calls, schedule),
        0 <= k <= calls.len(),
    ensures
        ms[k].queue() == queue_after(p.queue(), calls.take(k)),
        ms[k].limit() == p.limit(),
    decreases k,
{
    if k > 0 {
        lemma_priority_steps(p, ms, calls, schedule, k - 1);
        assert(calls.take(k).drop_last() == calls.take(k - 1));
        assert(calls.take(k).last() == calls[k - 1]);
        assert(crate::executor::call_post::<L, Priority>(ms[k - 1], ms[k], calls[k - 1], schedule));
    } else {
        assert(calls.take(0) == Seq::<PolicyCall>::empty());
    }
}

/// `begin_run` leaves a FIFO policy with the tasks without dependencies as its ready list, in
/// index order; each of them has a zero counter.
pub proof fn lemma_fifo_ready_after_begin_run<L, V, E>(
    before: PolicyExecutor<Fifo, L, V, E>,
    after: PolicyExecutor<Fifo, L, V, E>,
)
    requires
        after.sched() == before.sched(),
        after.policy_calls() == before.policy_calls().push(PolicyCall::Reset) + initially_ready(
            before.sched().sid(),
            before.sched().edges(),
            before.sched().nodes().len(),
        ),
        announced_zero(after, before.policy_calls().len() as int),
        policy_follows(after, before.pol(), before.policy_calls().len() as int),
    ensures
        queue_ready(after, after.pol().queue()),
        after.pol().queue() == roots_in_order(after.sched().edges(), after.sched().nodes().len()),
{
    let k = before.policy_calls().len() as int;
    let seg = after.policy_calls().subrange(k, after.policy_calls().len() as int);
    lemma_fifo_queue_after(before.pol(), after.pol(), seg, after.sched());
    lemma_queue_ready_from_reset(after, before.pol().queue(), after.pol().queue(), k);
    assert(seg == seq![PolicyCall::Reset] + initially_ready(
        before.sched().sid(),
        before.sched().edges(),
        before.sched().nodes().len(),
    ));
    lemma_queue_after_run_start(before.pol().queue(), before.sched().sid(), before.sched().edges(), before.sched().nodes().len());
}

/// `begin_run` leaves a priority policy with the tasks without dependencies as its ready list,
/// in index order; each of them has a zero counter.
pub proof fn lemma_priority_ready_after_begin_run<L: Ord, V, E>(
    before: PolicyExecutor<Priority, L, V, E>,
    after: PolicyExecutor<Priority, L, V, E>,
)
    requires
        labels_specified::<L>(),
        after.sched() == before.sched(),
        after.policy_calls() == before.policy_calls().push(PolicyCall::Reset) + initially_ready(
            before.sched().sid(),
            before.sched().edges(),
            before.sched().nodes().len(),
        ),
        announced_zero(after, before.policy_calls().len() as int),
        policy_follows(after, before.pol(), before.policy_calls().len() as int),
    ensures
        queue_ready(after, after.pol().queue()),
        after.pol().queue() == roots_in_order(after.sched().edges(), after.sched().nodes().len()),
{
    let k = before.policy_calls().len() as int;
    let seg = after.policy_calls().subrange(k, after.policy_calls().len() as int);
    lemma_priority_queue_after(before.pol(), after.pol(), seg, after.sched());
    lemma_queue_ready_from_reset(after, before.pol().queue(), after.pol().queue(), k);
    assert(seg == seq![PolicyCall::Reset] + initially_ready(
        before.sched().sid(),
        before.sched().edges(),
        before.sched().nodes().len(),
    ));
    lemma_queue_after_run_start(before.pol().queue(), before.sched().sid(), before.sched().edges(), before.sched().nodes().len());
}

/// A ready list rebuilt from a `reset` logged at position `k` holds only announced tasks.
proof fn lemma_queue_ready_from_reset<P, L, V, E>(ex: PolicyExecutor<P, L, V, E>, q0: Seq<usize>, q: Seq<usize>, k: int)
    requires
        0 <= k < ex.policy_calls().len(),
        ex.policy_calls()[k] == PolicyCall::Reset,
        announced_zero(ex, k),
        q == queue_after(q0, ex.policy_calls().subrange(k, ex.policy_calls().len() as int)),
    ensures
        queue_ready(ex, q),
{
    let seg = ex.policy_calls().subrange(k, ex.policy_calls().len() as int);
    lemma_queue_after_entries(q0, seg);
    assert forall|i: int| 0 <= i < q.len() implies {
        &&& #[trigger] q[i] < ex.sched().nodes().len()
        &&& ex.exec().tasks()[q[i] as int].state == State::Pending ==> q[i] < ex.remaining().len()
            && ex.remaining()[q[i] as int] == 0
    } by {
        let x = q[i];
        assert(came_from(x, q0, seg));
        assert(seg[0] is Reset);
        let j = choose|j: int| 0 <= j < seg.len() && (#[trigger] seg[j]) is Ready && seg[j]->Ready_0.idx == x;
        assert(ex.policy_calls()[k + j] == seg[j]);
    }
}

/// The hooks run by `task_unavailable` and `task_completed` keep a FIFO policy's ready list
/// ready.
pub proof fn lemma_fifo_ready_after_completion<L, V, E>(
    before: PolicyExecutor<Fifo, L, V, E>,
    after: PolicyExecutor<Fifo, L, V, E>,
)
    requires
        before.wf(),
        queue_ready(before, before.pol().queue()),
        ready_kept(before, after),
        announced_zero(after, before.policy_calls().len() as int),
        no_reset_since(after, before.policy_calls().len() as int),
        policy_follows(after, before.pol(), before.policy_calls().len() as int),
    ensures
        queue_ready(after, after.pol().queue()),
{
    let k = before.policy_calls().len() as int;
    let seg = after.policy_calls().subrange(k, after.policy_calls().len() as int);
    lemma_fifo_queue_after(before.pol(), after.pol(), seg, after.sched());
    lemma_queue_after_entries(before.pol().queue(), seg);
    lemma_no_reset_segment(after, k);
    lemma_queue_ready_kept(before, after, before.pol().queue(), after.pol().queue(), k);
}

/// The hooks run by `task_unavailable` and `task_completed` keep a priority policy's ready list
/// ready.
pub proof fn lemma_priority_ready_after_completion<L: Ord, V, E>(
    before: PolicyExecutor<Priority, L, V, E>,
    after: PolicyExecutor<Priority, L, V, E>,
)
    requires
        labels_specified::<L>(),
        before.wf(),
        queue_ready(before, before.pol().queue()),
        ready_kept(before, after),
        announced_zero(after, before.policy_calls().len() as int),
        no_reset_since(after, before.policy_calls().len() as int),
        policy_follows(after, before.pol(), before.policy_calls().len() as int),
    ensures
        queue_ready(after, after.pol().queue()),
{
    let k = before.policy_calls().len() as int;
    let seg = after.policy_calls().subrange(k, after.policy_calls().len() as int);
    lemma_priority_queue_after(before.pol(), after.pol(), seg, after.sched());
    lemma_queue_after_entries(before.pol().queue(), seg);
    lemma_no_reset_segment(after, k);
    lemma_queue_ready_kept(before, after, before.pol().queue(), after.pol().queue(), k);
}

proof fn lemma_no_reset_segment<P, L, V, E>(ex: PolicyExecutor<P, L, V, E>, k: int)
    requires
        0 <= k <= ex.policy_calls().len(),
        no_reset_since(ex, k),
    ensures
        forall|j: int|
            0 <= j < ex.policy_calls().subrange(k, ex.policy_calls().len() as int).len() ==> !(
            #[trigger] ex.policy_calls().subrange(k, ex.policy_calls().len() as int)[j] is Reset),
{
    assert forall|j: int|
        0 <= j < ex.policy_calls().subrange(k, ex.policy_calls().len() as int).len() implies !(
        #[trigger] ex.policy_calls().subrange(k, ex.policy_calls().len() as int)[j] is Reset) by {
        assert(ex.policy_calls().subrange(k, ex.policy_calls().len() as int)[j] == ex.policy_calls()[k + j]);
    }
}

/// A ready list whose entries all occur in a ready list of `before` stays ready when nothing is
/// announced.
proof fn lemma_queue_ready_subset<P, L, V, E>(
    before: PolicyExecutor<P, L, V, E>,
    after: PolicyExecutor<P, L, V, E>,
    q_before: Seq<usize>,
    q_after: Seq<usize>,
)
    requires
        before.wf(),
        queue_ready(before, q_before),
        ready_kept(before, after),
        forall|i: int| 0 <= i < q_after.len() ==> q_before.contains(#[trigger] q_after[i]),
    ensures
        queue_ready(after, q_after),
{
    let k = after.policy_calls().len() as int;
    let seg = after.policy_calls().subrange(k, k);
    assert(seg.len() == 0);
    assert forall|i: int| 0 <= i < q_after.len() implies came_from(#[trigger] q_after[i], q_before, seg) by {
        assert(q_before.contains(q_after[i]));
    }
    lemma_queue_ready_kept(before, after, q_before, q_after, k);
}

/// A step of the executor keeps a FIFO policy's ready list ready.
pub proof fn lemma_fifo_ready_after_step<L, V, E>(
    before: PolicyExecutor<Fifo, L, V, E>,
    after: PolicyExecutor<Fifo, L, V, E>,
    s: crate::executor::Step,
)
    requires
        before.wf(),
        queue_ready(before, before.pol().queue()),
        ready_kept(before, after),
        !before.asking() && before.exec().unfinished() == 0 ==> after == before,
        before.asking() || before.exec().unfinished() > 0 ==> exists|mid: Fifo|
            {
                &&& Policy::<L>::next_task_post(
                    &before.pol(),
                    mid,
                    before.sched(),
                    before.exec().running(),
                    before.exec().states(),
                )
                &&& if s is Start {
                    Policy::<L>::started_post(&mid, after.pol(), s->Start_0, before.sched())
                } else {
                    after.pol() == mid
                }
            },
    ensures
        queue_ready(after, after.pol().queue()),
{
    if before.asking() || before.exec().unfinished() > 0 {
        let mid = choose|mid: Fifo|
            {
                &&& Policy::<L>::next_task_post(
                    &before.pol(),
                    mid,
                    before.sched(),
                    before.exec().running(),
                    before.exec().states(),
                )
                &&& if s is Start {
                    Policy::<L>::started_post(&mid, after.pol(), s->Start_0, before.sched())
                } else {
                    after.pol() == mid
                }
            };
        let q = before.pol().queue();
        assert(after.pol().queue() == mid.queue());
        assert forall|i: int| 0 <= i < mid.queue().len() implies q.contains(#[trigger] mid.queue()[i]) by {
            if !limit_reached(before.pol().limit(), before.exec().running()) {
                if let Some(j) = first_pending(q, before.exec().states(), before.sched().sid()) {
                    lemma_first_pending(q, before.exec().states(), before.sched().sid());
                    assert(mid.queue()[i] == q[j + 1 + i]);
                }
            } else {
                assert(mid.queue()[i] == q[i]);
            }
        }
        lemma_queue_ready_subset(before, after, q, after.pol().queue());
    }
}

/// A step of the executor keeps a priority policy's ready list ready.
pub proof fn lemma_priority_ready_after_step<L: Ord, V, E>(
    before: PolicyExecutor<Priority, L, V, E>,
    after: PolicyExecutor<Priority, L, V, E>,
    s: crate::executor::Step,
)
    requires
        before.wf(),
        queue_ready(before, before.pol().queue()),
        ready_kept(before, after),
        !before.asking() && before.exec().unfinished() == 0 ==> after == before,
        before.asking() || before.exec().unfinished() > 0 ==> exists|mid: Priority|
            {
                &&& Policy::<L>::next_task_post(
                    &before.pol(),
                    mid,
                    before.sched(),
                    before.exec().running(),
                    before.exec().states(),
                )
                &&& if s is Start {
                    Policy::<L>::started_post(&mid, after.pol(), s->Start_0, before.sched())
                } else {
                    after.pol() == mid
                }
            },
    ensures
        queue_ready(after, after.pol().queue()),
{
    if before.asking() || before.exec().unfinished() > 0 {
        let mid = choose|mid: Priority|
            {
                &&& Policy::<L>::next_task_post(
                    &before.pol(),
                    mid,
                    before.sched(),
                    before.exec().running(),
                    before.exec().states(),
                )
                &&& if s is Start {
                    Policy::<L>::started_post(&mid, after.pol(), s->Start_0, before.sched())
                } else {
                    after.pol() == mid
                }
            };
        let q = before.pol().queue();
        let c = candidates(q, before.sched(), before.exec().states());
        assert(after.pol().queue() == mid.queue());
        assert forall|i: int| 0 <= i < mid.queue().len() implies q.contains(#[trigger] mid.queue()[i]) by {
            if !limit_reached(before.pol().limit(), before.exec().running()) {
                if let Some(bi) = best_candidate(c) {
                    lemma_best_candidate_is_some(c);
                    if i < bi {
                        assert(mid.queue()[i] == q[i]);
                    } else {
                        assert(mid.queue()[i] == q[i + 1]);
                    }
                } else {
                    assert(mid.queue()[i] == q[i]);
                }
            } else {
                assert(mid.queue()[i] == q[i]);
            }
        }
        lemma_queue_ready_subset(before, after, q, after.pol().queue());
    }
}

/// A FIFO policy starts only tasks whose dependencies all succeeded: while the dependency
/// counters are right and its ready list is ready, the task it answers is a pending task of the
/// schedule whose dependencies have all succeeded, and `next_step` starts exactly that task.
pub proof fn lemma_fifo_answer_ready<L, V, E>(ex: PolicyExecutor<Fifo, L, V, E>)
    requires
        ex.wf(),
        ex.ready_inv(),
        queue_ready(ex, ex.pol().queue()),
    ensures
        Policy::<L>::next_task_spec(&ex.pol(), ex.sched(), ex.exec().running(), ex.exec().states()) matches Some(t)
            ==> {
            &&& t.schedule_id == ex.sched().sid()
            &&& t.idx < ex.sched().nodes().len()
            &&& ex.exec().tasks()[t.idx as int].state == State::Pending
            &&& forall|j: int|
                0 <= j < ex.sched().nodes()[t.idx as int].dependencies@.len() ==> ex.exec().state_of(
                    #[trigger] ex.sched().nodes()[t.idx as int].dependencies@[j],
                ) == State::Succeeded
        },
{
    let q = ex.pol().queue();
    lemma_first_pending(q, ex.exec().states(), ex.sched().sid());
    if let Some(t) = Policy::<L>::next_task_spec(&ex.pol(), ex.sched(), ex.exec().running(), ex.exec().states()) {
        let j = first_pending(q, ex.exec().states(), ex.sched().sid())->Some_0;
        assert(q[j] < ex.sched().nodes().len());
        assert(ex.exec().state_of(TaskId { schedule_id: ex.sched().sid(), idx: q[j] }) == State::Pending);
        lemma_ready_after_dependencies(ex, t.idx);
    }
}

/// A priority policy starts only tasks whose dependencies all succeeded: while the dependency
/// counters are right and its ready list is ready, the task it answers is a pending task of the
/// schedule whose dependencies have all succeeded, and `next_step` starts exactly that task.
pub proof fn lemma_priority_answer_ready<L: Ord, V, E>(ex: PolicyExecutor<Priority, L, V, E>)
    requires
        ex.wf(),
        ex.ready_inv(),
        queue_ready(ex, ex.pol().queue()),
    ensures
        Policy::<L>::next_task_spec(&ex.pol(), ex.sched(), ex.exec().running(), ex.exec().states()) matches Some(t)
            ==> {
            &&& t.schedule_id == ex.sched().sid()
            &&& t.idx < ex.sched().nodes().len()
            &&& ex.exec().tasks()[t.idx as int].state == State::Pending
            &&& forall|j: int|
                0 <= j < ex.sched().nodes()[t.idx as int].dependencies@.len() ==> ex.exec().state_of(
                    #[trigger] ex.sched().nodes()[t.idx as int].dependencies@[j],
                ) == State::Succeeded
        },
{
    let q = ex.pol().queue();
    let c = candidates(q, ex.sched(), ex.exec().states());
    lemma_best_candidate_is_some(c);
    if let Some(t) = Policy::<L>::next_task_spec(&ex.pol(), ex.sched(), ex.exec().running(), ex.exec().states()) {
        let bi = best_candidate(c)->Some_0;
        assert(c[bi] is Some);
        assert(q[bi] < ex.sched().nodes().len());
        lemma_ready_after_dependencies(ex, t.idx);
    }
}

} // verus!
