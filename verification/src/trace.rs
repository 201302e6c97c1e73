//! Execution traces: when each executed task started and ended.
//!
//! Times in a trace are nanoseconds since the trace's start time.

use crate::dag::TaskId;
use std::time::{Duration, Instant};
use vstd::prelude::*;

verus! {

/// `Instant::now`: the current time of the monotonic clock; nothing is promised of its value.
#[verifier::external_body]
fn instant_now() -> Instant {
    Instant::now()
}

/// A traced task.
#[derive(Debug, Clone, PartialEq)]
pub struct Task {
    /// Human-readable label used for debugging and rendering.
    pub label: String,
    /// Start time, in nanoseconds since the start of the trace.
    pub start: u64,
    /// End time, in nanoseconds since the start of the trace.
    pub end: u64,
}

impl Task {
    /// Duration of the traced task in nanoseconds; zero if it ended before it started.
    pub fn duration(&self) -> (r: u64)
        ensures
            r == (if self.end >= self.start { (self.end - self.start) as u64 } else { 0 }),
    {
        self.end.saturating_sub(self.start)
    }
}

/// `r` is `orig` reordered by `perm` (position in `r` to position in `orig`) so that start
/// times never decrease, tasks with equal start times keeping their relative order.
pub open spec fn chronological<T>(orig: Seq<(T, Task)>, r: Seq<(T, Task)>, perm: Seq<int>) -> bool {
    &&& r.len() == orig.len()
    &&& perm.len() == r.len()
    &&& forall|i: int| 0 <= i < perm.len() ==> 0 <= #[trigger] perm[i] < orig.len()
    &&& forall|i: int, j: int| 0 <= i < j < perm.len() ==> perm[i] != perm[j]
    &&& forall|i: int| 0 <= i < r.len() ==> #[trigger] r[i] == orig[perm[i]]
    &&& forall|i: int, j: int| 0 <= i < j < r.len() ==> r[i].1.start <= r[j].1.start
    &&& forall|i: int, j: int| 0 <= i < j < r.len() && r[i].1.start == r[j].1.start ==> perm[i] < perm[j]
}

/// The time at which the traced task `t` was last seen: its end, or its start if it ended
/// before it started.
pub open spec fn last_seen(t: Task) -> u64 {
    if t.end >= t.start {
        t.end
    } else {
        t.start
    }
}

/// The latest time at which one of `tasks` was last seen; zero without tasks.
pub open spec fn latest_of<T>(tasks: Seq<(T, Task)>) -> u64
    decreases tasks.len(),
{
    if tasks.len() == 0 {
        0
    } else {
        let m = latest_of(tasks.drop_last());
        let e = last_seen(tasks.last().1);
        if e > m {
            e
        } else {
            m
        }
    }
}

/// The latest time of a trace is the largest time at which one of its tasks was last seen, and
/// zero for an empty trace.
pub proof fn lemma_latest_of_is_max<T>(tasks: Seq<(T, Task)>)
    ensures
        forall|j: int| 0 <= j < tasks.len() ==> last_seen(#[trigger] tasks[j].1) <= latest_of(tasks),
        tasks.len() == 0 ==> latest_of(tasks) == 0,
        tasks.len() > 0 ==> exists|j: int| 0 <= j < tasks.len() && latest_of(tasks) == last_seen(#[trigger] tasks[j].1),
    decreases tasks.len(),
{
    if tasks.len() > 0 {
        let d = tasks.drop_last();
        lemma_latest_of_is_max(d);
        assert forall|j: int| 0 <= j < d.len() implies d[j] == tasks[j] by {}
        if d.len() > 0 {
            let j = choose|j: int| 0 <= j < d.len() && latest_of(d) == last_seen(#[trigger] d[j].1);
            assert(latest_of(d) == last_seen(tasks[j].1));
        }
        assert(last_seen(tasks[tasks.len() - 1].1) == last_seen(tasks.last().1));
    }
}

/// An execution trace of tasks.
#[derive(Debug)]
pub struct Trace<T> {
    /// Wall-clock start time of the trace.
    pub start_time: Instant,
    /// Completed tasks and their traced timing information, in completion order.
    pub tasks: Vec<(T, Task)>,
}

impl<T> Default for Trace<T> {
    fn default() -> (r: Self)
        ensures
            r.tasks@ == Seq::<(T, Task)>::empty(),
    {
        Self::new()
    }
}

impl<T> Trace<T> {
    /// Creates an empty trace that starts now.
    pub fn new() -> (r: Self)
        ensures
            r.tasks@ == Seq::<(T, Task)>::empty(),
    {
        Trace { start_time: instant_now(), tasks: Vec::new() }
    }

    /// The time at which the last traced task ended (a task that ended before it started
    /// counts at its start); zero for an empty trace. It is the length of the whole trace.
    pub fn latest_end(&self) -> (r: u64)
        ensures
            r == latest_of(self.tasks@),
    {
        let mut latest: u64 = 0;
        let mut i: usize = 0;
        while i < self.tasks.len()
            invariant
                i <= self.tasks@.len(),
                latest == latest_of(self.tasks@.take(i as int)),
            decreases self.tasks@.len() - i,
        {
            assert(self.tasks@.take(i + 1).drop_last() == self.tasks@.take(i as int));
            let t = &self.tasks[i].1;
            let seen = t.start + t.duration();
            if seen > latest {
                latest = seen;
            }
            i = i + 1;
        }
        assert(self.tasks@.take(i as int) == self.tasks@);
        latest
    }

    /// Sorts the tasks of this trace by their start time; tasks that started at the same time
    /// keep their order.
    pub fn sort_chronologically(&mut self)
        ensures
            final(self).start_time == old(self).start_time,
            exists|perm: Seq<int>| chronological(old(self).tasks@, final(self).tasks@, perm),
    {
        let mut rest: Vec<(T, Task)> = Vec::new();
        std::mem::swap(&mut rest, &mut self.tasks);
        let ghost orig = rest@;
        let mut sorted: Vec<(T, Task)> = Vec::new();
        let ghost mut perm: Seq<int> = Seq::empty();
        while rest.len() > 0
            invariant
                orig == old(self).tasks@,
                self.start_time == old(self).start_time,
                rest@ == orig.take(rest@.len() as int),
                rest@.len() <= orig.len(),
                sorted@.len() + rest@.len() == orig.len(),
                perm.len() == sorted@.len(),
                forall|i: int| 0 <= i < perm.len() ==> rest@.len() <= #[trigger] perm[i] < orig.len(),
                forall|i: int, j: int| 0 <= i < j < perm.len() ==> perm[i] != perm[j],
                forall|i: int| 0 <= i < sorted@.len() ==> #[trigger] sorted@[i] == orig[perm[i]],
                forall|i: int, j: int|
                    0 <= i < j < sorted@.len() ==> sorted@[i].1.start < sorted@[j].1.start || (sorted@[i].1.start
                        == sorted@[j].1.start && perm[i] < perm[j]),
            decreases rest@.len(),
        {
            let x = rest.pop().unwrap();
            let ghost m = rest@.len() as int;
            assert(x == orig[m]);
            let mut p: usize = 0;
            while p < sorted.len() && sorted[p].1.start < x.1.start
                invariant
                    p <= sorted@.len(),
                    forall|q: int| 0 <= q < p ==> sorted@[q].1.start < x.1.start,
                decreases sorted@.len() - p,
            {
                p = p + 1;
            }
            proof {
                if p < sorted@.len() {
                    assert forall|q: int| p <= q < sorted@.len() implies sorted@[q].1.start >= x.1.start by {
                        if q > p {
                            assert(sorted@[p as int].1.start <= sorted@[q].1.start);
                        }
                    }
                }
            }
            let ghost before = sorted@;
            let ghost perm_before = perm;
            sorted.insert(p, x);
            proof {
                perm = perm.insert(p as int, m);
                assert forall|i: int| 0 <= i < sorted@.len() implies #[trigger] sorted@[i] == orig[perm[i]] by {
                    if i < p {
                        assert(sorted@[i] == before[i]);
                    } else if i > p {
                        assert(sorted@[i] == before[i - 1]);
                    }
                }
                assert forall|i: int, j: int| 0 <= i < j < perm.len() implies perm[i] != perm[j] by {
                    if i < p && j > p {
                        assert(perm[j] == perm_before[j - 1]);
                    } else if i > p {
                        assert(perm[i] == perm_before[i - 1]);
                        assert(perm[j] == perm_before[j - 1]);
                    }
                }
                assert forall|i: int, j: int|
                    0 <= i < j < sorted@.len() implies sorted@[i].1.start < sorted@[j].1.start || (sorted@[i].1.start
                        == sorted@[j].1.start && perm[i] < perm[j]) by {
                    if j == p {
                        assert(sorted@[i] == before[i]);
                    } else if i == p {
                        assert(sorted@[j] == before[j - 1]);
                        assert(perm[j] == perm_before[j - 1]);
                    } else if j < p {
                        assert(sorted@[i] == before[i] && sorted@[j] == before[j]);
                    } else if i < p {
                        assert(sorted@[i] == before[i] && sorted@[j] == before[j - 1]);
                        assert(perm[j] == perm_before[j - 1]);
                    } else {
                        assert(sorted@[i] == before[i - 1] && sorted@[j] == before[j - 1]);
                        assert(perm[i] == perm_before[i - 1] && perm[j] == perm_before[j - 1]);
                    }
                }
            }
        }
        self.tasks = sorted;
        proof {
            assert(chronological(orig, self.tasks@, perm));
        }
    }
}


/// A task starting or ending at a time, in nanoseconds since the start of the trace.
#[derive(Debug, Clone, Copy, PartialEq, Eq, Structural)]
pub enum Event {
    Start(u64),
    End(u64),
}

impl Event {
    /// The time at which the event happened.
    pub open spec fn at(self) -> u64 {
        match self {
            Event::Start(t) => t,
            Event::End(t) => t,
        }
    }

    /// Returns the timestamp associated with this event.
    pub fn time(&self) -> (r: u64)
        ensures
            r == self.at(),
    {
        match self {
            Event::Start(t) => *t,
            Event::End(t) => *t,
        }
    }
}

/// The events of a trace before ordering: for each task in turn, its start and then its end.
pub open spec fn task_events(tasks: Seq<(TaskId, Task)>) -> Seq<(TaskId, Event)> {
    Seq::new(
        (2 * tasks.len()) as nat,
        |j: int|
            if j % 2 == 0 {
                (tasks[j / 2].0, Event::Start(tasks[j / 2].1.start))
            } else {
                (tasks[j / 2].0, Event::End(tasks[j / 2].1.end))
            },
    )
}

/// `r` is `orig` reordered by `perm` (position in `r` to position in `orig`) so that event
/// times never decrease, events with equal times keeping their relative order.
pub open spec fn ordered_by_time(
    orig: Seq<(TaskId, Event)>,
    r: Seq<(TaskId, Event)>,
    perm: Seq<int>,
) -> bool {
    &&& r.len() == orig.len()
    &&& perm.len() == r.len()
    &&& forall|i: int| 0 <= i < perm.len() ==> 0 <= #[trigger] perm[i] < orig.len()
    &&& forall|i: int, j: int| 0 <= i < j < perm.len() ==> perm[i] != perm[j]
    &&& forall|i: int| 0 <= i < r.len() ==> #[trigger] r[i] == orig[perm[i]]
    &&& forall|i: int, j: int| 0 <= i < j < r.len() ==> r[i].1.at() <= r[j].1.at()
    &&& forall|i: int, j: int| 0 <= i < j < r.len() && r[i].1.at() == r[j].1.at() ==> perm[i] < perm[j]
}

/// The tasks running after the events `evs` happened in order: a start adds its task, an end
/// removes it.
pub open spec fn running_after(evs: Seq<(TaskId, Event)>) -> Set<TaskId>
    decreases evs.len(),
{
    if evs.len() == 0 {
        Set::empty()
    } else {
        let before = running_after(evs.drop_last());
        match evs.last().1 {
            Event::Start(_) => before.insert(evs.last().0),
            Event::End(_) => before.remove(evs.last().0),
        }
    }
}

/// The largest number of tasks running at once after some non-empty prefix of `evs`; zero for no
/// events.
pub open spec fn max_running(evs: Seq<(TaskId, Event)>) -> nat
    decreases evs.len(),
{
    if evs.len() == 0 {
        0
    } else {
        let m = max_running(evs.drop_last());
        let c = running_after(evs).len();
        if c > m {
            c
        } else {
            m
        }
    }
}

/// The largest number of tasks running at once bounds the number running after every event,
/// and is reached after one of them (zero without events).
pub proof fn lemma_max_running_is_max(evs: Seq<(TaskId, Event)>)
    ensures
        forall|p: int| 1 <= p <= evs.len() ==> (#[trigger] running_after(evs.take(p))).len() <= max_running(evs),
        evs.len() == 0 ==> max_running(evs) == 0,
        evs.len() > 0 ==> exists|p: int| 1 <= p <= evs.len() && max_running(evs) == (#[trigger] running_after(evs.take(p))).len(),
    decreases evs.len(),
{
    if evs.len() > 0 {
        let d = evs.drop_last();
        lemma_max_running_is_max(d);
        assert(evs.take(evs.len() as int) == evs);
        assert forall|p: int| 1 <= p <= d.len() implies evs.take(p) == d.take(p) by {}
        assert forall|p: int| 1 <= p <= evs.len() implies (#[trigger] running_after(evs.take(p))).len() <= max_running(evs) by {
            if p < evs.len() {
                assert(evs.take(p) == d.take(p));
                assert(running_after(d.take(p)).len() <= max_running(d));
            }
        }
        if max_running(evs) == running_after(evs).len() {
            assert(max_running(evs) == running_after(evs.take(evs.len() as int)).len());
        } else {
            let p = choose|p: int| 1 <= p <= d.len() && max_running(d) == (#[trigger] running_after(d.take(p))).len();
            assert(evs.take(p) == d.take(p));
            assert(max_running(evs) == running_after(evs.take(p)).len());
        }
    }
}

/// An iterator over the sets of tasks that run concurrently, one set after each event of the
/// trace (a task start or end), in time order.
pub struct ConcurrentIter {
    events: Vec<(TaskId, Event)>,
    next: usize,
    running: Vec<TaskId>,
}

impl ConcurrentIter {
    /// The events of the trace, in the order in which the iterator visits them.
    pub closed spec fn events(&self) -> Seq<(TaskId, Event)> {
        self.events@
    }

    /// How many events the iterator has visited.
    pub closed spec fn position(&self) -> nat {
        self.next as nat
    }

    /// The iterator's running set is the one after the events it has visited.
    pub closed spec fn wf(&self) -> bool {
        &&& self.next <= self.events@.len()
        &&& self.running@.no_duplicates()
        &&& self.running@.to_set() == running_after(self.events@.take(self.next as int))
    }

    /// Creates a new iterator over concurrency sets for the given trace tasks.
    pub fn new(tasks: &[(TaskId, Task)]) -> (r: Self)
        ensures
            r.wf(),
            r.position() == 0,
            exists|perm: Seq<int>| ordered_by_time(task_events(tasks@), r.events(), perm),
    {
        let ghost orig = task_events(tasks@);
        let mut rest: Vec<(TaskId, Event)> = Vec::new();
        let mut i: usize = 0;
        while i < tasks.len()
            invariant
                orig == task_events(tasks@),
                i <= tasks@.len(),
                rest@ == orig.take(2 * i),
            decreases tasks@.len() - i,
        {
            let k = tasks[i].0;
            let start = tasks[i].1.start;
            let end = tasks[i].1.end;
            rest.push((k, Event::Start(start)));
            rest.push((k, Event::End(end)));
            proof {
                assert(rest@ =~= orig.take(2 * i + 2)) by {
                    assert forall|j: int| 0 <= j < 2 * i + 2 implies #[trigger] rest@[j] == orig[j] by {
                        if j >= 2 * i {
                            assert(j / 2 == i);
                        }
                    }
                }
            }
            i = i + 1;
        }
        assert(rest@ =~= orig);
        let mut sorted: Vec<(TaskId, Event)> = Vec::new();
        let ghost mut perm: Seq<int> = Seq::empty();
        while rest.len() > 0
            invariant
                rest@ == orig.take(rest@.len() as int),
                rest@.len() <= orig.len(),
                sorted@.len() + rest@.len() == orig.len(),
                perm.len() == sorted@.len(),
                forall|i: int| 0 <= i < perm.len() ==> rest@.len() <= #[trigger] perm[i] < orig.len(),
                forall|i: int, j: int| 0 <= i < j < perm.len() ==> perm[i] != perm[j],
                forall|i: int| 0 <= i < sorted@.len() ==> #[trigger] sorted@[i] == orig[perm[i]],
                forall|i: int, j: int|
                    0 <= i < j < sorted@.len() ==> sorted@[i].1.at() < sorted@[j].1.at() || (
                    sorted@[i].1.at() == sorted@[j].1.at() && perm[i] < perm[j]),
            decreases rest@.len(),
        {
            let x = rest.pop().unwrap();
            let ghost m = rest@.len() as int;
            assert(x == orig[m]);
            let t = x.1.time();
            let mut p: usize = 0;
            while p < sorted.len() && sorted[p].1.time() < t
                invariant
                    p <= sorted@.len(),
                    t == x.1.at(),
                    forall|q: int| 0 <= q < p ==> sorted@[q].1.at() < t,
                decreases sorted@.len() - p,
            {
                p = p + 1;
            }
            proof {
                if p < sorted@.len() {
                    assert forall|q: int| p <= q < sorted@.len() implies sorted@[q].1.at() >= t by {
                        if q > p {
                            assert(sorted@[p as int].1.at() <= sorted@[q].1.at());
                        }
                    }
                }
            }
            let ghost before = sorted@;
            let ghost perm_before = perm;
            sorted.insert(p, x);
            proof {
                perm = perm.insert(p as int, m);
                assert forall|i: int| 0 <= i < sorted@.len() implies #[trigger] sorted@[i] == orig[perm[i]] by {
                    if i < p {
                        assert(sorted@[i] == before[i]);
                    } else if i > p {
                        assert(sorted@[i] == before[i - 1]);
                    }
                }
                assert forall|i: int, j: int| 0 <= i < j < perm.len() implies perm[i] != perm[j] by {
                    if i < p && j > p {
                        assert(perm[j] == perm_before[j - 1]);
                    } else if i > p {
                        assert(perm[i] == perm_before[i - 1]);
                        assert(perm[j] == perm_before[j - 1]);
                    }
                }
                assert forall|i: int, j: int|
                    0 <= i < j < sorted@.len() implies sorted@[i].1.at() < sorted@[j].1.at() || (
                    sorted@[i].1.at() == sorted@[j].1.at() && perm[i] < perm[j]) by {
                    if j == p {
                        assert(sorted@[i] == before[i]);
                    } else if i == p {
                        assert(sorted@[j] == before[j - 1]);
                        assert(perm[j] == perm_before[j - 1]);
                    } else if j < p {
                        assert(sorted@[i] == before[i] && sorted@[j] == before[j]);
                    } else if i < p {
                        assert(sorted@[i] == before[i] && sorted@[j] == before[j - 1]);
                        assert(perm[j] == perm_before[j - 1]);
                    } else {
                        assert(sorted@[i] == before[i - 1] && sorted@[j] == before[j - 1]);
                        assert(perm[i] == perm_before[i - 1] && perm[j] == perm_before[j - 1]);
                    }
                }
            }
        }
        let r = ConcurrentIter { events: sorted, next: 0, running: Vec::new() };
        proof {
            assert(ordered_by_time(orig, r.events(), perm));
            assert(r.events@.take(0) =~= Seq::<(TaskId, Event)>::empty());
            assert(r.running@.to_set() =~= Set::<TaskId>::empty());
        }
        r
    }

    /// Visits the next event and returns the tasks running after it, each once, in no particular
    /// order; `None` once every event has been visited.
    pub fn next(&mut self) -> (r: Option<Vec<TaskId>>)
        requires
            old(self).wf(),
        ensures
            final(self).wf(),
            final(self).events() == old(self).events(),
            old(self).position() < old(self).events().len() ==> {
                &&& final(self).position() == old(self).position() + 1
                &&& r is Some
                &&& r->0@.no_duplicates()
                &&& r->0@.to_set() == running_after(old(self).events().take(old(self).position() + 1int))
            },
            old(self).position() == old(self).events().len() ==> r is None && final(self).position()
                == old(self).position(),
    {
        if self.next >= self.events.len() {
            return None;
        }
        let (k, ev) = self.events[self.next];
        let ghost prefix = self.events@.take(self.next + 1);
        assert(prefix.drop_last() =~= self.events@.take(self.next as int));
        assert(prefix.last() == (k, ev));
        let mut found: usize = 0;
        while found < self.running.len() && self.running[found] != k
            invariant
                found <= self.running@.len(),
                forall|q: int| 0 <= q < found ==> self.running@[q] != k,
            decreases self.running@.len() - found,
        {
            found = found + 1;
        }
        let ghost old_running = self.running@;
        match ev {
            Event::Start(_) => {
                if found == self.running.len() {
                    self.running.push(k);
                    proof {
                        old_running.lemma_push_to_set_commute(k);
                        assert(!old_running.contains(k));
                        assert forall|a: int, b: int| 0 <= a < b < self.running@.len() implies self.running@[a] != self.running@[b] by {
                            if b == old_running.len() {
                                assert(old_running[a] != k);
                            }
                        }
                    }
                } else {
                    proof {
                        assert(old_running.to_set() =~= old_running.to_set().insert(k)) by {
                            assert(old_running[found as int] == k);
                        }
                    }
                }
            },
            Event::End(_) => {
                if found < self.running.len() {
                    self.running.remove(found);
                    proof {
                        assert(self.running@.to_set() =~= old_running.to_set().remove(k)) by {
                            assert forall|x: TaskId| self.running@.contains(x) <==> old_running.contains(x) && x != k by {
                                if self.running@.contains(x) {
                                    let q = choose|q: int| 0 <= q < self.running@.len() && self.running@[q] == x;
                                    if q < found {
                                        assert(old_running[q] == x);
                                    } else {
                                        assert(old_running[q + 1] == x);
                                    }
                                }
                                if old_running.contains(x) && x != k {
                                    let q = choose|q: int| 0 <= q < old_running.len() && old_running[q] == x;
                                    if q < found {
                                        assert(self.running@[q] == x);
                                    } else {
                                        assert(self.running@[q - 1] == x);
                                    }
                                }
                            }
                        }
                    }
                } else {
                    proof {
                        assert(old_running.to_set() =~= old_running.to_set().remove(k));
                    }
                }
            },
        }
        self.next = self.next + 1;
        let mut out: Vec<TaskId> = Vec::new();
        let mut q: usize = 0;
        while q < self.running.len()
            invariant
                q <= self.running@.len(),
                out@ == self.running@.take(q as int),
            decreases self.running@.len() - q,
        {
            out.push(self.running[q]);
            q = q + 1;
            assert(out@ =~= self.running@.take(q as int));
        }
        assert(out@ =~= self.running@);
        Some(out)
    }
}

impl Trace<TaskId> {
    /// Iterator over the sets of tasks of this trace that ran concurrently.
    pub fn iter_concurrent(&self) -> (r: ConcurrentIter)
        ensures
            r.wf(),
            r.position() == 0,
            exists|perm: Seq<int>| ordered_by_time(task_events(self.tasks@), r.events(), perm),
    {
        ConcurrentIter::new(self.tasks.as_slice())
    }

    /// Maximum number of tasks that ran concurrently.
    pub fn max_concurrent(&self) -> (r: usize)
        ensures
            exists|evs: Seq<(TaskId, Event)>, perm: Seq<int>|
                ordered_by_time(task_events(self.tasks@), evs, perm) && r == max_running(evs),
    {
        let mut it = self.iter_concurrent();
        let ghost evs = it.events();
        let ghost perm = choose|perm: Seq<int>| ordered_by_time(task_events(self.tasks@), evs, perm);
        let mut best: usize = 0;
        loop
            invariant
                it.wf(),
                it.events() == evs,
                best == max_running(evs.take(it.position() as int)),
            ensures
                best == max_running(evs),
            decreases evs.len() - it.position(),
        {
            let ghost pos = it.position();
            match it.next() {
                None => {
                    assert(evs.take(pos as int) =~= evs);
                    break;
                },
                Some(running) => {
                    proof {
                        running@.unique_seq_to_set();
                        assert(evs.take(pos + 1int).drop_last() =~= evs.take(pos as int));
                    }
                    if running.len() > best {
                        best = running.len();
                    }
                },
            }
        }
        assert(ordered_by_time(task_events(self.tasks@), evs, perm) && best == max_running(evs));
        best
    }
}


/// What the tracing hooks are told of a task: its id, name, label, dependencies and timeout.
#[derive(Debug)]
pub struct TaskContext<L> {
    pub task_id: TaskId,
    pub name: String,
    pub metadata: L,
    pub dependencies: Vec<TaskId>,
    pub timeout: Option<Duration>,
}

impl<L: Clone> Clone for TaskContext<L> {
    fn clone(&self) -> (r: Self)
        ensures
            r.task_id == self.task_id,
            r.name@ == self.name@,
            r.dependencies@ == self.dependencies@,
            r.timeout == self.timeout,
    {
        TaskContext {
            task_id: self.task_id,
            name: self.name.clone(),
            metadata: self.metadata.clone(),
            dependencies: self.dependencies.clone(),
            timeout: self.timeout,
        }
    }
}

impl<L> TaskContext<L> {
    /// The name of the task.
    pub fn task_name(&self) -> (r: &str)
        ensures
            r@ == self.name@,
    {
        self.name.as_str()
    }

    /// The label (metadata) of the task.
    pub fn metadata(&self) -> (r: &L)
        ensures
            *r == self.metadata,
    {
        &self.metadata
    }

    /// The tasks whose outputs the task consumes, in argument order.
    pub fn dependencies(&self) -> (r: &[TaskId])
        ensures
            r@ == self.dependencies@,
    {
        self.dependencies.as_slice()
    }

    /// The timeout of the task, if it has one.
    pub fn timeout(&self) -> (r: Option<Duration>)
        ensures
            r == self.timeout,
    {
        self.timeout
    }
}

/// How a traced task ended.
#[derive(Debug)]
pub enum TaskResultKind<'a, E> {
    Succeeded,
    TimedOut { timeout: Duration },
    Failed { err: &'a E },
}

impl<'a, E> Clone for TaskResultKind<'a, E> {
    fn clone(&self) -> (r: Self)
        ensures
            r == *self,
    {
        *self
    }
}

impl<'a, E> Copy for TaskResultKind<'a, E> {

}

/// The verbosity level of the spans that [`DefaultMakeSpan`] creates.
#[derive(Clone, Copy, Debug, PartialEq, Eq, Structural)]
pub enum Level {
    Error,
    Warn,
    Info,
    Debug,
    Trace,
}

/// Creates no span.
#[derive(Debug, Clone, Default)]
pub struct NoopMakeSpan;

/// Does nothing when a task starts.
#[derive(Debug, Clone, Default)]
pub struct NoopOnTaskStart;

/// Does nothing when a task ends.
#[derive(Debug, Clone, Default)]
pub struct NoopOnTaskResult;

/// Creates one span per task, at the configured level (`Trace` by default).
#[derive(Debug, Clone)]
pub struct DefaultMakeSpan {
    pub level: Level,
}

impl Default for DefaultMakeSpan {
    fn default() -> (r: Self)
        ensures
            r.level == Level::Trace,
    {
        DefaultMakeSpan { level: Level::Trace }
    }
}

impl DefaultMakeSpan {
    /// Creates a span maker at level `Trace`.
    pub fn new() -> (r: Self)
        ensures
            r.level == Level::Trace,
    {
        DefaultMakeSpan { level: Level::Trace }
    }

    /// Sets the level of the spans.
    pub fn level(self, level: Level) -> (r: Self)
        ensures
            r.level == level,
    {
        DefaultMakeSpan { level }
    }
}

/// The three tracing hooks of an executor: how a task's span is made, and what happens when the
/// task starts and when it ends.
#[derive(Debug, Clone)]
pub struct TaskTraceLayer<M, S, R> {
    pub make_span: M,
    pub on_start: S,
    pub on_result: R,
}

impl<M, S, R> TaskTraceLayer<M, S, R> {
    /// Replaces the span maker.
    pub fn make_span<M2>(self, make_span: M2) -> (r: TaskTraceLayer<M2, S, R>)
        ensures
            r.make_span == make_span,
            r.on_start == self.on_start,
            r.on_result == self.on_result,
    {
        TaskTraceLayer { make_span, on_start: self.on_start, on_result: self.on_result }
    }

    /// Replaces the hook run when a task starts.
    pub fn on_start<S2>(self, on_start: S2) -> (r: TaskTraceLayer<M, S2, R>)
        ensures
            r.make_span == self.make_span,
            r.on_start == on_start,
            r.on_result == self.on_result,
    {
        TaskTraceLayer { make_span: self.make_span, on_start, on_result: self.on_result }
    }

    /// Replaces the hook run when a task ends.
    pub fn on_result<R2>(self, on_result: R2) -> (r: TaskTraceLayer<M, S, R2>)
        ensures
            r.make_span == self.make_span,
            r.on_start == self.on_start,
            r.on_result == on_result,
    {
        TaskTraceLayer { make_span: self.make_span, on_start: self.on_start, on_result }
    }
}

/// The layer that makes a span per task at level `Trace` and has no start or result hooks.
pub type DefaultTaskTraceLayer = TaskTraceLayer<DefaultMakeSpan, NoopOnTaskStart, NoopOnTaskResult>;

/// The layer that traces nothing.
pub type NoopTaskTraceLayer = TaskTraceLayer<NoopMakeSpan, NoopOnTaskStart, NoopOnTaskResult>;

impl Default for DefaultTaskTraceLayer {
    fn default() -> (r: Self)
        ensures
            r.make_span.level == Level::Trace,
    {
        TaskTraceLayer {
            make_span: DefaultMakeSpan::new(),
            on_start: NoopOnTaskStart,
            on_result: NoopOnTaskResult,
        }
    }
}

impl Default for NoopTaskTraceLayer {
    fn default() -> (r: Self) {
        TaskTraceLayer { make_span: NoopMakeSpan, on_start: NoopOnTaskStart, on_result: NoopOnTaskResult }
    }
}

impl DefaultTaskTraceLayer {
    /// The default layer: a span per task at level `Trace`, no hooks.
    pub fn new() -> (r: Self)
        ensures
            r.make_span.level == Level::Trace,
    {
        TaskTraceLayer {
            make_span: DefaultMakeSpan::new(),
            on_start: NoopOnTaskStart,
            on_result: NoopOnTaskResult,
        }
    }
}

impl NoopTaskTraceLayer {
    /// The layer that traces nothing.
    pub fn new() -> (r: Self) {
        TaskTraceLayer { make_span: NoopMakeSpan, on_start: NoopOnTaskStart, on_result: NoopOnTaskResult }
    }
}

} // verus!
