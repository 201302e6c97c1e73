# taski

Building blocks of an executor for async task DAGs, verified with Verus.

- `src/` is the verified library:
  - `dag`: task ids, typed handles, the `petgraph` dependency graph and reachability.
  - `schedule`: adding tasks (dependencies must be earlier tasks of the same schedule, so
    the graph is acyclic), failing the transitive dependants of a failed task, ready and
    running tasks.
  - `execution`: per-task state, timings, outputs and errors, with running and unfinished
    counters kept exact.
  - `policy`: the `Policy` trait, whose methods state what they answer and how they change
    the policy for the policies that opt in, and the FIFO and priority policies with their
    concurrency limits.
  - `executor`: the decisions of a run, step by step: the task that starts next is the one
    the policy answers, what a completed or unavailable task changes, when a dependant
    becomes ready, the run report (whose counters are the numbers of succeeded and failed
    tasks) and its errors.
  - `readiness`: under the FIFO and priority policies, the task a step starts is pending
    and all its dependencies have succeeded; `begin_run` leaves their ready list holding the
    tasks without dependencies, in index order.
  - `trace`: traced task timings, stable chronological sorting, the sets of concurrently
    running tasks and their maximum, and the configuration of the tracing hooks.
  - `task`: task states, input tasks, and the summaries used in task names.
- `tests/` exercises the library on concrete schedules, driving the executor step by step.
- `app/` is the async side: typed tasks and closures, typed dependencies, the run loop
  that awaits task futures with timeouts, `tracing` spans, and SVG rendering.
