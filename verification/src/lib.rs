//! Building blocks of a task DAG executor: the dependency graph of a schedule, the per-task
//! execution state, the scheduling policies and the decision logic of the executor.

pub mod dag;
pub mod task;
pub mod execution;
pub mod schedule;
pub mod policy;
pub mod trace;
pub mod executor;
pub mod readiness;
