//! A dependency-ordered task runner driven by a single cooperative polling loop.
//!
//! Tasks are identified by their position in the task collection. A dependency
//! map sends a task identifier to the identifiers it waits for. A task with an
//! empty entry is ready at once; a task with no entry at all is never
//! considered ready and so never starts. [`flow::FlowJob::validate`] reports
//! such a task, a prerequisite that is not a task, and a cycle, before a run.
//!
//! Time enters only as clock readings handed to the scheduler by its driver,
//! which also sleeps between iterations and shows what the tasks report.

pub mod flow;
pub mod graph;
pub mod laws;
pub mod model;
pub mod status;
pub mod task;
