//! Backwards project scheduler: critical path analysis over a task
//! dependency graph, working backwards from anchored finish dates.
//!
//! Given tasks with durations and dependencies, plus anchors pinning the
//! finish dates of chosen tasks, the scheduler computes for every task its
//! Late Start / Late Finish (the latest moments that miss no anchor) and
//! Early Start / Early Finish (the earliest moments the predecessors allow),
//! from which slack and the critical flag follow.

pub mod config;
pub mod dates;
pub mod graph;
pub mod laws;
pub mod model;
pub mod passes;
pub mod project;
pub mod text;
pub mod scheduler;

pub use scheduler::{ScheduleError, ScheduleRequest, ScheduledTask, SubTask, Task};
