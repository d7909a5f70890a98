//! Analysis of task schedules given as a directed acyclic graph of
//! precedence edges with per-task durations.
//!
//! The engine computes the minimum completion time under unlimited
//! parallelism, the peak number of simultaneously ready tasks under an
//! earliest-start schedule, and every maximum-duration (critical) path,
//! deterministically ordered.

pub mod analyzer;
pub mod graph;
pub mod parser;
pub mod paths;
pub mod processor;
pub mod render;
pub mod task;
