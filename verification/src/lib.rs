//! A combinatorial-optimization engine that assigns a pool of activities to a
//! fixed grid of (place, time) slots, minimizing a caller-supplied penalty by
//! iterative local search: in-place neighbor swaps, optional randomized noise
//! probes, and multi-restart escape from local optima under a swap budget and
//! an optional wall-clock cutoff.

pub mod activity;
pub mod clock;
pub mod engine;
pub mod instance;
pub mod rng;
pub mod schedule;
pub mod scoring;

pub use activity::Activity;
pub use engine::{Config, Penalty, RunLog};
pub use instance::SchedulingInstance;
pub use schedule::{BoundsError, GridView, Loc, Schedule};
