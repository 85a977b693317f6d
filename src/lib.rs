//! The scheduling core of a cooperative, priority-aware, work-stealing task
//! executor.
//!
//! - `permutation`: the randomized order in which a worker visits the others
//!   when it steals.
//! - `scheduler`: where a ready task is placed, how a worker finds its next
//!   task, and how it steals.
//! - `scope`: the bookkeeping that lets a bounded-lifetime region cancel every
//!   task it spawned.
//! - `telemetry`: opt-in accounting of the time workers waited for work.
//! - `park`: the epoch that lets idle workers park without missing a wake-up.
//! - `config`: the size of the worker pool.
use vstd::prelude::*;

pub mod config;
pub mod park;
pub mod permutation;
pub mod priority;
pub mod scheduler;
pub mod scope;
pub mod telemetry;

verus! {

} // verus!
