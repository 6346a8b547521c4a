//! Deterministic simulation of an online, deadline-constrained batch scheduler.
//! File parsing and future arrivals belong to the driver, not the scheduler.
//!
//! Jobs of one repository share a machine: a batch pays for startup once, and for each
//! distinct check once. `simulate` says which batches are launched when. Its contract
//! speaks of `state::Rules::run`, which says the same over sets and maps; the modules
//! whose names end in `laws` or `best`, and `bound`, `ledger`, `foresight`, `solo`,
//! `renaming`, `relabel`, `frugal`, `seating` and `roster_plan`, prove what holds of that.
//! What a workload and its schedule are to each other, field by field, is in `entry`,
//! `delivery`, `bargain` and `modest`, with `bill` and `timetable` behind them. What a plan
//! is worth is in `thrift`, `ranking`, `placing`, `stability`, `replanning` and `lineup`.
pub mod arrange;
pub mod bargain;
pub mod bill;
pub mod bits;
pub mod bound;
pub mod catalog;
pub mod checks;
pub mod cli;
pub mod cli_laws;
pub mod cover;
pub mod delivery;
pub mod drive_laws;
pub mod entry;
pub mod exact;
pub mod foresight;
pub mod frugal;
pub mod group;
pub mod hunt;
pub mod hunt_best;
pub mod hunt_laws;
pub mod hunt_size_laws;
pub mod lane;
pub mod lane_laws;
pub mod ledger;
pub mod lineup;
pub mod listing;
pub mod masks;
pub mod memo;
pub mod model;
pub mod modest;
pub mod names;
pub mod partition;
pub mod placing;
pub mod plan;
pub mod plan_best;
pub mod plan_laws;
pub mod planner;
pub mod policy;
pub mod ranking;
pub mod relabel;
pub mod renaming;
pub mod repository;
pub mod replanning;
pub mod roster;
pub mod roster_laws;
pub mod roster_plan;
pub mod scheduler;
pub mod search;
pub mod seating;
pub mod shape;
pub mod simulation;
pub mod solo;
pub mod stability;
pub mod state;
pub mod state_laws;
pub mod team;
pub mod thrift;
pub mod timetable;
pub mod workload_laws;

pub use catalog::CheckCosts;
pub use model::{Batch, Fault, InputError, Job, Schedule, Workload};
pub use policy::{Policy, Stats};
pub use simulation::simulate;
