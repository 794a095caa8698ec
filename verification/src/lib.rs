//! Scheduling of commitments by constraint solving.
//!
//! Each commitment offers plans; a plan demands and supplies service calls
//! under a cost ceiling. The library names one decision variable for each
//! commitment, plan and service call, states the rules of a schedule as
//! constraints over them, asks an optimising solver for an assignment that
//! accepts as many commitments as it can, and hands the assignment back once
//! it has checked it against the rules itself.
//!
//! - [`model`]: commitments and plans, and when they are in order.
//! - [`ident`]: the names of the decision variables.
//! - [`vars`]: the tables of decision variables.
//! - [`group`]: the grouping of variables by their names.
//! - [`term`]: the constraint language and its meaning.
//! - [`solver`]: what is taken on trust about the solver.
//! - [`compile`]: the rules as constraints.
//! - [`encode`]: the whole constraint system of a problem.
//! - [`schedule`]: schedules and their rules.
//! - [`certify`]: the check of an assignment against the rules.
//! - [`outcome`]: the answer, from the solver's verdict and assignment.
//! - [`solve`]: the whole run.
//! - [`layout`], [`laws`]: what the constraints mean, proved.
//! - [`json`], [`load`]: the reading of commitments from JSON.

pub mod certify;
pub mod compile;
pub mod encode;
pub mod group;
pub mod ident;
pub mod json;
pub mod laws;
pub mod layout;
pub mod load;
pub mod model;
pub mod outcome;
pub mod schedule;
pub mod solve;
pub mod solver;
pub mod term;
pub mod vars;

pub use crate::certify::check_schedule;
pub use crate::group::{group_allofs, group_s_calls};
pub use crate::load::{parse_commits, LoadError};
pub use crate::model::{is_well_formed, AllOf, Commit};
pub use crate::outcome::{interpret, Outcome, Reading, SolveError};
pub use crate::schedule::Schedule;
pub use crate::solve::build_schedule;
pub use crate::solver::Verdict;
pub use crate::vars::{
    build_allof_level_bools, build_commit_level_vars, build_count_vars, build_scall_level_bools,
};
