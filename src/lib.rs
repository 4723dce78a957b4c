//! Constructive type resolution: a registry of production rules and a
//! memoizing, cycle-safe solver that finds every way to build a value of a
//! requested type from those rules.
use vstd::prelude::*;

pub mod common;
pub mod metadata;
pub mod registry;
pub mod rules;
pub mod solutions;
pub mod solver;
pub mod solve_parameters;
pub mod type_info;

verus! {

} // verus!
