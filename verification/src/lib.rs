//! Sweep-specification parsing, configuration expansion and backend
//! dispatch for a quorum-membership probability simulator.
//!
//! The crate turns textual sweep specifications (a single value, an
//! explicit list, or a stepped range) into deterministic sequences of
//! concrete values, expands several independently swept dimensions into
//! the full cross product of simulation configurations, and maps each
//! configuration's discrete choices onto one of a fixed set of backend
//! variants after checking its invariants.

use vstd::prelude::*;

pub mod dispatch;
pub mod errors;
pub mod parse;
pub mod quantity;
pub mod ratio;
pub mod relorabs;
pub mod params;
pub mod sample;

verus! {

/// Whole-number quantity used for node counts, group sizes and step counts.
pub type NN = u64;

} // verus!
