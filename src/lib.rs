//! Optimal rectangular assignment by the Kuhn-Munkres (Hungarian) method.
//!
//! Given an `nx × ny` integer weight matrix with `nx <= ny`, the solver
//! matches every row to a distinct column so that the sum of the matched
//! weights is as large (or, through negation, as small) as possible.
use vstd::prelude::*;

pub mod bitset;
pub mod hungarian;
pub mod matching;

pub use hungarian::{kuhn_munkres, kuhn_munkres_labelled, kuhn_munkres_min, negate_weights, Labelled};

verus! {

} // verus!
