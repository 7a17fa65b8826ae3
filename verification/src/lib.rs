//! Rooted binary phylogenetic trees with horizontal-gene-transfer surgery.
//!
//! Trees carry their times (node depths and branch lengths) in fixed-point
//! micro-units: one unit is one millionth of the time unit written in a
//! Newick file, so the six-decimal Newick rendering is exact.

use vstd::prelude::*;

pub mod tree;
pub mod surgery;
pub mod metric;
pub mod convert;
pub mod newick;
pub mod rng;
pub mod sampler;
pub mod traverse;
pub mod pipeline;
pub mod table;

verus! {

/// Number of fixed-point units in one whole time unit (six decimal places).
pub const TIME_UNIT: u64 = 1_000_000;

} // verus!
