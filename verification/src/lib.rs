//! Ant colony optimization for the symmetric traveling salesman problem.
//!
//! Simulated ants construct closed tours over a weighted graph, biased by a
//! per-edge pheromone trail that is reinforced on good tours and decayed over
//! time.  All quantities that the mathematics treats as reals (distances,
//! pheromone levels, probabilities) are carried as fixed-point integers:
//! a value `v` stands for the real number `v / SCALE`.

use vstd::prelude::*;

pub mod aco;
pub mod ant;
pub mod errors;
pub mod graph;
pub mod node;
pub mod parse;
mod rng;
pub mod runner;

verus! {

/// Fixed-point scale: a stored value `v` stands for the real `v / SCALE`.
pub const SCALE: u64 = 1000;

/// Largest matrix entry (scaled) the parser accepts; keeps every cost sum
/// and pheromone computation inside `u64`.
pub const MAX_ENTRY: u64 = 1_000_000_000;

/// Largest number of nodes: ids are `u8`, and 255 keeps `id` arithmetic exact.
pub const MAX_NODES: usize = 255;

} // verus!
