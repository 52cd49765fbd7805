//! Error kinds of the solver.

use vstd::prelude::*;

verus! {

/// Everything that can go wrong while loading a matrix or running a colony.
#[derive(Clone, Copy, Debug, PartialEq, Eq, Structural)]
pub enum AcoError {
    /// The input matrix is malformed: wrong row or column count, a cell that
    /// is not a number this crate can represent, or a nonzero diagonal.
    FormatError,
    /// An ant reached a node with no unvisited reachable neighbor, so the
    /// tour cannot be completed.
    NoFeasibleMoveError,
    /// A pheromone update or a tour closing referenced a node pair with no
    /// edge between them.
    MissingEdgeError,
}

} // verus!
