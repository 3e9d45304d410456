//! An interactively steppable A* pathfinding engine over a fixed-size 2D grid.
//!
//! A session owns a grid of cells, a start, a goal and the open/closed
//! frontier sets.  Each call to [`engine::Session::step`] performs one
//! expansion: it selects the best open node, moves it to the closed set and
//! scores its in-bounds neighbours.  Costs are kept exactly: the accumulated
//! cost `g` is an integer (every move costs one unit) and the heuristic is the
//! Euclidean distance to the goal, represented by its square, so that the
//! priority `f = g + sqrt(hsq)` of two nodes can be compared without rounding.

pub mod engine;
pub mod frontier;
pub mod grid;
pub mod node;

use vstd::prelude::*;

verus! {

/// Largest supported grid extent on either axis.  Keeping both dimensions
/// under this bound keeps every cost computation far away from overflow.
pub const MAX_DIM: usize = 1024;

/// The typed errors a session surfaces to its caller.
#[derive(Clone, Copy, Debug, PartialEq, Eq, Structural)]
pub enum SessionError {
    /// A coordinate lies outside the grid extent.
    OutOfBounds,
    /// Start or goal was assigned twice before a reset.
    AlreadySet,
    /// The goal was assigned before a start was chosen.
    NotReady,
}

} // verus!
