//! A solver for variant sudoku-style grid puzzles.
//!
//! A puzzle is described declaratively: a rectangular grid, a set of
//! admissible cell values, and a list of constraints (uniqueness over a
//! region, monotone thermometer lines, killer-cage sums, arrow sums, binary
//! cell relationships, and cell-level properties such as parity or a given
//! value). The solver produces a filled grid that satisfies every
//! constraint, or reports that no solution exists.

use vstd::prelude::*;

pub mod constraint;
pub mod example;
pub mod model;
pub mod propagate;
pub mod region;
pub mod seq_facts;
pub mod solver;
pub mod state;
pub mod sums;
pub mod unique;
pub mod vec2;

verus! {

/// Reasons a puzzle description is rejected before solving begins.
#[derive(Clone, Copy, Debug, PartialEq, Eq, Structural)]
pub enum BuildError {
    /// The admissible value set is empty.
    EmptyValues,
    /// The admissible value set is too large to precompute sums for.
    TooManyValues,
    /// The grid has more cells than the solver state can hold.
    GridTooLarge,
    /// A line segment starts and ends on the same point.
    DegenerateLine,
    /// A line segment is neither axis-aligned nor a 45-degree diagonal.
    MisalignedLine,
    /// A relationship constraint names the same cell twice.
    DegenerateRelationship,
    /// A constraint mentions a cell outside the grid.
    OutOfBoundsCell,
}

} // verus!
