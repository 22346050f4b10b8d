//! The ways in which a puzzle can fail.
use vstd::prelude::*;

verus! {

/// Why a puzzle could not be read or solved.
#[derive(Debug, Clone, Copy, PartialEq, Eq, Structural)]
pub enum PuzzleError {
    /// The text does not have the shape the puzzle expects: rows of unequal
    /// length, no rows at all, or a token that is not a number.
    MalformedInput,
    /// A cell that the puzzle starts or ends at is not in the grid.
    MissingSeed,
    /// The grid holds a cell that the puzzle's step rule does not know.
    InvalidCell,
    /// The search ran out of states without reaching its goal.
    NoSolution,
}

} // verus!
