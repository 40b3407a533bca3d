//! Cell states, game phases, and errors, with the spec-level vocabulary
//! used by the engine's contracts.

use vstd::prelude::*;

verus! {

/// The state of one grid cell. "Safe" versus "Mine" is fixed at placement
/// time; only the closed/open/flagged dimension ever changes.
#[derive(Clone, Copy, PartialEq, Eq, Structural, Debug)]
pub enum Squares {
    ClosedSafe,
    OpenSafe,
    FlaggedSafe,
    ClosedMine,
    FlaggedMine,
}

/// The overall phase of a game.
#[derive(Clone, Copy, PartialEq, Eq, Structural, Debug)]
pub enum State {
    Ongoing,
    Won,
    Lost,
}

/// A pair of grid coordinates (or a coordinate offset).
#[derive(Clone, Copy, PartialEq, Eq, Structural, Debug)]
pub struct Point {
    pub x: i32,
    pub y: i32,
}

impl Point {
    pub fn new(x: i32, y: i32) -> (p: Point)
        ensures
            p == (Point { x, y }),
    {
        Point { x, y }
    }
}

/// Why an operation was rejected: the grid dimensions are not positive, or a
/// coordinate lies outside the board.
#[derive(Clone, Copy, PartialEq, Eq, Structural, Debug)]
pub enum GameError {
    InvalidDimensions,
    InvalidCoordinate,
}

/// A cell that holds a mine, whether flagged or not.
pub open spec fn is_mine(c: Squares) -> bool {
    c == Squares::ClosedMine || c == Squares::FlaggedMine
}

/// A safe cell that the player has not opened yet (closed or flagged).
pub open spec fn is_unopened_safe(c: Squares) -> bool {
    c == Squares::ClosedSafe || c == Squares::FlaggedSafe
}

/// A flagged cell, safe or mined.
pub open spec fn is_flagged(c: Squares) -> bool {
    c == Squares::FlaggedSafe || c == Squares::FlaggedMine
}

/// What one flag toggle does to a cell: closed and flagged swap within the
/// safe cells and within the mine cells; an open cell is untouched.
pub open spec fn toggle_flag(c: Squares) -> Squares {
    match c {
        Squares::ClosedSafe => Squares::FlaggedSafe,
        Squares::FlaggedSafe => Squares::ClosedSafe,
        Squares::ClosedMine => Squares::FlaggedMine,
        Squares::FlaggedMine => Squares::ClosedMine,
        Squares::OpenSafe => Squares::OpenSafe,
    }
}

/// Toggling a flag twice restores the cell exactly.
pub proof fn lemma_toggle_flag_involution(c: Squares)
    ensures
        toggle_flag(toggle_flag(c)) == c,
{
}

} // verus!
