//! The plain values of the patrol: cells, facings, positions and states.

use vstd::prelude::*;

verus! {

/// What a cell of the grid holds.
#[derive(Clone, Copy, Debug, PartialEq, Eq, Structural)]
pub enum Cell {
    Open,
    Obstacle,
}

/// The four directions the guard can face, in the order of right turns.
#[derive(Clone, Copy, Debug, PartialEq, Eq, Structural)]
pub enum Facing {
    North,
    East,
    South,
    West,
}

/// A cell's row and column, counted from the top left corner.
#[derive(Clone, Copy, Debug, PartialEq, Eq, Structural)]
pub struct Position {
    pub row: usize,
    pub col: usize,
}

/// Where the guard stands and where it looks: all that decides its next step.
#[derive(Clone, Copy, Debug, PartialEq, Eq, Structural)]
pub struct State {
    pub position: Position,
    pub facing: Facing,
}

/// What one step does.
#[derive(Clone, Copy, Debug, PartialEq, Eq, Structural)]
pub enum StepResult {
    /// The cell ahead is off the grid.
    Exited,
    /// The cell ahead is free; the guard stands on it now.
    Advanced(State),
    /// The cell ahead is blocked; the guard has turned right.
    Rotated(State),
}

/// How a walk ends.
#[derive(Clone, Copy, Debug, PartialEq, Eq, Structural)]
pub enum Outcome {
    /// The guard left the grid.
    Exited,
    /// The guard came back to a state it had been in.
    Looped,
}

/// The number of facings.
pub const FACINGS: usize = 4;

impl Facing {
    /// The place of the facing in the order of right turns, from 0 to 3.
    pub open spec fn index(self) -> int {
        match self {
            Facing::North => 0,
            Facing::East => 1,
            Facing::South => 2,
            Facing::West => 3,
        }
    }

    /// The facing after one right turn.
    pub open spec fn turned(self) -> Facing {
        match self {
            Facing::North => Facing::East,
            Facing::East => Facing::South,
            Facing::South => Facing::West,
            Facing::West => Facing::North,
        }
    }

    /// How the row changes with one move forward.
    pub open spec fn row_delta(self) -> int {
        match self {
            Facing::North => -1,
            Facing::South => 1,
            _ => 0,
        }
    }

    /// How the column changes with one move forward.
    pub open spec fn col_delta(self) -> int {
        match self {
            Facing::East => 1,
            Facing::West => -1,
            _ => 0,
        }
    }

    /// Turns right: north to east to south to west and back to north. In the
    /// order of right turns this is the next index, modulo four.
    pub fn rotate_right(self) -> (r: Facing)
        ensures
            r == self.turned(),
            r.index() == (self.index() + 1) % 4,
    {
        match self {
            Facing::North => Facing::East,
            Facing::East => Facing::South,
            Facing::South => Facing::West,
            Facing::West => Facing::North,
        }
    }

    /// The place of the facing in the order of right turns.
    pub fn ordinal(self) -> (i: usize)
        ensures
            i == self.index(),
            i < FACINGS,
    {
        match self {
            Facing::North => 0,
            Facing::East => 1,
            Facing::South => 2,
            Facing::West => 3,
        }
    }
}

impl Position {
    /// The position at a row and a column.
    pub fn new(row: usize, col: usize) -> (p: Position)
        ensures
            p.row == row,
            p.col == col,
    {
        Position { row, col }
    }
}

impl State {
    /// The state of a guard at a position with a facing.
    pub fn new(position: Position, facing: Facing) -> (s: State)
        ensures
            s.position == position,
            s.facing == facing,
    {
        State { position, facing }
    }
}

} // verus!
