//! One step of the guard.

use crate::patrol::grid::{Grid, Plan};
use crate::patrol::model::{Cell, Facing, Position, State, StepResult};
use vstd::prelude::*;

verus! {

/// The row of the cell ahead of a state; it may lie off the grid.
pub open spec fn ahead_row(s: State) -> int {
    s.position.row + s.facing.row_delta()
}

/// The column of the cell ahead of a state; it may lie off the grid.
pub open spec fn ahead_col(s: State) -> int {
    s.position.col + s.facing.col_delta()
}

/// Whether the guard cannot enter a cell of the grid: it holds an obstacle,
/// or it is the cell of the extra obstruction.
pub open spec fn blocked(grid: Plan, p: Position, obstruction: Option<Position>) -> bool {
    grid.cell(p) == Cell::Obstacle || obstruction == Some(p)
}

/// What one step does from a state: the guard leaves when the cell ahead is
/// off the grid, turns right where it stands when that cell is blocked, and
/// moves onto it otherwise.
pub open spec fn step_spec(grid: Plan, s: State, obstruction: Option<Position>) -> StepResult {
    let r = ahead_row(s);
    let c = ahead_col(s);
    if !(0 <= r < grid.side && 0 <= c < grid.side) {
        StepResult::Exited
    } else {
        let p = Position { row: r as usize, col: c as usize };
        if blocked(grid, p, obstruction) {
            StepResult::Rotated(State { position: s.position, facing: s.facing.turned() })
        } else {
            StepResult::Advanced(State { position: p, facing: s.facing })
        }
    }
}

impl StepResult {
    /// The state after the step, or `None` when the guard has left.
    pub open spec fn next(self) -> Option<State> {
        match self {
            StepResult::Exited => None,
            StepResult::Advanced(s) => Some(s),
            StepResult::Rotated(s) => Some(s),
        }
    }
}

/// The position one move ahead of a state, where the machine can hold it.
fn position_ahead(state: State) -> (r: Option<Position>)
    ensures
        match r {
            Some(p) => p.row == ahead_row(state) && p.col == ahead_col(state),
            None => ahead_row(state) < 0 || ahead_col(state) < 0 || ahead_row(state) > usize::MAX
                || ahead_col(state) > usize::MAX,
        },
{
    let row: usize = state.position.row;
    let col: usize = state.position.col;
    match state.facing {
        Facing::North => if row == 0 {
            None
        } else {
            Some(Position { row: row - 1, col })
        },
        Facing::South => if row == usize::MAX {
            None
        } else {
            Some(Position { row: row + 1, col })
        },
        Facing::West => if col == 0 {
            None
        } else {
            Some(Position { row, col: col - 1 })
        },
        Facing::East => if col == usize::MAX {
            None
        } else {
            Some(Position { row, col: col + 1 })
        },
    }
}

/// Takes one step from `state` on `grid`, with `obstruction` as one more
/// blocked cell if there is one. The grid is only read, and the result
/// depends on the three arguments alone.
pub fn step(state: State, grid: &Grid, obstruction: Option<Position>) -> (r: StepResult)
    ensures
        r == step_spec(grid@, state, obstruction),
{
    proof {
        grid.lemma_side_fits();
    }
    let target: Position = match position_ahead(state) {
        Some(p) => p,
        None => {
            return StepResult::Exited;
        },
    };
    let cell: Cell = match grid.cell_at(target) {
        Some(c) => c,
        None => {
            return StepResult::Exited;
        },
    };
    let obstructed: bool = match obstruction {
        Some(o) => o == target,
        None => false,
    };
    if cell == Cell::Obstacle || obstructed {
        StepResult::Rotated(State { position: state.position, facing: state.facing.rotate_right() })
    } else {
        StepResult::Advanced(State { position: target, facing: state.facing })
    }
}

} // verus!
