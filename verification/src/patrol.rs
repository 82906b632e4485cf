//! The patrol of a guard on a square grid.
//!
//! The guard starts on one cell with a facing. At each step it looks at the
//! cell ahead: off the grid it leaves; on an obstacle it turns right where it
//! stands; otherwise it moves forward.

pub mod detector;
pub mod grid;
pub mod model;
pub mod search;
pub mod stepper;
pub mod text;
pub mod tracer;
pub mod walk;

use crate::answer::{fits_u32, to_u32};
use crate::patrol::grid::Grid;
use crate::patrol::search::{search_spec, ObstructionSearch};
use crate::patrol::text::parsed;
use crate::patrol::tracer::{trace_spec, Tracer};
use vstd::prelude::*;

verus! {

/// The number of positions the guard of a text stands on before it leaves;
/// `None` where the text is no grid or the guard never leaves.
pub open spec fn part_one_spec(text: Seq<char>) -> Option<u32> {
    match parsed(text) {
        Ok(grid) => match trace_spec(grid) {
            Ok(visited) => fits_u32(visited.len()),
            Err(_) => None,
        },
        Err(_) => None,
    }
}

/// The number of single obstructions that trap the guard of a text in a
/// loop; `None` where the text is no grid or the guard never leaves the
/// unchanged grid.
pub open spec fn part_two_spec(text: Seq<char>) -> Option<u32> {
    match parsed(text) {
        Ok(grid) => match search_spec(grid) {
            Ok(n) => fits_u32(n),
            Err(_) => None,
        },
        Err(_) => None,
    }
}

/// Counts the positions that the guard of the grid in `input` stands on
/// until it leaves the grid, its start among them, each once.
pub fn part_one(input: &str) -> (r: Option<u32>)
    ensures
        r == part_one_spec(input@),
{
    let grid = match Grid::parse(input) {
        Ok(grid) => grid,
        Err(_) => {
            return None;
        },
    };
    match Tracer::trace(&grid) {
        Ok(visited) => to_u32(visited.len()),
        Err(_) => None,
    }
}

/// Counts the open cells of the grid in `input`, but for the guard's start,
/// on which one more obstacle makes the guard walk in a loop.
pub fn part_two(input: &str) -> (r: Option<u32>)
    ensures
        r == part_two_spec(input@),
{
    let grid = match Grid::parse(input) {
        Ok(grid) => grid,
        Err(_) => {
            return None;
        },
    };
    match ObstructionSearch::count_loop_inducing_obstructions_parallel(&grid) {
        Ok(n) => to_u32(n),
        Err(_) => None,
    }
}

} // verus!
