//! The loop detector: it walks the guard until it leaves or repeats a state.

use crate::patrol::grid::Grid;
use crate::patrol::model::{Outcome, Position, State, StepResult, FACINGS};
use crate::patrol::stepper::step;
use crate::patrol::walk::{
    codes, fresh, lemma_codes, lemma_fresh_bound, lemma_repeat_never_exits,
    lemma_state_code, lemma_walk_on_grid, outcome_of, state_code, walk,
};
use std::collections::HashSet;
use vstd::prelude::*;

verus! {

/// How a walk ended and how many steps it took.
#[derive(Clone, Copy, Debug, PartialEq, Eq, Structural)]
pub struct WalkReport {
    /// Whether the guard left the grid or ran into a loop.
    pub outcome: Outcome,
    /// The number of steps that were taken to find out.
    pub steps: usize,
}

/// The number that stands for a state on the grid.
fn encode(grid: &Grid, s: State) -> (code: usize)
    requires
        grid@.in_bounds(s.position),
    ensures
        code == state_code(grid@, s),
        code < grid@.state_count(),
{
    let side: usize = grid.size();
    proof {
        grid@.lemma_wf();
        grid@.lemma_cell_index(s.position, s.position);
        lemma_state_code(grid@, s, s);
    }
    (s.position.row * side + s.position.col) * FACINGS + s.facing.ordinal()
}

/// Walks of a guard with one extra obstruction, watched for loops.
pub struct LoopDetector;

impl LoopDetector {
    /// Walks the guard from `start`, with `obstruction` as one more blocked
    /// cell if there is one, until it leaves the grid or stands in a state in
    /// which it has stood before.
    ///
    /// The report gives the outcome and the number of steps taken: the length
    /// of the longest beginning of the walk without a repeated state. That
    /// number never exceeds the number of states of the grid.
    pub fn run(grid: &Grid, start: State, obstruction: Option<Position>) -> (report: WalkReport)
        requires
            grid@.in_bounds(start.position),
        ensures
            report.outcome == outcome_of(grid@, start, obstruction),
            report.steps <= grid@.state_count(),
            fresh(grid@, start, obstruction, report.steps as nat),
            !fresh(grid@, start, obstruction, (report.steps + 1) as nat),
            report.outcome == Outcome::Exited <==> walk(
                grid@,
                start,
                obstruction,
                report.steps as nat,
            ) is None,
    {
        let bound: usize = grid.state_bound();
        let mut seen: HashSet<usize> = HashSet::new();
        let mut current: State = start;
        let mut steps: usize = 0;
        loop
            invariant
                grid@.in_bounds(start.position),
                bound == grid@.state_count(),
                steps <= bound,
                walk(grid@, start, obstruction, steps as nat) == Some(current),
                grid@.in_bounds(current.position),
                fresh(grid@, start, obstruction, steps as nat),
                forall|c: usize|
                    seen@.contains(c) <==> codes(grid@, start, obstruction, steps as nat).contains(
                        c as int,
                    ),
            decreases bound - steps,
        {
            let code: usize = encode(grid, current);
            proof {
                lemma_codes(grid@, start, obstruction, steps as nat);
            }
            if seen.contains(&code) {
                proof {
                    let i = choose|i: nat|
                        i < steps && code as int == state_code(
                            grid@,
                            #[trigger] walk(grid@, start, obstruction, i).unwrap(),
                        );
                    assert(walk(grid@, start, obstruction, i) is Some);
                    lemma_walk_on_grid(grid@, start, obstruction, i);
                    lemma_state_code(
                        grid@,
                        walk(grid@, start, obstruction, i).unwrap(),
                        current,
                    );
                    assert(walk(grid@, start, obstruction, i) == walk(
                        grid@,
                        start,
                        obstruction,
                        steps as nat,
                    ));
                    lemma_repeat_never_exits(grid@, start, obstruction, i, steps as nat);
                }
                return WalkReport { outcome: Outcome::Looped, steps };
            }
            proof {
                assert forall|i: nat| i < steps implies walk(grid@, start, obstruction, i) != walk(
                    grid@,
                    start,
                    obstruction,
                    steps as nat,
                ) by {
                    if walk(grid@, start, obstruction, i) == walk(
                        grid@,
                        start,
                        obstruction,
                        steps as nat,
                    ) {
                        assert(code as int == state_code(
                            grid@,
                            walk(grid@, start, obstruction, i).unwrap(),
                        ));
                    }
                }
                assert(fresh(grid@, start, obstruction, (steps + 1) as nat));
                lemma_fresh_bound(grid@, start, obstruction, (steps + 1) as nat);
            }
            seen.insert(code);
            match step(current, grid, obstruction) {
                StepResult::Exited => {
                    proof {
                        assert(walk(grid@, start, obstruction, (steps + 1) as nat) is None);
                    }
                    return WalkReport { outcome: Outcome::Exited, steps: steps + 1 };
                },
                StepResult::Advanced(next) => {
                    current = next;
                },
                StepResult::Rotated(next) => {
                    current = next;
                },
            }
            steps = steps + 1;
            proof {
                lemma_walk_on_grid(grid@, start, obstruction, steps as nat);
            }
        }
    }

    /// Whether the guard, walking from `start` with `obstruction` as one more
    /// blocked cell, leaves the grid or walks in a loop.
    pub fn detect_loop(grid: &Grid, start: State, obstruction: Option<Position>) -> (outcome:
        Outcome)
        requires
            grid@.in_bounds(start.position),
        ensures
            outcome == outcome_of(grid@, start, obstruction),
    {
        LoopDetector::run(grid, start, obstruction).outcome
    }
}

} // verus!
