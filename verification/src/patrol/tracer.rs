//! The tracer: it walks the guard over the unchanged grid and collects the
//! positions it stands on.

use crate::patrol::grid::{lemma_position_of, lemma_position_of_index, position_of, Grid, Plan};
use crate::patrol::model::{Position, State, StepResult};
use crate::patrol::stepper::{step, step_spec};
use crate::patrol::walk::{
    exits, lemma_long_walk_loops, lemma_walk_on_grid, lemma_walk_stays_out, stands_on, visits,
    walk,
};
use std::collections::HashSet;
use vstd::prelude::*;
use vstd::relations::injective_on;
use vstd::set_lib::{
    lemma_int_range, lemma_len_subset, lemma_map_size, lemma_map_size_bound, set_int_range,
};

verus! {

/// The walk over the unchanged grid went on for more steps than the grid has
/// states: the guard walks in a loop there, and no set of visited positions
/// is complete at any time.
#[derive(Clone, Copy, Debug, PartialEq, Eq, Structural)]
pub struct InvariantViolation;

/// The positions the guard stands on in its walk over the unchanged grid.
pub open spec fn baseline(grid: Plan) -> Set<Position> {
    Set::new(|p: Position| visits(grid, grid.start, None, p))
}

/// What a trace of a grid gives: the positions of the guard's walk where the
/// guard leaves the grid, and `InvariantViolation` where it never does.
pub open spec fn trace_spec(grid: Plan) -> Result<Set<Position>, InvariantViolation> {
    if exits(grid, grid.start, None) {
        Ok(baseline(grid))
    } else {
        Err(InvariantViolation)
    }
}

/// Whether the guard stands on `p` after at most `k` steps.
pub open spec fn visits_within(grid: Plan, start: State, k: nat, p: Position) -> bool {
    exists|n: nat| n <= k && stands_on(grid, start, None, n, p)
}

/// A set of positions of a grid. Each position is in it once, however often
/// the guard stood there.
pub struct VisitedPositions {
    cells: HashSet<usize>,
    side: usize,
}

impl View for VisitedPositions {
    type V = Set<Position>;

    closed spec fn view(&self) -> Set<Position> {
        Set::new(
            |p: Position|
                p.row < self.side && p.col < self.side && self.cells@.contains(
                    (p.row * self.side + p.col) as usize,
                ),
        )
    }
}

impl VisitedPositions {
    #[verifier::type_invariant]
    spec fn inv(&self) -> bool {
        &&& self.cells@.finite()
        &&& 0 < self.side
        &&& self.side * self.side <= usize::MAX
        &&& forall|k: usize| self.cells@.contains(k) ==> k < self.side * self.side
    }

    /// The number of positions in the set.
    pub fn len(&self) -> (n: usize)
        ensures
            self@.finite(),
            n == self@.len(),
    {
        proof {
            use_type_invariant(self);
            let side = self.side as int;
            let place = |k: usize| position_of(k as int, side);
            assert forall|k1: usize, k2: usize|
                self.cells@.contains(k1) && self.cells@.contains(k2) && #[trigger] place(k1)
                    == #[trigger] place(k2) implies k1 == k2 by {
                lemma_position_of(k1 as int, side);
                lemma_position_of(k2 as int, side);
            }
            assert(injective_on(place, self.cells@));
            assert forall|p: Position| self@.contains(p) implies #[trigger] self.cells@.map(
                place,
            ).contains(p) by {
                assert(p.row * side + p.col < side * side) by (nonlinear_arith)
                    requires
                        0 <= p.row < side,
                        0 <= p.col < side,
                ;
                let k = (p.row * self.side + p.col) as usize;
                lemma_position_of_index(p, side);
                assert(self.cells@.contains(k) && place(k) == p);
            }
            assert forall|p: Position| #[trigger]
                self.cells@.map(place).contains(p) implies self@.contains(p) by {
                let k = choose|k: usize| self.cells@.contains(k) && place(k) == p;
                lemma_position_of(k as int, side);
            }
            assert(self.cells@.map(place) =~= self@);
            lemma_map_size(self.cells@, self@, place);
        }
        self.cells.len()
    }

    /// Whether a position is in the set.
    pub fn contains(&self, p: Position) -> (b: bool)
        ensures
            b == self@.contains(p),
    {
        proof {
            use_type_invariant(self);
        }
        if p.row < self.side && p.col < self.side {
            proof {
                assert(p.row * self.side + p.col < self.side * self.side) by (nonlinear_arith)
                    requires
                        p.row < self.side,
                        p.col < self.side,
                ;
            }
            let k: usize = p.row * self.side + p.col;
            self.cells.contains(&k)
        } else {
            false
        }
    }
}

/// Walks of a guard over the unchanged grid.
pub struct Tracer;

impl Tracer {
    /// Walks the guard from the grid's start until it leaves the grid, and
    /// returns the positions it stood on, the start among them.
    ///
    /// A grid on which the guard never leaves has no such set: there the
    /// walk is given up after as many steps as the grid has states, which
    /// proves the loop, and `InvariantViolation` is returned.
    pub fn trace(grid: &Grid) -> (r: Result<VisitedPositions, InvariantViolation>)
        ensures
            match r {
                Ok(visited) => trace_spec(grid@) == Ok::<Set<Position>, InvariantViolation>(
                    visited@,
                ),
                Err(e) => trace_spec(grid@) == Err::<Set<Position>, InvariantViolation>(e),
            },
    {
        let side: usize = grid.size();
        let bound: usize = grid.state_bound();
        let start: State = grid.start();
        proof {
            grid@.lemma_wf();
            grid@.lemma_cell_index(start.position, start.position);
        }
        let mut cells: HashSet<usize> = HashSet::new();
        cells.insert(start.position.row * side + start.position.col);
        let mut current: State = start;
        let mut steps: usize = 0;
        proof {
            assert(stands_on(grid@, start, None, 0, start.position));
            assert forall|p: Position| grid@.in_bounds(p) implies (cells@.contains(
                (p.row * side + p.col) as usize,
            ) <==> visits_within(grid@, start, 0, p)) by {
                grid@.lemma_cell_index(p, start.position);
            }
        }
        loop
            invariant
                grid@.wf(),
                side == grid@.side,
                start == grid@.start,
                bound == grid@.state_count(),
                steps <= bound,
                walk(grid@, start, None, steps as nat) == Some(current),
                grid@.in_bounds(current.position),
                cells@.finite(),
                forall|k: usize| cells@.contains(k) ==> k < side * side,
                forall|p: Position|
                    grid@.in_bounds(p) ==> (cells@.contains((p.row * side + p.col) as usize)
                        <==> #[trigger] visits_within(grid@, start, steps as nat, p)),
            decreases bound - steps,
        {
            proof {
                grid@.lemma_wf();
            }
            if steps == bound {
                proof {
                    lemma_long_walk_loops(grid@, start, None);
                }
                return Err(InvariantViolation);
            }
            match step(current, grid, None) {
                StepResult::Exited => {
                    let visited = VisitedPositions { cells, side };
                    proof {
                        assert(walk(grid@, start, None, (steps + 1) as nat) is None);
                        assert forall|p: Position| visited@.contains(p) <==> baseline(
                            grid@,
                        ).contains(p) by {
                            if visits(grid@, start, None, p) {
                                let n = choose|n: nat| stands_on(grid@, start, None, n, p);
                                lemma_walk_on_grid(grid@, start, None, n);
                                if n > steps {
                                    lemma_walk_stays_out(
                                        grid@,
                                        start,
                                        None,
                                        (steps + 1) as nat,
                                        n,
                                    );
                                }
                                assert(visits_within(grid@, start, steps as nat, p));
                            }
                            if visited@.contains(p) {
                                assert(visits_within(grid@, start, steps as nat, p));
                            }
                        }
                        assert(visited@ =~= baseline(grid@));
                    }
                    return Ok(visited);
                },
                StepResult::Advanced(next) => {
                    proof {
                        grid@.lemma_cell_index(next.position, next.position);
                    }
                    let ghost before = cells@;
                    cells.insert(next.position.row * side + next.position.col);
                    proof {
                        let reached = (steps + 1) as nat;
                        assert(stands_on(grid@, start, None, reached, next.position));
                        assert forall|p: Position| grid@.in_bounds(p) implies (cells@.contains(
                            (p.row * side + p.col) as usize,
                        ) <==> #[trigger] visits_within(grid@, start, reached, p)) by {
                            grid@.lemma_cell_index(p, next.position);
                            if visits_within(grid@, start, reached, p) {
                                let n = choose|n: nat|
                                    n <= reached && stands_on(grid@, start, None, n, p);
                                if n < reached {
                                    assert(visits_within(grid@, start, steps as nat, p));
                                }
                            }
                            if before.contains((p.row * side + p.col) as usize) {
                                assert(visits_within(grid@, start, steps as nat, p));
                                let n = choose|n: nat|
                                    n <= steps && stands_on(grid@, start, None, n, p);
                                assert(n <= reached && stands_on(grid@, start, None, n, p));
                            }
                        }
                    }
                    current = next;
                },
                StepResult::Rotated(next) => {
                    proof {
                        let reached = (steps + 1) as nat;
                        assert forall|p: Position| grid@.in_bounds(p) implies (cells@.contains(
                            (p.row * side + p.col) as usize,
                        ) <==> #[trigger] visits_within(grid@, start, reached, p)) by {
                            if visits_within(grid@, start, reached, p) {
                                let n = choose|n: nat|
                                    n <= reached && stands_on(grid@, start, None, n, p);
                                if n == reached {
                                    assert(stands_on(grid@, start, None, steps as nat, p));
                                }
                                assert(visits_within(grid@, start, steps as nat, p));
                            }
                            if visits_within(grid@, start, steps as nat, p) {
                                let n = choose|n: nat|
                                    n <= steps && stands_on(grid@, start, None, n, p);
                                assert(n <= reached && stands_on(grid@, start, None, n, p));
                            }
                        }
                    }
                    current = next;
                },
            }
            steps = steps + 1;
        }
    }
}

/// The positions on a grid are finitely many, and so are those of a walk.
pub proof fn lemma_baseline_finite(grid: Plan)
    requires
        grid.wf(),
    ensures
        baseline(grid).finite(),
        baseline(grid).len() <= grid.side * grid.side,
        forall|p: Position| baseline(grid).contains(p) ==> grid.in_bounds(p),
{
    grid.lemma_wf();
    let side = grid.side as int;
    let places = set_int_range(0, side * side);
    let place = |k: int| position_of(k, side);
    lemma_int_range(0, side * side);
    places.lemma_map_finite(place);
    lemma_map_size_bound(places, places.map(place), place);
    assert forall|p: Position| baseline(grid).contains(p) implies grid.in_bounds(p)
        && #[trigger] places.map(place).contains(p) by {
        let n = choose|n: nat| stands_on(grid, grid.start, None, n, p);
        lemma_walk_on_grid(grid, grid.start, None, n);
        grid.lemma_cell_index(p, p);
        lemma_position_of_index(p, side);
        assert(places.contains(p.row * side + p.col));
    }
    lemma_len_subset(baseline(grid), places.map(place));
}

/// Two traces of one grid give the same result: the positions visited are
/// decided by the grid alone.
pub proof fn lemma_trace_is_deterministic(
    grid: Plan,
    first: Result<Set<Position>, InvariantViolation>,
    second: Result<Set<Position>, InvariantViolation>,
)
    requires
        first == trace_spec(grid),
        second == trace_spec(grid),
    ensures
        first == second,
{
}

/// A position on which the guard stands at two times, or more, is one
/// position of the walk: without it the visited positions are one fewer.
pub proof fn lemma_revisit_counts_once(grid: Plan, p: Position, i: nat, j: nat)
    requires
        grid.wf(),
        i != j,
        stands_on(grid, grid.start, None, i, p),
        stands_on(grid, grid.start, None, j, p),
    ensures
        baseline(grid).finite(),
        baseline(grid).contains(p),
        baseline(grid).remove(p).len() + 1 == baseline(grid).len(),
{
    lemma_baseline_finite(grid);
}

/// A guard that starts at the edge of the grid and faces outward leaves at
/// its first step: it stands on its start and on no other position.
pub proof fn lemma_start_at_edge(grid: Plan)
    requires
        grid.wf(),
        step_spec(grid, grid.start, None) == StepResult::Exited,
    ensures
        exits(grid, grid.start, None),
        baseline(grid) == Set::<Position>::empty().insert(grid.start.position),
        baseline(grid).len() == 1,
{
    assert(walk(grid, grid.start, None, 0) == Some(grid.start));
    assert(walk(grid, grid.start, None, 1) is None);
    assert(stands_on(grid, grid.start, None, 0, grid.start.position));
    assert forall|p: Position| baseline(grid).contains(p) implies p == grid.start.position by {
        let n = choose|n: nat| stands_on(grid, grid.start, None, n, p);
        if n >= 1 {
            lemma_walk_stays_out(grid, grid.start, None, 1, n);
        }
    }
    assert(baseline(grid) =~= Set::<Position>::empty().insert(grid.start.position));
}

} // verus!
