//! The walk of the guard as a sequence of states, and what holds of it.

use crate::patrol::grid::Plan;
use crate::patrol::model::{Outcome, Position, State, FACINGS};
use crate::patrol::stepper::step_spec;
use vstd::prelude::*;
use vstd::set_lib::{lemma_int_range, lemma_len_subset, set_int_range};

verus! {

/// The state of the guard after `n` steps from `start`, or `None` when it has
/// left the grid by then.
pub open spec fn walk(grid: Plan, start: State, obstruction: Option<Position>, n: nat) -> Option<
    State,
>
    decreases n,
{
    if n == 0 {
        Some(start)
    } else {
        match walk(grid, start, obstruction, (n - 1) as nat) {
            Some(s) => step_spec(grid, s, obstruction).next(),
            None => None,
        }
    }
}

/// Whether the guard leaves the grid at some time.
pub open spec fn exits(grid: Plan, start: State, obstruction: Option<Position>) -> bool {
    exists|n: nat| walk(grid, start, obstruction, n) is None
}

/// How the walk ends: the guard leaves the grid, or it walks for ever, which
/// it can only do in a loop.
pub open spec fn outcome_of(grid: Plan, start: State, obstruction: Option<Position>) -> Outcome {
    if exits(grid, start, obstruction) {
        Outcome::Exited
    } else {
        Outcome::Looped
    }
}

/// Whether the guard stands on `p` after `n` steps.
pub open spec fn stands_on(
    grid: Plan,
    start: State,
    obstruction: Option<Position>,
    n: nat,
    p: Position,
) -> bool {
    walk(grid, start, obstruction, n) is Some && walk(grid, start, obstruction, n).unwrap().position
        == p
}

/// Whether the guard stands on `p` at some time.
pub open spec fn visits(grid: Plan, start: State, obstruction: Option<Position>, p: Position) -> bool {
    exists|n: nat| stands_on(grid, start, obstruction, n, p)
}

/// Whether the first `k` states of the walk are on the grid and differ from
/// one another.
pub open spec fn fresh(grid: Plan, start: State, obstruction: Option<Position>, k: nat) -> bool {
    &&& forall|i: nat| i < k ==> (#[trigger] walk(grid, start, obstruction, i)) is Some
    &&& forall|i: nat, j: nat|
        i < j < k ==> #[trigger] walk(grid, start, obstruction, i) != #[trigger] walk(
            grid,
            start,
            obstruction,
            j,
        )
}

/// The number that stands for a state: each state on the grid has its own,
/// below the grid's state count.
pub open spec fn state_code(grid: Plan, s: State) -> int {
    (s.position.row * grid.side + s.position.col) * FACINGS + s.facing.index()
}

/// The codes of the first `k` states of the walk.
pub open spec fn codes(grid: Plan, start: State, obstruction: Option<Position>, k: nat) -> Set<int>
    decreases k,
{
    if k == 0 {
        Set::empty()
    } else {
        codes(grid, start, obstruction, (k - 1) as nat).insert(
            state_code(grid, walk(grid, start, obstruction, (k - 1) as nat).unwrap()),
        )
    }
}

/// Once the guard has left, it stays away.
pub proof fn lemma_walk_stays_out(
    grid: Plan,
    start: State,
    obstruction: Option<Position>,
    n: nat,
    m: nat,
)
    requires
        walk(grid, start, obstruction, n) is None,
        n <= m,
    ensures
        walk(grid, start, obstruction, m) is None,
    decreases m,
{
    if n < m {
        lemma_walk_stays_out(grid, start, obstruction, n, (m - 1) as nat);
    }
}

/// A walk that starts on the grid stays on the grid until it leaves.
pub proof fn lemma_walk_on_grid(grid: Plan, start: State, obstruction: Option<Position>, n: nat)
    requires
        grid.in_bounds(start.position),
    ensures
        walk(grid, start, obstruction, n) is Some ==> grid.in_bounds(
            walk(grid, start, obstruction, n).unwrap().position,
        ),
    decreases n,
{
    if n > 0 {
        lemma_walk_on_grid(grid, start, obstruction, (n - 1) as nat);
    }
}

/// From equal states the walk goes on equally.
pub proof fn lemma_walk_shift(
    grid: Plan,
    start: State,
    obstruction: Option<Position>,
    i: nat,
    j: nat,
    k: nat,
)
    requires
        walk(grid, start, obstruction, i) == walk(grid, start, obstruction, j),
    ensures
        walk(grid, start, obstruction, i + k) == walk(grid, start, obstruction, j + k),
    decreases k,
{
    if k > 0 {
        lemma_walk_shift(grid, start, obstruction, i, j, (k - 1) as nat);
    }
}

proof fn lemma_repeat_goes_on(
    grid: Plan,
    start: State,
    obstruction: Option<Position>,
    i: nat,
    j: nat,
    n: nat,
)
    requires
        i < j,
        walk(grid, start, obstruction, i) is Some,
        walk(grid, start, obstruction, i) == walk(grid, start, obstruction, j),
    ensures
        walk(grid, start, obstruction, n) is Some,
    decreases n,
{
    if n <= j {
        if walk(grid, start, obstruction, n) is None {
            lemma_walk_stays_out(grid, start, obstruction, n, j);
        }
    } else {
        let m = (n - (j - i)) as nat;
        lemma_repeat_goes_on(grid, start, obstruction, i, j, m);
        lemma_walk_shift(grid, start, obstruction, i, j, (n - j) as nat);
        assert(i + (n - j) as nat == m);
        assert(j + (n - j) as nat == n);
    }
}

/// A guard that is in one state at two times never leaves the grid.
pub proof fn lemma_repeat_never_exits(
    grid: Plan,
    start: State,
    obstruction: Option<Position>,
    i: nat,
    j: nat,
)
    requires
        i < j,
        walk(grid, start, obstruction, i) is Some,
        walk(grid, start, obstruction, i) == walk(grid, start, obstruction, j),
    ensures
        !exits(grid, start, obstruction),
{
    assert forall|n: nat| walk(grid, start, obstruction, n) is Some by {
        lemma_repeat_goes_on(grid, start, obstruction, i, j, n);
    }
}

/// The code of a state on the grid lies below the state count, and two such
/// states with one code are one state.
pub proof fn lemma_state_code(grid: Plan, s: State, t: State)
    requires
        grid.in_bounds(s.position),
        grid.in_bounds(t.position),
    ensures
        0 <= state_code(grid, s) < grid.state_count(),
        state_code(grid, s) == state_code(grid, t) ==> s == t,
{
    grid.lemma_cell_index(s.position, t.position);
    let n = grid.side as int;
    let a = s.position.row * n + s.position.col;
    let b = t.position.row * n + t.position.col;
    assert(a * 4 + 4 <= 4 * n * n) by (nonlinear_arith)
        requires
            a < n * n,
    ;
}

/// What the set of codes of the first `k` states holds.
pub proof fn lemma_codes(grid: Plan, start: State, obstruction: Option<Position>, k: nat)
    requires
        grid.in_bounds(start.position),
        fresh(grid, start, obstruction, k),
    ensures
        codes(grid, start, obstruction, k).finite(),
        codes(grid, start, obstruction, k).len() == k,
        codes(grid, start, obstruction, k).subset_of(set_int_range(0, grid.state_count() as int)),
        forall|c: int| #[trigger]
            codes(grid, start, obstruction, k).contains(c) <==> exists|i: nat|
                i < k && c == state_code(grid, #[trigger] walk(grid, start, obstruction, i).unwrap()),
    decreases k,
{
    if k > 0 {
        let prev = (k - 1) as nat;
        lemma_codes(grid, start, obstruction, prev);
        let before = codes(grid, start, obstruction, prev);
        let last = walk(grid, start, obstruction, prev).unwrap();
        let code = state_code(grid, last);
        assert(walk(grid, start, obstruction, prev) is Some);
        lemma_walk_on_grid(grid, start, obstruction, prev);
        lemma_state_code(grid, last, last);
        if before.contains(code) {
            let i = choose|i: nat|
                i < prev && code == state_code(
                    grid,
                    #[trigger] walk(grid, start, obstruction, i).unwrap(),
                );
            assert(walk(grid, start, obstruction, i) is Some);
            lemma_walk_on_grid(grid, start, obstruction, i);
            lemma_state_code(grid, walk(grid, start, obstruction, i).unwrap(), last);
            assert(walk(grid, start, obstruction, i) == walk(grid, start, obstruction, prev));
            assert(false);
        }
        assert forall|c: int| #[trigger]
            codes(grid, start, obstruction, k).contains(c) implies exists|i: nat|
            i < k && c == state_code(grid, #[trigger] walk(grid, start, obstruction, i).unwrap()) by {
            if c == code {
                assert(prev < k && c == state_code(
                    grid,
                    walk(grid, start, obstruction, prev).unwrap(),
                ));
            } else {
                assert(before.contains(c));
                let i = choose|i: nat|
                    i < prev && c == state_code(
                        grid,
                        #[trigger] walk(grid, start, obstruction, i).unwrap(),
                    );
                assert(i < k);
            }
        }
        assert forall|c: int|
            (exists|i: nat|
                i < k && c == state_code(
                    grid,
                    #[trigger] walk(grid, start, obstruction, i).unwrap(),
                )) implies #[trigger] codes(grid, start, obstruction, k).contains(c) by {
            let i = choose|i: nat|
                i < k && c == state_code(
                    grid,
                    #[trigger] walk(grid, start, obstruction, i).unwrap(),
                );
            if i < prev {
                assert(before.contains(c));
            }
        }
    }
}

/// States that differ from one another are no more than the grid has states.
pub proof fn lemma_fresh_bound(grid: Plan, start: State, obstruction: Option<Position>, k: nat)
    requires
        grid.in_bounds(start.position),
        fresh(grid, start, obstruction, k),
    ensures
        k <= grid.state_count(),
{
    lemma_codes(grid, start, obstruction, k);
    lemma_int_range(0, grid.state_count() as int);
    lemma_len_subset(
        codes(grid, start, obstruction, k),
        set_int_range(0, grid.state_count() as int),
    );
}

/// A guard that is still on the grid after as many steps as the grid has
/// states has been in some state twice, so it never leaves.
pub proof fn lemma_long_walk_loops(grid: Plan, start: State, obstruction: Option<Position>)
    requires
        grid.in_bounds(start.position),
        walk(grid, start, obstruction, grid.state_count()) is Some,
    ensures
        !exits(grid, start, obstruction),
{
    let k = grid.state_count() + 1;
    assert forall|i: nat| i < k implies (#[trigger] walk(grid, start, obstruction, i)) is Some by {
        if walk(grid, start, obstruction, i) is None {
            lemma_walk_stays_out(grid, start, obstruction, i, grid.state_count());
        }
    }
    if fresh(grid, start, obstruction, k) {
        lemma_fresh_bound(grid, start, obstruction, k);
    } else {
        let (i, j) = choose|i: nat, j: nat|
            i < j < k && #[trigger] walk(grid, start, obstruction, i) == #[trigger] walk(
                grid,
                start,
                obstruction,
                j,
            );
        lemma_repeat_never_exits(grid, start, obstruction, i, j);
    }
}

} // verus!
