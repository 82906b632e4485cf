//! The search for obstructions: which single extra obstacle traps the guard
//! in a loop.

use crate::patrol::detector::LoopDetector;
use crate::patrol::grid::{Grid, Plan};
use crate::patrol::model::{Cell, Outcome, Position, State};
use crate::patrol::stepper::step_spec;
use crate::patrol::tracer::{
    baseline, lemma_baseline_finite, InvariantViolation, Tracer, VisitedPositions,
};
use crate::patrol::walk::{exits, stands_on, visits, walk};
use rayon::iter::{IntoParallelRefIterator, ParallelIterator};
use vstd::prelude::*;
use vstd::set_lib::lemma_len_subset;

verus! {

/// Whether an obstruction may be put on a position: it lies on the grid, it
/// is not the guard's start, and its cell is open.
pub open spec fn eligible(grid: Plan, p: Position) -> bool {
    grid.in_bounds(p) && p != grid.start.position && grid.cell(p) == Cell::Open
}

/// Whether a position is tested by the search: it is eligible and the guard
/// stands on it in its walk over the unchanged grid.
pub open spec fn is_candidate(grid: Plan, p: Position) -> bool {
    eligible(grid, p) && baseline(grid).contains(p)
}

/// Whether an obstruction on `p` keeps the guard on the grid for ever.
pub open spec fn traps(grid: Plan, p: Position) -> bool {
    !exits(grid, grid.start, Some(p))
}

/// The candidates whose obstruction traps the guard.
pub open spec fn loop_inducing(grid: Plan) -> Set<Position> {
    Set::new(|p: Position| is_candidate(grid, p) && traps(grid, p))
}

/// The eligible positions, visited or not, whose obstruction traps the guard.
pub open spec fn loop_inducing_anywhere(grid: Plan) -> Set<Position> {
    Set::new(|p: Position| eligible(grid, p) && traps(grid, p))
}

/// What the search gives: the number of candidates that trap the guard
/// where the guard leaves the unchanged grid, and `InvariantViolation` where
/// it walks in a loop without any obstruction.
pub open spec fn search_spec(grid: Plan) -> Result<nat, InvariantViolation> {
    if exits(grid, grid.start, None) {
        Ok(loop_inducing(grid).len())
    } else {
        Err(InvariantViolation)
    }
}

/// How many items of a list of positions trap the guard; a position counts
/// as often as it is listed.
pub open spec fn trapping_count(grid: Plan, candidates: Seq<Position>) -> nat
    decreases candidates.len(),
{
    if candidates.len() == 0 {
        0
    } else {
        trapping_count(grid, candidates.drop_last()) + if traps(grid, candidates.last()) {
            1nat
        } else {
            0nat
        }
    }
}

/// Whether a position comes before another in reading order.
pub open spec fn reads_before(a: Position, b: Position) -> bool {
    a.row < b.row || (a.row == b.row && a.col < b.col)
}

/// Whether a list of positions is in reading order; no position is listed
/// twice then.
pub open spec fn in_reading_order(list: Seq<Position>) -> bool {
    forall|i: int, j: int| 0 <= i < j < list.len() ==> reads_before(list[i], list[j])
}

/// Whether a position is picked from the grid: it is eligible and, where a
/// pool is given, in the pool.
pub open spec fn picked(grid: Plan, pool: Option<Set<Position>>, p: Position) -> bool {
    eligible(grid, p) && match pool {
        Some(s) => s.contains(p),
        None => true,
    }
}

/// The positions of the grid that are picked, in reading order.
fn pick(grid: &Grid, visited: Option<&VisitedPositions>) -> (r: Vec<Position>)
    ensures
        r@.no_duplicates(),
        in_reading_order(r@),
        forall|p: Position|
            r@.contains(p) <==> picked(
                grid@,
                match visited {
                    Some(v) => Some(v@),
                    None => None,
                },
                p,
            ),
{
    let ghost pool: Option<Set<Position>> = match visited {
        Some(v) => Some(v@),
        None => None,
    };
    let side: usize = grid.size();
    let start: State = grid.start();
    let mut out: Vec<Position> = Vec::new();
    let mut row: usize = 0;
    while row < side
        invariant
            row <= side,
            side == grid@.side,
            start == grid@.start,
            pool == match visited {
                Some(v) => Some(v@),
                None => None,
            },
            out@.no_duplicates(),
            in_reading_order(out@),
            forall|p: Position| out@.contains(p) <==> picked(grid@, pool, p) && p.row < row,
        decreases side - row,
    {
        let mut col: usize = 0;
        while col < side
            invariant
                row < side,
                col <= side,
                side == grid@.side,
                start == grid@.start,
                pool == match visited {
                    Some(v) => Some(v@),
                    None => None,
                },
                out@.no_duplicates(),
                in_reading_order(out@),
                forall|p: Position|
                    out@.contains(p) <==> picked(grid@, pool, p) && (p.row < row || (p.row == row
                        && p.col < col)),
            decreases side - col,
        {
            let p = Position { row, col };
            let ghost earlier = out@;
            let open: bool = match grid.cell_at(p) {
                Some(Cell::Open) => true,
                _ => false,
            };
            let pooled: bool = match visited {
                Some(v) => v.contains(p),
                None => true,
            };
            let keep: bool = open && pooled && p != start.position;
            if keep {
                out.push(p);
                proof {
                    assert(!earlier.contains(p));
                    assert(out@[earlier.len() as int] == p);
                    assert forall|i: int, j: int| 0 <= i < j < out@.len() implies reads_before(
                        out@[i],
                        out@[j],
                    ) by {
                        assert(out@[i] == earlier[i]);
                        if j < earlier.len() {
                            assert(out@[j] == earlier[j]);
                        } else {
                            assert(earlier.contains(earlier[i]));
                        }
                    }
                }
            }
            proof {
                assert(keep == picked(grid@, pool, p));
                assert forall|q: Position|
                    out@.contains(q) <==> picked(grid@, pool, q) && (q.row < row || (q.row == row
                        && q.col < col + 1)) by {
                    if earlier.contains(q) {
                        let i = choose|i: int| 0 <= i < earlier.len() && earlier[i] == q;
                        assert(out@[i] == q);
                    }
                    if out@.contains(q) && q != p {
                        let i = choose|i: int| 0 <= i < out@.len() && out@[i] == q;
                        assert(earlier[i] == q);
                    }
                    if q.row == row && q.col == col {
                        assert(q == p);
                    }
                }
            }
            col = col + 1;
        }
        row = row + 1;
    }
    out
}

/// Whether an obstruction on `p` makes the guard walk in a loop.
pub fn induces_loop(grid: &Grid, p: &Position) -> (b: bool)
    ensures
        b == traps(grid@, *p),
{
    let start: State = grid.start();
    LoopDetector::detect_loop(grid, start, Some(*p)) == Outcome::Looped
}

/// `rayon`'s `par_iter`, `filter` and `count` on a list of positions: the
/// positions are tested by `induces_loop`, each on its own and in no fixed
/// order, by as many workers as `rayon` has, and those that pass are counted.
#[verifier::external_body]
fn par_count_trapping(grid: &Grid, candidates: &Vec<Position>) -> (n: usize)
    ensures
        n == trapping_count(grid@, candidates@),
{
    candidates.par_iter().filter(|p| induces_loop(grid, p)).count()
}

/// The search for the obstructions that trap the guard.
pub struct ObstructionSearch;

impl ObstructionSearch {
    /// The positions to test, in reading order: those of `visited` that lie
    /// on the grid, are not the guard's start and hold no obstacle. None is
    /// listed twice.
    pub fn candidates(grid: &Grid, visited: &VisitedPositions) -> (r: Vec<Position>)
        ensures
            r@.no_duplicates(),
            in_reading_order(r@),
            forall|p: Position| r@.contains(p) <==> eligible(grid@, p) && visited@.contains(p),
            forall|p: Position|
                r@.contains(p) ==> p != grid@.start.position && grid@.lookup(p) == Some(
                    Cell::Open,
                ),
    {
        pick(grid, Some(visited))
    }

    /// Every position on which an obstruction may be put, in reading order:
    /// the open cells of the grid but for the guard's start.
    pub fn open_cells(grid: &Grid) -> (r: Vec<Position>)
        ensures
            r@.no_duplicates(),
            in_reading_order(r@),
            forall|p: Position| r@.contains(p) <==> eligible(grid@, p),
    {
        pick(grid, None)
    }

    /// Counts the positions of a list whose obstruction traps the guard, one
    /// after the other.
    pub fn count_trapping(grid: &Grid, candidates: &Vec<Position>) -> (n: usize)
        ensures
            n == trapping_count(grid@, candidates@),
    {
        let mut n: usize = 0;
        let mut i: usize = 0;
        while i < candidates.len()
            invariant
                i <= candidates.len(),
                n <= i,
                n == trapping_count(grid@, candidates@.take(i as int)),
            decreases candidates.len() - i,
        {
            proof {
                assert(candidates@.take(i + 1).drop_last() == candidates@.take(i as int));
            }
            if induces_loop(grid, &candidates[i]) {
                n = n + 1;
            }
            i = i + 1;
        }
        proof {
            assert(candidates@.take(candidates.len() as int) == candidates@);
        }
        n
    }

    /// Counts the positions of a list whose obstruction traps the guard,
    /// with the tests handed out to the workers of `rayon`. Each test reads
    /// the grid and nothing else, so the number is that of
    /// [`ObstructionSearch::count_trapping`].
    pub fn count_trapping_parallel(grid: &Grid, candidates: &Vec<Position>) -> (n: usize)
        ensures
            n == trapping_count(grid@, candidates@),
    {
        par_count_trapping(grid, candidates)
    }

    /// Counts the single obstructions that trap the guard in a loop. Only
    /// the candidates are tested: the open cells, but for the start, on which
    /// the guard stands in its walk over the unchanged grid.
    ///
    /// On a grid on which the guard loops without any obstruction there are
    /// no candidates to take, and `InvariantViolation` is returned.
    pub fn count_loop_inducing_obstructions(grid: &Grid) -> (r: Result<usize, InvariantViolation>)
        ensures
            match r {
                Ok(n) => search_spec(grid@) == Ok::<nat, InvariantViolation>(n as nat),
                Err(e) => search_spec(grid@) == Err::<nat, InvariantViolation>(e),
            },
    {
        match Tracer::trace(grid) {
            Ok(visited) => {
                let candidates = ObstructionSearch::candidates(grid, &visited);
                let n = ObstructionSearch::count_trapping(grid, &candidates);
                proof {
                    lemma_count_is_set_size(grid@, candidates@);
                    assert(candidates@.to_set().filter(|p: Position| traps(grid@, p))
                        =~= loop_inducing(grid@));
                }
                Ok(n)
            },
            Err(e) => Err(e),
        }
    }

    /// As [`ObstructionSearch::count_loop_inducing_obstructions`], with the
    /// candidates tested in parallel.
    pub fn count_loop_inducing_obstructions_parallel(grid: &Grid) -> (r: Result<
        usize,
        InvariantViolation,
    >)
        ensures
            match r {
                Ok(n) => search_spec(grid@) == Ok::<nat, InvariantViolation>(n as nat),
                Err(e) => search_spec(grid@) == Err::<nat, InvariantViolation>(e),
            },
    {
        match Tracer::trace(grid) {
            Ok(visited) => {
                let candidates = ObstructionSearch::candidates(grid, &visited);
                let n = ObstructionSearch::count_trapping_parallel(grid, &candidates);
                proof {
                    lemma_count_is_set_size(grid@, candidates@);
                    assert(candidates@.to_set().filter(|p: Position| traps(grid@, p))
                        =~= loop_inducing(grid@));
                }
                Ok(n)
            },
            Err(e) => Err(e),
        }
    }

    /// Counts the single obstructions that trap the guard in a loop by
    /// testing every open cell but the start, visited or not.
    pub fn count_exhaustive(grid: &Grid) -> (n: usize)
        ensures
            loop_inducing_anywhere(grid@).finite(),
            n == loop_inducing_anywhere(grid@).len(),
    {
        let cells = ObstructionSearch::open_cells(grid);
        let n = ObstructionSearch::count_trapping(grid, &cells);
        proof {
            lemma_count_is_set_size(grid@, cells@);
            assert(cells@.to_set().filter(|p: Position| traps(grid@, p))
                =~= loop_inducing_anywhere(grid@));
        }
        n
    }
}

/// The count over a list in which no position occurs twice is the number of
/// positions in it that trap the guard: it depends on which positions are
/// listed, not on their order.
pub proof fn lemma_count_is_set_size(grid: Plan, candidates: Seq<Position>)
    requires
        candidates.no_duplicates(),
    ensures
        candidates.to_set().filter(|p: Position| traps(grid, p)).finite(),
        trapping_count(grid, candidates) == candidates.to_set().filter(
            |p: Position| traps(grid, p),
        ).len(),
    decreases candidates.len(),
{
    let keep = |p: Position| traps(grid, p);
    if candidates.len() == 0 {
        assert(candidates.to_set().filter(keep) =~= Set::<Position>::empty());
    } else {
        let front = candidates.drop_last();
        let last = candidates.last();
        lemma_count_is_set_size(grid, front);
        assert(!front.contains(last)) by {
            if front.contains(last) {
                let i = choose|i: int| 0 <= i < front.len() && front[i] == last;
                assert(candidates[i] == candidates[candidates.len() - 1]);
            }
        }
        assert forall|p: Position| candidates.to_set().contains(p) <==> front.to_set().contains(p)
            || p == last by {
            if candidates.contains(p) {
                let i = choose|i: int| 0 <= i < candidates.len() && candidates[i] == p;
                if i < front.len() {
                    assert(front[i] == p);
                }
            }
            if front.contains(p) {
                let i = choose|i: int| 0 <= i < front.len() && front[i] == p;
                assert(candidates[i] == p);
            }
            if p == last {
                assert(candidates[candidates.len() - 1] == p);
            }
        }
        if traps(grid, last) {
            assert(candidates.to_set().filter(keep) =~= front.to_set().filter(keep).insert(last));
        } else {
            assert(candidates.to_set().filter(keep) =~= front.to_set().filter(keep));
        }
    }
}

/// Two lists without repetition that hold the same positions give the same
/// count, whatever their order: the count is the same however the tests are
/// arranged.
pub proof fn lemma_count_ignores_order(grid: Plan, a: Seq<Position>, b: Seq<Position>)
    requires
        a.no_duplicates(),
        b.no_duplicates(),
        a.to_set() == b.to_set(),
    ensures
        trapping_count(grid, a) == trapping_count(grid, b),
{
    lemma_count_is_set_size(grid, a);
    lemma_count_is_set_size(grid, b);
}

/// Two searches of one grid give the same count, with one worker or with
/// many: the count is decided by the grid alone.
pub proof fn lemma_search_is_deterministic(
    grid: Plan,
    first: Result<nat, InvariantViolation>,
    second: Result<nat, InvariantViolation>,
)
    requires
        first == search_spec(grid),
        second == search_spec(grid),
    ensures
        first == second,
{
}

/// The count over a list is the sum of the counts over its two parts,
/// wherever it is parted: the count is the same with one worker or with many.
pub proof fn lemma_count_splits(grid: Plan, a: Seq<Position>, b: Seq<Position>)
    ensures
        trapping_count(grid, a + b) == trapping_count(grid, a) + trapping_count(grid, b),
    decreases b.len(),
{
    if b.len() == 0 {
        assert(a + b == a);
    } else {
        lemma_count_splits(grid, a, b.drop_last());
        assert((a + b).drop_last() == a + b.drop_last());
    }
}

/// An obstruction on a position that the guard never stands on changes
/// nothing of its walk.
pub proof fn lemma_unvisited_obstruction(grid: Plan, p: Position, n: nat)
    requires
        !baseline(grid).contains(p),
    ensures
        walk(grid, grid.start, Some(p), n) == walk(grid, grid.start, None, n),
    decreases n,
{
    if n > 0 {
        let before = (n - 1) as nat;
        lemma_unvisited_obstruction(grid, p, before);
        match walk(grid, grid.start, None, before) {
            Some(s) => {
                if step_spec(grid, s, Some(p)) != step_spec(grid, s, None) {
                    assert(stands_on(grid, grid.start, None, n, p));
                }
            },
            None => {},
        }
    }
}

/// The candidates that trap the guard are finitely many: no more than the
/// positions of the walk over the unchanged grid.
pub proof fn lemma_loop_inducing_finite(grid: Plan)
    requires
        grid.wf(),
    ensures
        loop_inducing(grid).finite(),
        loop_inducing(grid).len() <= baseline(grid).len(),
        loop_inducing(grid).len() <= grid.side * grid.side,
{
    lemma_baseline_finite(grid);
    lemma_len_subset(loop_inducing(grid), baseline(grid));
}

/// The candidates are never the start and never an obstacle, and each was
/// visited in the walk over the unchanged grid.
pub proof fn lemma_candidates_exclude(grid: Plan, p: Position)
    requires
        is_candidate(grid, p),
    ensures
        p != grid.start.position,
        grid.lookup(p) == Some(Cell::Open),
        visits(grid, grid.start, None, p),
{
}

/// On a grid that the guard leaves, testing the candidates alone finds what
/// testing every eligible cell finds: an obstruction that traps the guard
/// lies on its way.
pub proof fn lemma_pruning_is_sound(grid: Plan)
    requires
        exits(grid, grid.start, None),
    ensures
        loop_inducing(grid) == loop_inducing_anywhere(grid),
{
    assert forall|p: Position| eligible(grid, p) && traps(grid, p) implies baseline(
        grid,
    ).contains(p) by {
        if !baseline(grid).contains(p) {
            let n = choose|n: nat| walk(grid, grid.start, None, n) is None;
            lemma_unvisited_obstruction(grid, p, n);
        }
    }
    assert(loop_inducing(grid) =~= loop_inducing_anywhere(grid));
}

} // verus!
