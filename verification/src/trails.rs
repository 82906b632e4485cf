//! Hiking trails on a map of heights: from the lowest points up to the
//! summits, one higher with each step.

use crate::answer::fits_usize;
use crate::field::{reach_from, reachable, trails, value_at, ways_from, Field, Rule, SUMMIT};
use crate::square::{side_of, sum_row, sum_rows};
use crate::text::{digit, digit_of};
use vstd::prelude::*;

verus! {

/// The heights of a text: the values of its digits, in their order.
pub open spec fn heights(text: Seq<char>) -> Seq<u32> {
    text.filter_map(
        |c: char|
            match digit(c) {
                Some(d) => Some(d as u32),
                None => None,
            },
    )
}

/// The summits that are reached from a cell.
pub open spec fn summits_from(values: Seq<u32>, side: nat, start: (usize, usize)) -> Set<
    (usize, usize),
> {
    Set::new(
        |cell: (usize, usize)|
            reachable(values, side, Rule::Climbing, start, cell) && value_at(values, side, cell)
                == Some(SUMMIT),
    )
}

/// What a cell adds to the sum: nothing unless its height is zero; else,
/// with `rating`, the number of trails from it to a summit, and without, the
/// number of summits that are reached from it.
pub open spec fn worth(values: Seq<u32>, side: nat, rating: bool, cell: (usize, usize)) -> nat {
    if value_at(values, side, cell) == Some(0u32) {
        if rating {
            trails(values, side, cell)
        } else {
            summits_from(values, side, cell).len()
        }
    } else {
        0
    }
}

/// What is summed over the cells.
pub open spec fn cell_worth(values: Seq<u32>, side: nat, rating: bool) -> spec_fn(int, int) -> nat {
    |row: int, col: int| worth(values, side, rating, (row as usize, col as usize))
}

/// The sum over the map of a text; `None` where the heights of the text
/// make no square.
pub open spec fn solve_spec(text: Seq<char>, rating: bool) -> Option<usize> {
    let values = heights(text);
    if values.len() == 0 {
        Some(0)
    } else {
        match side_of(values.len()) {
            Some(side) => fits_usize(sum_rows(cell_worth(values, side, rating), side, side)),
            None => None,
        }
    }
}

/// The sum, over the cells of height zero, of the number of summits that
/// are reached from the cell.
pub open spec fn part_one_spec(text: Seq<char>) -> Option<usize> {
    solve_spec(text, false)
}

/// The sum, over the cells of height zero, of the number of trails from
/// the cell to a summit.
pub open spec fn part_two_spec(text: Seq<char>) -> Option<usize> {
    solve_spec(text, true)
}

/// How many of some cells are summits; a cell counts as often as it is
/// listed.
pub open spec fn summits_among(values: Seq<u32>, side: nat, cells: Seq<(usize, usize)>) -> nat
    decreases cells.len(),
{
    if cells.len() == 0 {
        0
    } else {
        summits_among(values, side, cells.drop_last()) + if value_at(values, side, cells.last())
            == Some(SUMMIT) {
            1nat
        } else {
            0nat
        }
    }
}

/// Among cells that are listed once each there are as many summits as the
/// set of the cells holds.
pub proof fn lemma_summits_once(values: Seq<u32>, side: nat, cells: Seq<(usize, usize)>)
    requires
        cells.no_duplicates(),
    ensures
        cells.to_set().filter(|c: (usize, usize)| value_at(values, side, c) == Some(SUMMIT)).finite(),
        summits_among(values, side, cells) == cells.to_set().filter(
            |c: (usize, usize)| value_at(values, side, c) == Some(SUMMIT),
        ).len(),
    decreases cells.len(),
{
    let keep = |c: (usize, usize)| value_at(values, side, c) == Some(SUMMIT);
    if cells.len() == 0 {
        assert(cells.to_set().filter(keep) =~= Set::<(usize, usize)>::empty());
    } else {
        let front = cells.drop_last();
        let last = cells.last();
        lemma_summits_once(values, side, front);
        assert(!front.contains(last)) by {
            if front.contains(last) {
                let i = choose|i: int| 0 <= i < front.len() && front[i] == last;
                assert(cells[i] == cells[cells.len() - 1]);
            }
        }
        assert forall|c: (usize, usize)| cells.to_set().contains(c) <==> front.to_set().contains(c)
            || c == last by {
            if cells.contains(c) {
                let i = choose|i: int| 0 <= i < cells.len() && cells[i] == c;
                if i < front.len() {
                    assert(front[i] == c);
                }
            }
            if front.contains(c) {
                let i = choose|i: int| 0 <= i < front.len() && front[i] == c;
                assert(cells[i] == c);
            }
            if c == last {
                assert(cells[cells.len() - 1] == c);
            }
        }
        if keep(last) {
            assert(cells.to_set().filter(keep) =~= front.to_set().filter(keep).insert(last));
        } else {
            assert(cells.to_set().filter(keep) =~= front.to_set().filter(keep));
        }
    }
}

/// The heights of a text: the values of its digits, in their order.
pub fn heights_of(input: &str) -> (r: Vec<u32>)
    ensures
        r@ == heights(input@),
{
    let mut out: Vec<u32> = Vec::new();
    proof {
        assert(input@.take(0) =~= Seq::<char>::empty());
    }
    for c in it: input.chars()
        invariant
            it.seq() == input@,
            out@ == heights(input@.take(it.index() as int)),
    {
        proof {
            assert(input@.take(it.index() + 1).drop_last() == input@.take(it.index() as int));
        }
        match digit_of(c) {
            Some(d) => {
                out.push(d as u32);
            },
            None => {},
        }
    }
    proof {
        assert(input@.take(input@.len() as int) == input@);
    }
    out
}

/// The number of summits that are reached from a cell.
pub fn score(field: &Field, start: (usize, usize)) -> (n: usize)
    ensures
        summits_from(field.values(), field.side(), start).finite(),
        n == summits_from(field.values(), field.side(), start).len(),
{
    let reached = reach_from(field, start, Rule::Climbing);
    let mut n: usize = 0;
    let mut i: usize = 0;
    proof {
        assert(reached@.take(0) =~= Seq::<(usize, usize)>::empty());
    }
    while i < reached.len()
        invariant
            i <= reached.len(),
            n <= i,
            n == summits_among(field.values(), field.side(), reached@.take(i as int)),
        decreases reached.len() - i,
    {
        proof {
            assert(reached@.take(i + 1).drop_last() == reached@.take(i as int));
        }
        if field.get(reached[i]) == Some(SUMMIT) {
            n = n + 1;
        }
        i = i + 1;
    }
    proof {
        assert(reached@.take(reached.len() as int) == reached@);
        lemma_summits_once(field.values(), field.side(), reached@);
        assert(reached@.to_set().filter(
            |c: (usize, usize)| value_at(field.values(), field.side(), c) == Some(SUMMIT),
        ) =~= summits_from(field.values(), field.side(), start));
    }
    n
}

/// What a cell adds to the sum: see [`worth`].
pub fn cell_value(field: &Field, cell: (usize, usize), rating: bool) -> (n: usize)
    ensures
        n == worth(field.values(), field.side(), rating, cell),
{
    if field.get(cell) == Some(0) {
        if rating {
            ways_from(field, cell)
        } else {
            score(field, cell)
        }
    } else {
        0
    }
}

/// Sums what the cells of a map add; `None` where the sum does not fit the
/// machine.
pub fn sum_over(field: &Field, rating: bool) -> (r: Option<usize>)
    ensures
        r == fits_usize(
            sum_rows(
                cell_worth(field.values(), field.side(), rating),
                field.side(),
                field.side(),
            ),
        ),
{
    let side: usize = field.size();
    let ghost f = cell_worth(field.values(), side as nat, rating);
    let ghost mut done: nat = 0;
    let mut total: usize = 0;
    let mut over: bool = false;
    let mut row: usize = 0;
    while row < side
        invariant
            row <= side,
            side == field.side(),
            f == cell_worth(field.values(), side as nat, rating),
            done == sum_rows(f, row as nat, side as nat),
            over ==> done > usize::MAX,
            !over ==> total == done,
        decreases side - row,
    {
        let ghost before = done;
        let mut col: usize = 0;
        while col < side
            invariant
                row < side,
                col <= side,
                side == field.side(),
                f == cell_worth(field.values(), side as nat, rating),
                done == before + sum_row(f, row as int, col as nat),
                over ==> done > usize::MAX,
                !over ==> total == done,
            decreases side - col,
        {
            let value: usize = cell_value(field, (row, col), rating);
            if !over {
                match total.checked_add(value) {
                    Some(sum) => {
                        total = sum;
                    },
                    None => {
                        over = true;
                    },
                }
            }
            proof {
                done = done + f(row as int, col as int);
            }
            col = col + 1;
        }
        row = row + 1;
    }
    if over {
        None
    } else {
        Some(total)
    }
}

fn solve(input: &str, rating: bool) -> (r: Option<usize>)
    ensures
        r == solve_spec(input@, rating),
{
    let values = heights_of(input);
    if values.len() == 0 {
        return Some(0);
    }
    match Field::from_values(values) {
        Some(field) => sum_over(&field, rating),
        None => None,
    }
}

/// Lays the digits of `input` out as a square map of heights and sums,
/// over the cells of height zero, the number of cells of height nine that
/// are reached from the cell with steps to a neighbour one higher.
pub fn part_one(input: &str) -> (r: Option<usize>)
    ensures
        r == part_one_spec(input@),
{
    solve(input, false)
}

/// Lays the digits of `input` out as a square map of heights and sums,
/// over the cells of height zero, the number of ways from the cell to a cell
/// of height nine with steps to a neighbour one higher.
pub fn part_two(input: &str) -> (r: Option<usize>)
    ensures
        r == part_two_spec(input@),
{
    solve(input, true)
}

} // verus!
