//! A square of letters: how often a word stands in it, in any direction,
//! and how often two such words cross.

use crate::answer::fits_u32;
use crate::square::{item_at, side_of, sum_row, sum_rows, Square};
use crate::text::{alphabetic, is_alphabetic};
use vstd::prelude::*;

verus! {

/// The letters of a text, in their order.
pub open spec fn letters(text: Seq<char>) -> Seq<char> {
    text.filter(|c: char| alphabetic(c))
}

/// The word that is looked for.
pub open spec fn word() -> Seq<char> {
    seq!['X', 'M', 'A', 'S']
}

/// The eight directions: how row and column change from one letter to the
/// next.
pub open spec fn direction(d: int) -> (int, int) {
    if d == 0 {
        (0, 1)
    } else if d == 1 {
        (0, -1)
    } else if d == 2 {
        (1, 0)
    } else if d == 3 {
        (-1, 0)
    } else if d == 4 {
        (1, 1)
    } else if d == 5 {
        (1, -1)
    } else if d == 6 {
        (-1, 1)
    } else {
        (-1, -1)
    }
}

/// Whether the `i`-th letter of the word stands `i` steps from a cell in a
/// direction.
pub open spec fn letter_fits(
    items: Seq<char>,
    side: nat,
    row: int,
    col: int,
    d: int,
    i: int,
) -> bool {
    item_at(items, side, row + direction(d).0 * i, col + direction(d).1 * i) == Some(word()[i])
}

/// Whether the word stands in the square from a cell on in a direction.
pub open spec fn word_from(items: Seq<char>, side: nat, row: int, col: int, d: int) -> bool {
    forall|i: int| 0 <= i < 4 ==> letter_fits(items, side, row, col, d, i)
}

/// In how many of the first `dirs` directions the word stands from a cell
/// on.
pub open spec fn words_from(items: Seq<char>, side: nat, row: int, col: int, dirs: nat) -> nat
    decreases dirs,
{
    if dirs == 0 {
        0
    } else {
        words_from(items, side, row, col, (dirs - 1) as nat) + if word_from(
            items,
            side,
            row,
            col,
            dirs - 1,
        ) {
            1nat
        } else {
            0nat
        }
    }
}

/// Whether the letters M, A, S stand on a diagonal through a cell, in one
/// direction or the other: `lean` is 1 for the diagonal from the upper left
/// and -1 for the diagonal from the upper right.
pub open spec fn diagonal_spells(items: Seq<char>, side: nat, row: int, col: int, lean: int) -> bool {
    let first = item_at(items, side, row - 1, col - lean);
    let last = item_at(items, side, row + 1, col + lean);
    item_at(items, side, row, col) == Some('A') && ((first == Some('M') && last == Some('S')) || (
    first == Some('S') && last == Some('M')))
}

/// Whether two such diagonals cross in a cell.
pub open spec fn cross_at(items: Seq<char>, side: nat, row: int, col: int) -> bool {
    diagonal_spells(items, side, row, col, 1) && diagonal_spells(items, side, row, col, -1)
}

/// How often the word stands in a square, over all cells and directions.
pub open spec fn word_count(items: Seq<char>, side: nat) -> nat {
    sum_rows(|row: int, col: int| words_from(items, side, row, col, 8), side, side)
}

/// In how many cells of a square two diagonals cross.
pub open spec fn cross_count(items: Seq<char>, side: nat) -> nat {
    sum_rows(
        |row: int, col: int|
            if cross_at(items, side, row, col) {
                1nat
            } else {
                0nat
            },
        side,
        side,
    )
}

/// Whether the letters of a text make a square that the machine can hold.
pub open spec fn makes_square(text: Seq<char>) -> bool {
    letters(text).len() <= isize::MAX && side_of(letters(text).len()) is Some
}

/// How often the word stands in the square of the letters of a text;
/// `None` where the letters make no square.
pub open spec fn part_one_spec(text: Seq<char>) -> Option<u32> {
    if makes_square(text) {
        fits_u32(word_count(letters(text), side_of(letters(text).len()).unwrap()))
    } else {
        None
    }
}

/// In how many cells of the square of the letters of a text two diagonals
/// cross; `None` where the letters make no square or there is no letter.
pub open spec fn part_two_spec(text: Seq<char>) -> Option<u32> {
    if makes_square(text) && letters(text).len() > 0 {
        fits_u32(cross_count(letters(text), side_of(letters(text).len()).unwrap()))
    } else {
        None
    }
}

/// The letters of a text, in their order.
pub fn letters_of(input: &str) -> (r: Vec<char>)
    ensures
        r@ == letters(input@),
{
    let mut out: Vec<char> = Vec::new();
    proof {
        reveal(Seq::filter);
        assert(input@.take(0) =~= Seq::<char>::empty());
    }
    for c in it: input.chars()
        invariant
            it.seq() == input@,
            out@ == letters(input@.take(it.index() as int)),
    {
        proof {
            reveal(Seq::filter);
            assert(input@.take(it.index() + 1).drop_last() == input@.take(it.index() as int));
        }
        if is_alphabetic(c) {
            out.push(c);
        }
    }
    proof {
        assert(input@.take(input@.len() as int) == input@);
    }
    out
}

/// How row and column change from one letter to the next in each of the
/// eight directions.
fn direction_of(d: usize) -> (r: (i8, i8))
    requires
        d < 8,
    ensures
        r.0 == direction(d as int).0,
        r.1 == direction(d as int).1,
{
    if d == 0 {
        (0, 1)
    } else if d == 1 {
        (0, -1)
    } else if d == 2 {
        (1, 0)
    } else if d == 3 {
        (-1, 0)
    } else if d == 4 {
        (1, 1)
    } else if d == 5 {
        (1, -1)
    } else if d == 6 {
        (-1, 1)
    } else {
        (-1, -1)
    }
}

/// The letters of the word.
fn word_letter(i: usize) -> (c: char)
    requires
        i < 4,
    ensures
        c == word()[i as int],
{
    if i == 0 {
        'X'
    } else if i == 1 {
        'M'
    } else if i == 2 {
        'A'
    } else {
        'S'
    }
}

/// The item at a row and a column that may lie off the square.
fn item(grid: &Square, row: i128, col: i128) -> (r: Option<char>)
    ensures
        r == grid.at(row as int, col as int),
{
    let side: usize = grid.size();
    if row < 0 || col < 0 || row >= side as i128 || col >= side as i128 {
        None
    } else {
        grid.get(row as usize, col as usize)
    }
}

/// Whether the word stands in the square from a cell on in a direction.
pub fn has_word(grid: &Square, row: usize, col: usize, d: usize) -> (b: bool)
    requires
        d < 8,
    ensures
        b == word_from(grid.items(), grid.side(), row as int, col as int, d as int),
{
    let step: (i8, i8) = direction_of(d);
    let mut i: usize = 0;
    while i < 4
        invariant
            i <= 4,
            d < 8,
            step.0 == direction(d as int).0,
            step.1 == direction(d as int).1,
            forall|k: int|
                0 <= k < i ==> letter_fits(
                    grid.items(),
                    grid.side(),
                    row as int,
                    col as int,
                    d as int,
                    k,
                ),
        decreases 4 - i,
    {
        assert(-3 <= step.0 * i <= 3 && -3 <= step.1 * i <= 3) by (nonlinear_arith)
            requires
                -1 <= step.0 <= 1,
                -1 <= step.1 <= 1,
                0 <= i < 4,
        ;
        let nr: i128 = row as i128 + step.0 as i128 * i as i128;
        let nc: i128 = col as i128 + step.1 as i128 * i as i128;
        if item(grid, nr, nc) != Some(word_letter(i)) {
            proof {
                assert(!letter_fits(
                    grid.items(),
                    grid.side(),
                    row as int,
                    col as int,
                    d as int,
                    i as int,
                ));
            }
            return false;
        }
        i = i + 1;
    }
    true
}

/// Whether two diagonals that spell M, A, S cross in a cell.
pub fn has_cross(grid: &Square, row: usize, col: usize) -> (b: bool)
    ensures
        b == cross_at(grid.items(), grid.side(), row as int, col as int),
{
    let r: i128 = row as i128;
    let c: i128 = col as i128;
    if item(grid, r, c) != Some('A') {
        return false;
    }
    let upper_left = item(grid, r - 1, c - 1);
    let lower_right = item(grid, r + 1, c + 1);
    let upper_right = item(grid, r - 1, c + 1);
    let lower_left = item(grid, r + 1, c - 1);
    let falling: bool = (upper_left == Some('M') && lower_right == Some('S')) || (upper_left
        == Some('S') && lower_right == Some('M'));
    let rising: bool = (upper_right == Some('M') && lower_left == Some('S')) || (upper_right
        == Some('S') && lower_left == Some('M'));
    falling && rising
}

/// What is summed over the cells: the words that begin in a cell, or the
/// cross in it.
pub open spec fn cell_count(items: Seq<char>, side: nat, crosses: bool) -> spec_fn(int, int) -> nat {
    if crosses {
        |row: int, col: int|
            if cross_at(items, side, row, col) {
                1nat
            } else {
                0nat
            }
    } else {
        |row: int, col: int| words_from(items, side, row, col, 8)
    }
}

/// Counts how often the word stands in the square, or, where `crosses`,
/// in how many cells two diagonals cross; `None` where the count exceeds
/// `u32::MAX`.
pub fn count_in(grid: &Square, crosses: bool) -> (r: Option<u32>)
    ensures
        r == fits_u32(
            if crosses {
                cross_count(grid.items(), grid.side())
            } else {
                word_count(grid.items(), grid.side())
            },
        ),
{
    let side: usize = grid.size();
    let ghost items = grid.items();
    let ghost f = cell_count(items, side as nat, crosses);
    let ghost mut done: nat = 0;
    let mut total: u32 = 0;
    let mut over: bool = false;
    let mut row: usize = 0;
    while row < side
        invariant
            row <= side,
            side == grid.side(),
            items == grid.items(),
            f == cell_count(items, side as nat, crosses),
            done == sum_rows(f, row as nat, side as nat),
            over ==> done > u32::MAX,
            !over ==> total == done,
        decreases side - row,
    {
        let ghost before = done;
        let mut col: usize = 0;
        while col < side
            invariant
                row < side,
                col <= side,
                side == grid.side(),
                items == grid.items(),
                f == cell_count(items, side as nat, crosses),
                done == before + sum_row(f, row as int, col as nat),
                over ==> done > u32::MAX,
                !over ==> total == done,
            decreases side - col,
        {
            if crosses {
                let hit: bool = has_cross(grid, row, col);
                if hit {
                    if total == u32::MAX {
                        over = true;
                    } else if !over {
                        total = total + 1;
                    }
                }
                proof {
                    done = done + f(row as int, col as int);
                }
            } else {
                let mut d: usize = 0;
                let ghost start = done;
                while d < 8
                    invariant
                        d <= 8,
                        side == grid.side(),
                        items == grid.items(),
                        done == start + words_from(
                            items,
                            side as nat,
                            row as int,
                            col as int,
                            d as nat,
                        ),
                        over ==> done > u32::MAX,
                        !over ==> total == done,
                    decreases 8 - d,
                {
                    let hit: bool = has_word(grid, row, col, d);
                    if hit {
                        if total == u32::MAX {
                            over = true;
                        } else if !over {
                            total = total + 1;
                        }
                        proof {
                            done = done + 1;
                        }
                    }
                    d = d + 1;
                }
            }
            col = col + 1;
        }
        row = row + 1;
    }
    if over {
        None
    } else {
        Some(total)
    }
}

/// Counts how often the word XMAS stands in the square that the letters of
/// `input` make, row after row: from any cell on, to the right, to the left,
/// down, up, and along the four diagonals.
pub fn part_one(input: &str) -> (r: Option<u32>)
    ensures
        r == part_one_spec(input@),
{
    let flat_grid = letters_of(input);
    if flat_grid.len() == 0 {
        proof {
            assert(crate::square::is_side(0, 0));
            crate::square::lemma_side_unique(0, side_of(0).unwrap(), 0);
        }
        return Some(0);
    }
    match Square::from_items(flat_grid) {
        Some(grid) => count_in(&grid, false),
        None => None,
    }
}

/// Counts the cells of the square that the letters of `input` make, row
/// after row, in which two diagonals cross that spell MAS, each in one
/// direction or the other.
pub fn part_two(input: &str) -> (r: Option<u32>)
    ensures
        r == part_two_spec(input@),
{
    let flat_grid = letters_of(input);
    match Square::from_items(flat_grid) {
        Some(grid) => {
            proof {
                let side = grid.side();
                assert(crate::square::is_side(side, letters(input@).len()));
                assert(side * side >= 1) by (nonlinear_arith)
                    requires
                        side >= 1,
                ;
            }
            count_in(&grid, true)
        },
        None => None,
    }
}

} // verus!
