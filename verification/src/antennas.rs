//! Antennas on a square map: the places where pairs of equal frequency
//! resonate.

use crate::square::{
    add_points, as_place, holds_place, in_square, lemma_cell_of, lemma_holds_place_push, point_is,
    side_of, CellSet, Square,
};
use crate::text::is_space;
use itertools::Itertools;
use vstd::prelude::*;

verus! {

/// An antenna: its frequency and its place on the map.
#[derive(Clone, Copy, Debug, PartialEq, Eq, Structural)]
pub struct Antenna {
    pub frequency: char,
    pub row: usize,
    pub col: usize,
}

/// The characters of a text that stand for cells: all but the blanks.
pub open spec fn glyphs(text: Seq<char>) -> Seq<char> {
    text.filter(|c: char| !is_space(c))
}

/// The antennas of a map in reading order: every cell that is not `.` holds
/// one, with the cell's character as its frequency.
pub open spec fn antennas_of(items: Seq<char>, side: nat) -> Seq<Antenna>
    decreases items.len(),
{
    if items.len() == 0 {
        Seq::empty()
    } else if items.last() == '.' {
        antennas_of(items.drop_last(), side)
    } else {
        antennas_of(items.drop_last(), side).push(
            antenna_at(items.last(), items.len() - 1, side as int),
        )
    }
}

/// The antenna of the frequency `frequency` on the `k`-th cell in reading
/// order of a map of side `side`.
pub open spec fn antenna_at(frequency: char, k: int, side: int) -> Antenna {
    Antenna { frequency, row: (k / side) as usize, col: (k % side) as usize }
}

/// All pairs of items of a list in which the first stands before the
/// second: first the pairs with the first item, in the order of their second
/// items, then the pairs of the rest.
pub open spec fn combinations<T>(s: Seq<T>) -> Seq<(T, T)>
    decreases s.len(),
{
    if s.len() < 2 {
        Seq::empty()
    } else {
        Seq::new((s.len() - 1) as nat, |i: int| (s[0], s[i + 1])) + combinations(s.drop_first())
    }
}

/// The place as far from `a` as `b` is, on the other side of `a`.
pub open spec fn mirror(a: (int, int), b: (int, int)) -> (int, int) {
    (a.0 - (b.0 - a.0), a.1 - (b.1 - a.1))
}

/// The greatest common divisor.
pub open spec fn gcd(a: nat, b: nat) -> nat
    decreases b,
{
    if b == 0 {
        a
    } else {
        gcd(b, a % b)
    }
}

/// A number without its sign.
pub open spec fn magnitude(x: int) -> nat {
    if x >= 0 {
        x as nat
    } else {
        (-x) as nat
    }
}

/// A difference divided by a positive number, rounded towards zero.
pub open spec fn reduced(diff: int, by: nat) -> int {
    if diff >= 0 {
        diff / by as int
    } else {
        -((-diff) / by as int)
    }
}

/// The shortest step on the map along the line from `a` to `b`.
pub open spec fn step_between(a: (int, int), b: (int, int)) -> (int, int) {
    let g = gcd(magnitude(b.0 - a.0), magnitude(b.1 - a.1));
    (reduced(b.0 - a.0, g), reduced(b.1 - a.1, g))
}

/// Whether `p` is reached from `start` with `k` steps or fewer, all on the
/// map.
pub open spec fn on_ray(start: (int, int), step: (int, int), side: nat, p: (int, int), k: nat) -> bool
    decreases k,
{
    in_square(start, side) && (p == start || (k > 0 && on_ray(
        (start.0 + step.0, start.1 + step.1),
        step,
        side,
        p,
        (k - 1) as nat,
    )))
}

/// Whether `p` is reached from `start` with steps that all stay on the map.
pub open spec fn reaches(start: (int, int), step: (int, int), side: nat, p: (int, int)) -> bool {
    exists|k: nat| on_ray(start, step, side, p, k)
}

/// Whether `p` lies on the line through `a` and `b`, at `a`, at `b`, or
/// outward from them, a whole number of shortest steps away.
pub open spec fn in_line(a: (int, int), b: (int, int), side: nat, p: (int, int)) -> bool {
    let step = step_between(a, b);
    reaches(a, (-step.0, -step.1), side, p) || reaches(b, step, side, p)
}

/// The place of an antenna.
pub open spec fn place(a: Antenna) -> (int, int) {
    (a.row as int, a.col as int)
}

/// Whether a pair of antennas resonates at `p`: with harmonics anywhere in
/// line with the two, without at the two places as far from one as the other
/// is.
pub open spec fn resonates(a: Antenna, b: Antenna, side: nat, harmonics: bool, p: (int, int)) -> bool {
    a.frequency == b.frequency && in_square(p, side) && if harmonics {
        in_line(place(a), place(b), side, p)
    } else {
        p == mirror(place(a), place(b)) || p == mirror(place(b), place(a))
    }
}

/// Whether the `i`-th and the `j`-th antenna resonate at `p`.
pub open spec fn pair_resonates(
    antennas: Seq<Antenna>,
    side: nat,
    harmonics: bool,
    p: (int, int),
    i: int,
    j: int,
) -> bool {
    0 <= i < j < antennas.len() && resonates(antennas[i], antennas[j], side, harmonics, p)
}

/// The places on the map at which two antennas of one frequency resonate.
pub open spec fn antinodes(antennas: Seq<Antenna>, side: nat, harmonics: bool) -> Set<(int, int)> {
    Set::new(
        |p: (int, int)|
            exists|i: int, j: int| pair_resonates(antennas, side, harmonics, p, i, j),
    )
}

/// The number of antinodes of the map of a text; `None` where the
/// characters of the text make no square that the machine can hold.
pub open spec fn solve_spec(text: Seq<char>, harmonics: bool) -> Option<usize> {
    let items = glyphs(text);
    if items.len() == 0 {
        Some(0)
    } else if items.len() > isize::MAX {
        None
    } else {
        match side_of(items.len()) {
            Some(side) => Some(antinodes(antennas_of(items, side), side, harmonics).len() as usize),
            None => None,
        }
    }
}

/// The number of places at which two antennas of one frequency resonate,
/// each as far from one antenna as the other antenna is.
pub open spec fn part_one_spec(text: Seq<char>) -> Option<usize> {
    solve_spec(text, false)
}

/// The number of places in line with two antennas of one frequency.
pub open spec fn part_two_spec(text: Seq<char>) -> Option<usize> {
    solve_spec(text, true)
}

/// `tuple_combinations` of `itertools` on a copy of each antenna, taken in
/// pairs: every pair of two antennas of the list in which the first stands
/// before the second, ordered by the first and then by the second.
#[verifier::external_body]
fn tuple_pairs(antennas: &Vec<Antenna>) -> (pairs: Vec<(Antenna, Antenna)>)
    ensures
        pairs@ == combinations(antennas@),
{
    antennas.iter().copied().tuple_combinations().collect()
}

/// Whether the `k`-th pair of a list is the pair of its `i`-th and `j`-th
/// item.
pub open spec fn pair_at<T>(s: Seq<T>, k: int, i: int, j: int) -> bool {
    0 <= k < combinations(s).len() && 0 <= i < j < s.len() && combinations(s)[k] == (s[i], s[j])
}

/// Whether the `k`-th pair of a list is a pair of an earlier and a later
/// item.
pub open spec fn pair_of_two<T>(s: Seq<T>, k: int) -> bool {
    exists|i: int, j: int| pair_at(s, k, i, j)
}

/// Whether the pair of the `i`-th and the `j`-th item is among the pairs of
/// a list.
pub open spec fn listed<T>(s: Seq<T>, i: int, j: int) -> bool {
    exists|k: int| pair_at(s, k, i, j)
}

/// What the pairs of a list are: each is a pair of an earlier and a later
/// item, and each such pair is among them.
pub proof fn lemma_combinations<T>(s: Seq<T>)
    ensures
        forall|k: int| 0 <= k < combinations(s).len() ==> #[trigger] pair_of_two(s, k),
        forall|i: int, j: int| 0 <= i < j < s.len() ==> #[trigger] listed(s, i, j),
    decreases s.len(),
{
    if s.len() >= 2 {
        let rest = s.drop_first();
        let head = Seq::new((s.len() - 1) as nat, |i: int| (s[0], s[i + 1]));
        lemma_combinations(rest);
        assert forall|k: int| 0 <= k < combinations(s).len() implies #[trigger] pair_of_two(
            s,
            k,
        ) by {
            if k < head.len() {
                assert(pair_at(s, k, 0, k + 1));
            } else {
                let inner = k - head.len();
                assert(pair_of_two(rest, inner));
                let (i, j) = choose|i: int, j: int| pair_at(rest, inner, i, j);
                assert(pair_at(s, k, i + 1, j + 1));
            }
        }
        assert forall|i: int, j: int| 0 <= i < j < s.len() implies #[trigger] listed(s, i, j) by {
            if i == 0 {
                assert(pair_at(s, j - 1, i, j));
            } else {
                let (a, b) = (i - 1, j - 1);
                assert(listed(rest, a, b));
                let inner = choose|k: int| pair_at(rest, k, a, b);
                assert(pair_at(s, head.len() + inner, i, j));
            }
        }
    }
}

/// The characters of a text that stand for cells: all but the blanks.
pub fn glyphs_of(input: &str) -> (r: Vec<char>)
    ensures
        r@ == glyphs(input@),
{
    let mut out: Vec<char> = Vec::new();
    proof {
        reveal(Seq::filter);
        assert(input@.take(0) =~= Seq::<char>::empty());
    }
    for c in it: input.chars()
        invariant
            it.seq() == input@,
            out@ == glyphs(input@.take(it.index() as int)),
    {
        proof {
            reveal(Seq::filter);
            assert(input@.take(it.index() + 1).drop_last() == input@.take(it.index() as int));
        }
        if !(c == ' ' || c == '\t' || c == '\n' || c == '\r' || c as u32 == 12) {
            out.push(c);
        }
    }
    proof {
        assert(input@.take(input@.len() as int) == input@);
    }
    out
}

/// Lists the antennas of a map in reading order.
pub fn read_antennas(grid: &Square) -> (antennas: Vec<Antenna>)
    ensures
        antennas@ == antennas_of(grid.items(), grid.side()),
        forall|i: int|
            0 <= i < antennas@.len() ==> (#[trigger] antennas@[i]).row < grid.side()
                && antennas@[i].col < grid.side(),
{
    let side: usize = grid.size();
    let area: usize = side * side;
    let ghost items = grid.items();
    let mut antennas: Vec<Antenna> = Vec::new();
    let mut k: usize = 0;
    proof {
        assert(items.take(0) =~= Seq::<char>::empty());
    }
    while k < area
        invariant
            k <= area,
            area == side * side,
            side == grid.side(),
            side >= 1,
            items == grid.items(),
            items.len() == area,
            antennas@ == antennas_of(items.take(k as int), side as nat),
            forall|i: int|
                0 <= i < antennas@.len() ==> (#[trigger] antennas@[i]).row < side
                    && antennas@[i].col < side,
        decreases area - k,
    {
        proof {
            lemma_cell_of(k as int, side as int);
            assert(items.take(k + 1).drop_last() == items.take(k as int));
            assert(items.take(k + 1).last() == items[k as int]);
        }
        let row: usize = k / side;
        let col: usize = k % side;
        let ghost earlier = antennas@;
        match grid.get(row, col) {
            Some(c) => {
                if c != '.' {
                    antennas.push(Antenna { frequency: c, row, col });
                }
            },
            None => {},
        }
        proof {
            assert(antennas@ == earlier || antennas@ == earlier.push(
                antenna_at(items[k as int], k as int, side as int),
            ));
            assert forall|i: int| 0 <= i < antennas@.len() implies (#[trigger] antennas@[i]).row
                < side && antennas@[i].col < side by {
                if i < earlier.len() {
                    assert(antennas@[i] == earlier[i]);
                }
            }
        }
        k = k + 1;
    }
    proof {
        assert(items.take(area as int) == items);
    }
    antennas
}

/// The two places at which two antennas resonate without harmonics: on the
/// line through both, as far from one as the other is. They may lie off the
/// map.
pub fn get_distance_antinode(a: &(usize, usize), b: &(usize, usize)) -> (r: Vec<(i128, i128)>)
    ensures
        r@.len() == 2,
        (r@[0].0 as int, r@[0].1 as int) == mirror((a.0 as int, a.1 as int), (b.0 as int, b.1 as int)),
        (r@[1].0 as int, r@[1].1 as int) == mirror((b.0 as int, b.1 as int), (a.0 as int, a.1 as int)),
{
    let diff_row: i128 = b.0 as i128 - a.0 as i128;
    let diff_col: i128 = b.1 as i128 - a.1 as i128;
    let x1: (i128, i128) = (a.0 as i128 - diff_row, a.1 as i128 - diff_col);
    let x2: (i128, i128) = (b.0 as i128 + diff_row, b.1 as i128 + diff_col);
    let mut out: Vec<(i128, i128)> = Vec::new();
    out.push(x1);
    out.push(x2);
    out
}

/// The greatest common divisor.
pub fn gcd_of(a: u128, b: u128) -> (g: u128)
    ensures
        g == gcd(a as nat, b as nat),
{
    let mut x: u128 = a;
    let mut y: u128 = b;
    while y != 0
        invariant
            gcd(x as nat, y as nat) == gcd(a as nat, b as nat),
        decreases y,
    {
        let temp: u128 = y;
        y = x % y;
        x = temp;
    }
    x
}

/// The common divisor of two numbers is no more than either, unless that
/// one is zero.
proof fn lemma_gcd_bound(a: nat, b: nat)
    ensures
        a > 0 ==> gcd(a, b) <= a,
        b > 0 ==> gcd(a, b) <= b,
    decreases b,
{
    if b != 0 {
        lemma_gcd_bound(b, a % b);
        assert(a % b <= a) by (nonlinear_arith)
            requires
                b > 0,
        ;
        if a > 0 && a % b == 0 {
            vstd::arithmetic::div_mod::lemma_fundamental_div_mod(a as int, b as int);
            assert(a >= b) by (nonlinear_arith)
                requires
                    a > 0,
                    b > 0,
                    a == b * (a as int / b as int) + 0,
            ;
        }
    }
}

/// The common divisor of two numbers that are not both zero is not zero.
proof fn lemma_gcd_positive(a: nat, b: nat)
    requires
        a > 0 || b > 0,
    ensures
        gcd(a, b) > 0,
    decreases b,
{
    if b != 0 {
        lemma_gcd_positive(b, a % b);
    }
}

/// A difference divided by a positive number, rounded towards zero.
fn reduce(diff: i128, by: u128) -> (r: i128)
    requires
        by > 0,
        -0x1_0000_0000_0000_0000 < diff < 0x1_0000_0000_0000_0000,
    ensures
        r == reduced(diff as int, by as nat),
        magnitude(r as int) <= magnitude(diff as int),
        magnitude(diff as int) >= by ==> r != 0,
{
    if diff >= 0 {
        let positive: u128 = diff as u128;
        proof {
            vstd::arithmetic::div_mod::lemma_div_is_ordered_by_denominator(
                positive as int,
                1,
                by as int,
            );
            if positive >= by {
                vstd::arithmetic::div_mod::lemma_div_is_ordered(by as int, positive as int, by as int);
                vstd::arithmetic::div_mod::lemma_div_basics(by as int);
            }
        }
        (positive / by) as i128
    } else {
        let positive: u128 = (-diff) as u128;
        proof {
            vstd::arithmetic::div_mod::lemma_div_is_ordered_by_denominator(
                positive as int,
                1,
                by as int,
            );
            if positive >= by {
                vstd::arithmetic::div_mod::lemma_div_is_ordered(by as int, positive as int, by as int);
                vstd::arithmetic::div_mod::lemma_div_basics(by as int);
            }
        }
        -((positive / by) as i128)
    }
}

/// From a place that lies off the map nothing is reached; from one on the
/// map the place itself, and what is reached from the next place.
proof fn lemma_reaches(start: (int, int), step: (int, int), side: nat, p: (int, int))
    ensures
        reaches(start, step, side, p) == (in_square(start, side) && (p == start || reaches(
            (start.0 + step.0, start.1 + step.1),
            step,
            side,
            p,
        ))),
{
    let next = (start.0 + step.0, start.1 + step.1);
    if reaches(start, step, side, p) {
        let k = choose|k: nat| on_ray(start, step, side, p, k);
        if p != start {
            assert(on_ray(next, step, side, p, (k - 1) as nat));
        }
    }
    if in_square(start, side) && p == start {
        assert(on_ray(start, step, side, p, 0));
    }
    if in_square(start, side) && reaches(next, step, side, p) {
        let k = choose|k: nat| on_ray(next, step, side, p, k);
        assert(on_ray(start, step, side, p, k + 1));
    }
}

/// How many steps lead off the map at most.
spec fn room(at: int, step: int, side: nat) -> int {
    if step > 0 {
        side - at
    } else if step < 0 {
        at + 1
    } else {
        0
    }
}

/// Adds the places that are reached from `start` with steps that all stay
/// on the map.
fn walk_ray(start: (usize, usize), step: (i128, i128), grid_size: usize, points: &mut Vec<
    (usize, usize),
>)
    requires
        step.0 != 0 || step.1 != 0,
        -0x1_0000_0000_0000_0000 < step.0 < 0x1_0000_0000_0000_0000,
        -0x1_0000_0000_0000_0000 < step.1 < 0x1_0000_0000_0000_0000,
    ensures
        forall|p: (int, int)|
            holds_place(final(points)@, p) == (holds_place(old(points)@, p) || reaches(
                as_place(start),
                (step.0 as int, step.1 as int),
                grid_size as nat,
                p,
            )),
{
    let ghost origin = as_place(start);
    let ghost stride = (step.0 as int, step.1 as int);
    let ghost side = grid_size as nat;
    let mut cur: (i128, i128) = (start.0 as i128, start.1 as i128);
    while cur.0 >= 0 && cur.1 >= 0 && cur.0 < grid_size as i128 && cur.1 < grid_size as i128
        invariant
            stride == (step.0 as int, step.1 as int),
            side == grid_size as nat,
            step.0 != 0 || step.1 != 0,
            -0x1_0000_0000_0000_0000 < step.0 < 0x1_0000_0000_0000_0000,
            -0x1_0000_0000_0000_0000 < step.1 < 0x1_0000_0000_0000_0000,
            -0x1_0000_0000_0000_0000 < cur.0 < 0x2_0000_0000_0000_0000,
            -0x1_0000_0000_0000_0000 < cur.1 < 0x2_0000_0000_0000_0000,
            forall|p: (int, int)|
                (holds_place(old(points)@, p) || reaches(origin, stride, side, p)) == (
                #[trigger] holds_place(points@, p) || reaches(
                    (cur.0 as int, cur.1 as int),
                    stride,
                    side,
                    p,
                )),
        decreases
                (if in_square((cur.0 as int, cur.1 as int), side) {
                    room(cur.0 as int, stride.0, side) + room(cur.1 as int, stride.1, side)
                } else {
                    0
                }),
    {
        let here: (usize, usize) = (cur.0 as usize, cur.1 as usize);
        let ghost before = points@;
        let ghost at = (cur.0 as int, cur.1 as int);
        points.push(here);
        cur = (cur.0 + step.0, cur.1 + step.1);
        proof {
            assert forall|p: (int, int)|
                (holds_place(old(points)@, p) || reaches(origin, stride, side, p)) == (
                #[trigger] holds_place(points@, p) || reaches(
                    (cur.0 as int, cur.1 as int),
                    stride,
                    side,
                    p,
                )) by {
                lemma_reaches(at, stride, side, p);
                lemma_holds_place_push(before, here, p);
                assert(holds_place(before, p) || reaches(at, stride, side, p) == (holds_place(
                    old(points)@,
                    p,
                ) || reaches(origin, stride, side, p)));
            }
        }
    }
    proof {
        assert forall|p: (int, int)|
            holds_place(points@, p) == (holds_place(old(points)@, p) || reaches(
                origin,
                stride,
                side,
                p,
            )) by {
            lemma_reaches((cur.0 as int, cur.1 as int), stride, side, p);
        }
    }
}

/// The places in line with two antennas: from the first on away from the
/// second, and from the second on away from the first, in the shortest steps
/// that lead from cell to cell, as far as the map goes. The two antennas
/// stand on different cells.
pub fn get_diagonal_antinodes(a: &(usize, usize), b: &(usize, usize), grid_size: usize) -> (points:
    Vec<(usize, usize)>)
    requires
        a != b,
    ensures
        forall|p: (int, int)|
            holds_place(points@, p) == in_line(as_place(*a), as_place(*b), grid_size as nat, p),
{
    let mut points: Vec<(usize, usize)> = Vec::new();
    let diff_row: i128 = b.0 as i128 - a.0 as i128;
    let diff_col: i128 = b.1 as i128 - a.1 as i128;
    let size_row: u128 = if diff_row >= 0 {
        diff_row as u128
    } else {
        (-diff_row) as u128
    };
    let size_col: u128 = if diff_col >= 0 {
        diff_col as u128
    } else {
        (-diff_col) as u128
    };
    let divisor: u128 = gcd_of(size_row, size_col);
    proof {
        lemma_gcd_positive(size_row as nat, size_col as nat);
        lemma_gcd_bound(size_row as nat, size_col as nat);
        assert forall|p: (int, int)| !holds_place(points@, p) by {
            if holds_place(points@, p) {
                let i = choose|i: int| point_is(points@, i, p);
            }
        }
    }
    let step_row: i128 = reduce(diff_row, divisor);
    let step_col: i128 = reduce(diff_col, divisor);
    walk_ray(*a, (-step_row, -step_col), grid_size, &mut points);
    walk_ray(*b, (step_row, step_col), grid_size, &mut points);
    points
}

/// The cells of a map of side `side` at which two antennas of one
/// frequency on different cells resonate.
pub fn resonance_points(a: &Antenna, b: &Antenna, side: usize, harmonics: bool) -> (points: Vec<
    (usize, usize),
>)
    requires
        place(*a) != place(*b),
        a.frequency == b.frequency,
    ensures
        forall|p: (int, int)|
            holds_place(points@, p) == resonates(*a, *b, side as nat, harmonics, p),
{
    let from: (usize, usize) = (a.row, a.col);
    let to: (usize, usize) = (b.row, b.col);
    if harmonics {
        let points = get_diagonal_antinodes(&from, &to, side);
        proof {
            assert forall|p: (int, int)|
                holds_place(points@, p) == resonates(*a, *b, side as nat, harmonics, p) by {
                if in_line(place(*a), place(*b), side as nat, p) {
                    lemma_in_line_on_map(place(*a), place(*b), side as nat, p);
                }
            }
        }
        points
    } else {
        let nodes = get_distance_antinode(&from, &to);
        let mut points: Vec<(usize, usize)> = Vec::new();
        let first: (i128, i128) = nodes[0];
        let second: (i128, i128) = nodes[1];
        let ghost empty = points@;
        if 0 <= first.0 && first.0 < side as i128 && 0 <= first.1 && first.1 < side as i128 {
            points.push((first.0 as usize, first.1 as usize));
        }
        let ghost one = points@;
        if 0 <= second.0 && second.0 < side as i128 && 0 <= second.1 && second.1 < side as i128 {
            points.push((second.0 as usize, second.1 as usize));
        }
        proof {
            assert forall|p: (int, int)|
                holds_place(points@, p) == resonates(*a, *b, side as nat, harmonics, p) by {
                if holds_place(empty, p) {
                    let i = choose|i: int| point_is(empty, i, p);
                }
                if one.len() > 0 {
                    lemma_holds_place_push(empty, one[0], p);
                    assert(one == empty.push(one[0]));
                }
                if points@.len() > one.len() {
                    lemma_holds_place_push(one, points@[one.len() as int], p);
                    assert(points@ == one.push(points@[one.len() as int]));
                }
            }
        }
        points
    }
}

/// Whether the `m`-th of some pairs of antennas resonates at `p`.
pub open spec fn pair_hits(
    pairs: Seq<(Antenna, Antenna)>,
    side: nat,
    harmonics: bool,
    p: (int, int),
    m: int,
) -> bool {
    0 <= m < pairs.len() && resonates(pairs[m].0, pairs[m].1, side, harmonics, p)
}

/// Counts the places on a map of side `side` at which two of the antennas
/// resonate. The antennas stand on different cells.
pub fn count_antinodes(antennas: &Vec<Antenna>, side: usize, harmonics: bool) -> (n: usize)
    requires
        1 <= side,
        side * side <= usize::MAX,
        forall|i: int, j: int|
            0 <= i < j < antennas@.len() ==> place(#[trigger] antennas@[i]) != place(
                #[trigger] antennas@[j],
            ),
    ensures
        antinodes(antennas@, side as nat, harmonics).finite(),
        n == antinodes(antennas@, side as nat, harmonics).len(),
{
    let pairs = tuple_pairs(antennas);
    let mut found = CellSet::new(side);
    let mut k: usize = 0;
    proof {
        lemma_combinations(antennas@);
    }
    while k < pairs.len()
        invariant
            k <= pairs.len(),
            pairs@ == combinations(antennas@),
            found.side() == side,
            forall|m: int|
                0 <= m < combinations(antennas@).len() ==> #[trigger] pair_of_two(antennas@, m),
            forall|i: int, j: int|
                0 <= i < j < antennas@.len() ==> place(#[trigger] antennas@[i]) != place(
                    #[trigger] antennas@[j],
                ),
            forall|p: (int, int)|
                found@.contains(p) == exists|m: int|
                    m < k && pair_hits(pairs@, side as nat, harmonics, p, m),
        decreases pairs.len() - k,
    {
        let pair: (Antenna, Antenna) = pairs[k];
        let ghost before = found@;
        if pair.0.frequency == pair.1.frequency {
            proof {
                assert(pair_of_two(antennas@, k as int));
                let (i, j) = choose|i: int, j: int| pair_at(antennas@, k as int, i, j);
                assert(place(antennas@[i]) != place(antennas@[j]));
            }
            let points = resonance_points(&pair.0, &pair.1, side, harmonics);
            found = add_points(found, &points);
        }
        proof {
            assert forall|p: (int, int)|
                found@.contains(p) == exists|m: int|
                    m < k + 1 && pair_hits(pairs@, side as nat, harmonics, p, m) by {
                if before.contains(p) {
                    let m = choose|m: int|
                        m < k && pair_hits(pairs@, side as nat, harmonics, p, m);
                    assert(m < k + 1 && pair_hits(pairs@, side as nat, harmonics, p, m));
                }
                if resonates(pair.0, pair.1, side as nat, harmonics, p) {
                    assert(pair_hits(pairs@, side as nat, harmonics, p, k as int));
                }
                if exists|m: int| m < k + 1 && pair_hits(pairs@, side as nat, harmonics, p, m) {
                    let m = choose|m: int|
                        m < k + 1 && pair_hits(pairs@, side as nat, harmonics, p, m);
                    if m < k {
                        assert(before.contains(p));
                    }
                }
            }
        }
        k = k + 1;
    }
    proof {
        assert forall|p: (int, int)|
            found@.contains(p) == antinodes(antennas@, side as nat, harmonics).contains(p) by {
            if found@.contains(p) {
                let m = choose|m: int|
                    m < k && pair_hits(pairs@, side as nat, harmonics, p, m);
                assert(pair_of_two(antennas@, m));
                let (i, j) = choose|i: int, j: int| pair_at(antennas@, m, i, j);
                assert(pair_resonates(antennas@, side as nat, harmonics, p, i, j));
            }
            if antinodes(antennas@, side as nat, harmonics).contains(p) {
                let (i, j) = choose|i: int, j: int|
                    pair_resonates(antennas@, side as nat, harmonics, p, i, j);
                assert(listed(antennas@, i, j));
                let m = choose|m: int| pair_at(antennas@, m, i, j);
                assert(pair_hits(pairs@, side as nat, harmonics, p, m));
            }
        }
        assert(found@ =~= antinodes(antennas@, side as nat, harmonics));
    }
    found.len()
}

/// What is in line with two antennas lies on the map.
proof fn lemma_in_line_on_map(a: (int, int), b: (int, int), side: nat, p: (int, int))
    requires
        in_line(a, b, side, p),
    ensures
        in_square(p, side),
{
    let step = step_between(a, b);
    let back = (-step.0, -step.1);
    if reaches(a, back, side, p) {
        let k = choose|k: nat| on_ray(a, back, side, p, k);
        lemma_on_ray_on_map(a, back, side, p, k);
    } else {
        let k = choose|k: nat| on_ray(b, step, side, p, k);
        lemma_on_ray_on_map(b, step, side, p, k);
    }
}

/// What is reached on the map lies on the map.
proof fn lemma_on_ray_on_map(start: (int, int), step: (int, int), side: nat, p: (int, int), k: nat)
    requires
        on_ray(start, step, side, p, k),
    ensures
        in_square(p, side),
    decreases k,
{
    if p != start {
        lemma_on_ray_on_map((start.0 + step.0, start.1 + step.1), step, side, p, (k - 1) as nat);
    }
}

/// The place of an antenna in reading order.
pub open spec fn index_of(a: Antenna, side: nat) -> int {
    a.row * side + a.col
}

/// The antennas of a map stand on different cells.
proof fn lemma_antennas_apart(items: Seq<char>, side: nat)
    requires
        side >= 1,
        items.len() <= side * side,
        side <= usize::MAX,
    ensures
        forall|i: int|
            0 <= i < antennas_of(items, side).len() ==> 0 <= index_of(
                #[trigger] antennas_of(items, side)[i],
                side,
            ) < items.len(),
        forall|i: int, j: int|
            0 <= i < j < antennas_of(items, side).len() ==> place(
                #[trigger] antennas_of(items, side)[i],
            ) != place(#[trigger] antennas_of(items, side)[j]),
    decreases items.len(),
{
    if items.len() > 0 {
        let front = items.drop_last();
        let all = antennas_of(items, side);
        let before = antennas_of(front, side);
        lemma_antennas_apart(front, side);
        lemma_cell_of(items.len() - 1, side as int);
        assert(all == before || all == before.push(
            antenna_at(items.last(), items.len() - 1, side as int),
        ));
        assert forall|i: int| 0 <= i < all.len() implies 0 <= index_of(#[trigger] all[i], side)
            < items.len() by {
            if i < before.len() {
                assert(all[i] == before[i]);
            }
        }
        assert forall|i: int, j: int| 0 <= i < j < all.len() implies place(#[trigger] all[i])
            != place(#[trigger] all[j]) by {
            assert(all[i] == before[i]);
            if j < before.len() {
                assert(all[j] == before[j]);
            } else {
                assert(index_of(before[i], side) < items.len() - 1);
                assert(index_of(all[j], side) == items.len() - 1);
            }
        }
    }
}

fn solve(input: &str, harmonics: bool) -> (r: Option<usize>)
    ensures
        r == solve_spec(input@, harmonics),
{
    let flat_grid = glyphs_of(input);
    if flat_grid.len() == 0 {
        return Some(0);
    }
    let grid = match Square::from_items(flat_grid) {
        Some(grid) => grid,
        None => {
            return None;
        },
    };
    let side: usize = grid.size();
    let antennas = read_antennas(&grid);
    proof {
        lemma_antennas_apart(grid.items(), side as nat);
    }
    Some(count_antinodes(&antennas, side, harmonics))
}

/// Counts the cells of the square map in `input` that lie on the line
/// through two antennas of one frequency, as far from one as the other is.
pub fn part_one(input: &str) -> (r: Option<usize>)
    ensures
        r == part_one_spec(input@),
{
    solve(input, false)
}

/// Counts the cells of the square map in `input` that lie in line with two
/// antennas of one frequency, at them or outward from them.
pub fn part_two(input: &str) -> (r: Option<usize>)
    ensures
        r == part_two_spec(input@),
{
    solve(input, true)
}

} // verus!
