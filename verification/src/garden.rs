//! A garden of plots: regions of one plant, their areas, fences and
//! sides.

use crate::answer::fits_usize;
use crate::field::{
    lemma_next_few, lemma_reach_joins, lemma_reach_on_table, next_cells,
    next_spec, reach_from, reachable, Field, Rule,
};
use crate::square::{
    add_points, holds_place, point_is, side_of, sum_row, sum_rows, CellSet,
};
use crate::text::is_space;
use vstd::prelude::*;

verus! {

/// The plants of a text: the codes of its characters but for the blanks.
pub open spec fn plots(text: Seq<char>) -> Seq<u32> {
    text.filter(|c: char| !is_space(c)).map_values(|c: char| c as u32)
}

/// Whether a place belongs to the region of a cell: it lies on the map and
/// is reached from the cell over neighbours of one plant.
pub open spec fn in_region(values: Seq<u32>, side: nat, leader: (usize, usize), q: (int, int)) -> bool {
    0 <= q.0 < side && 0 <= q.1 < side && reachable(
        values,
        side,
        Rule::Level,
        leader,
        (q.0 as usize, q.1 as usize),
    )
}

/// The four sides of a cell: the step across the side, and the step along
/// it.
pub open spec fn side_of_cell(d: int) -> ((int, int), (int, int)) {
    if d == 0 {
        ((1, 0), (0, 1))
    } else if d == 1 {
        ((0, 1), (1, 0))
    } else if d == 2 {
        ((0, -1), (-1, 0))
    } else {
        ((-1, 0), (0, -1))
    }
}

/// Whether the region ends at a side of a cell: the cell belongs to it and
/// the cell across the side does not.
pub open spec fn ends_at(
    values: Seq<u32>,
    side: nat,
    leader: (usize, usize),
    q: (int, int),
    d: int,
) -> bool {
    let across = side_of_cell(d).0;
    in_region(values, side, leader, q) && !in_region(
        values,
        side,
        leader,
        (q.0 + across.0, q.1 + across.1),
    )
}

/// Whether a side of the region begins at a side of a cell: the region ends
/// there, and it does not at the same side of the cell before it along the
/// side.
pub open spec fn side_begins(
    values: Seq<u32>,
    side: nat,
    leader: (usize, usize),
    q: (int, int),
    d: int,
) -> bool {
    let along = side_of_cell(d).1;
    ends_at(values, side, leader, q, d) && !ends_at(
        values,
        side,
        leader,
        (q.0 - along.0, q.1 - along.1),
        d,
    )
}

/// One for what holds, zero for what does not.
pub open spec fn one_if(b: bool) -> nat {
    if b {
        1
    } else {
        0
    }
}

/// What a cell adds to the measure of a region: nothing unless it belongs
/// to the region; else, with `bulk`, the number of sides of the region that
/// begin at the cell, and without, the number of its neighbours that are not
/// of its plant, the edge of the map counting as such.
pub open spec fn measure_at(
    values: Seq<u32>,
    side: nat,
    leader: (usize, usize),
    bulk: bool,
    q: (int, int),
) -> nat {
    if !in_region(values, side, leader, q) {
        0
    } else if bulk {
        one_if(side_begins(values, side, leader, q, 0)) + one_if(
            side_begins(values, side, leader, q, 1),
        ) + one_if(side_begins(values, side, leader, q, 2)) + one_if(
            side_begins(values, side, leader, q, 3),
        )
    } else {
        (4 - next_spec(values, side, Rule::Level, (q.0 as usize, q.1 as usize)).len()) as nat
    }
}

/// The measure of a region, cell by cell.
pub open spec fn measure_of(values: Seq<u32>, side: nat, leader: (usize, usize), bulk: bool) -> spec_fn(
    int,
    int,
) -> nat {
    |row: int, col: int| measure_at(values, side, leader, bulk, (row, col))
}

/// The cells of a region, counted cell by cell.
pub open spec fn area_of(values: Seq<u32>, side: nat, leader: (usize, usize)) -> spec_fn(
    int,
    int,
) -> nat {
    |row: int, col: int| one_if(in_region(values, side, leader, (row, col)))
}

/// The price of the region of a cell: its area times its measure.
pub open spec fn price(values: Seq<u32>, side: nat, leader: (usize, usize), bulk: bool) -> nat {
    sum_rows(area_of(values, side, leader), side, side) * sum_rows(
        measure_of(values, side, leader, bulk),
        side,
        side,
    )
}

/// Whether a cell of the map comes before a row and a column in reading
/// order.
pub open spec fn before(side: nat, e: (usize, usize), row: int, col: int) -> bool {
    e.0 < side && e.1 < side && (e.0 < row || (e.0 == row && e.1 < col))
}

/// Whether a place is reached from a cell that comes before a row and a
/// column.
pub open spec fn covered(values: Seq<u32>, side: nat, row: int, col: int, q: (int, int)) -> bool {
    0 <= q.0 < side && 0 <= q.1 < side && exists|e: (usize, usize)|
        before(side, e, row, col) && #[trigger] reachable(
            values,
            side,
            Rule::Level,
            e,
            (q.0 as usize, q.1 as usize),
        )
}

/// What a cell adds to the price of the garden: the price of its region
/// where no cell before it reaches it, and nothing else. So each region is
/// paid for once, at its first cell.
pub open spec fn price_at(values: Seq<u32>, side: nat, bulk: bool) -> spec_fn(int, int) -> nat {
    |row: int, col: int|
        if covered(values, side, row, col, (row, col)) {
            0
        } else {
            price(values, side, (row as usize, col as usize), bulk)
        }
}

/// The price of the garden of a text: nothing for a text without plants,
/// and `None` where the plants of the text make no square.
pub open spec fn solve_spec(text: Seq<char>, bulk: bool) -> Option<usize> {
    let values = plots(text);
    if values.len() == 0 {
        Some(0)
    } else {
        match side_of(values.len()) {
            Some(side) => fits_usize(sum_rows(price_at(values, side, bulk), side, side)),
            None => None,
        }
    }
}

/// The price with the fences paid by their length.
pub open spec fn part_one_spec(text: Seq<char>) -> Option<usize> {
    solve_spec(text, false)
}

/// The price with the fences paid by their number of sides.
pub open spec fn part_two_spec(text: Seq<char>) -> Option<usize> {
    solve_spec(text, true)
}

/// The plants of a text: the codes of its characters but for the blanks.
pub fn plots_of(input: &str) -> (r: Vec<u32>)
    ensures
        r@ == plots(input@),
{
    let mut out: Vec<u32> = Vec::new();
    proof {
        reveal(Seq::filter);
        assert(input@.take(0) =~= Seq::<char>::empty());
        assert(out@ =~= plots(input@.take(0)));
    }
    for c in it: input.chars()
        invariant
            it.seq() == input@,
            out@ == plots(input@.take(it.index() as int)),
    {
        let ghost before = out@;
        proof {
            reveal(Seq::filter);
            assert(input@.take(it.index() + 1).drop_last() == input@.take(it.index() as int));
        }
        if !(c == ' ' || c == '\t' || c == '\n' || c == '\r' || c as u32 == 12) {
            out.push(c as u32);
        }
        proof {
            assert(out@ =~= plots(input@.take(it.index() + 1)));
        }
    }
    proof {
        assert(input@.take(input@.len() as int) == input@);
    }
    out
}

/// The cells of the region of a cell of the map.
pub fn region_cells(field: &Field, leader: (usize, usize)) -> (region: CellSet)
    requires
        leader.0 < field.side(),
        leader.1 < field.side(),
    ensures
        region.side() == field.side(),
        forall|q: (int, int)|
            region@.contains(q) == in_region(field.values(), field.side(), leader, q),
{
    let side: usize = field.size();
    let reached = reach_from(field, leader, Rule::Level);
    let empty = CellSet::new(side);
    proof {
        assert forall|q: (int, int)| holds_place(reached@, q) == in_region(
            field.values(),
            field.side(),
            leader,
            q,
        ) by {
            if holds_place(reached@, q) {
                let i = choose|i: int| point_is(reached@, i, q);
                assert(reached@.contains(reached@[i]));
                lemma_reach_on_table(
                    field.values(),
                    field.side(),
                    Rule::Level,
                    leader,
                    reached@[i],
                );
            }
            if in_region(field.values(), field.side(), leader, q) {
                let cell = (q.0 as usize, q.1 as usize);
                assert(reached@.contains(cell));
                let i = choose|i: int| 0 <= i < reached@.len() && reached@[i] == cell;
                assert(point_is(reached@, i, q));
            }
        }
    }
    add_points(empty, &reached)
}

/// Whether a place that may lie off the map is in a set of cells.
fn holds(region: &CellSet, row: i128, col: i128) -> (b: bool)
    ensures
        b == region@.contains((row as int, col as int)),
{
    if row < 0 || col < 0 || row > usize::MAX as i128 || col > usize::MAX as i128 {
        proof {
            region.lemma_on_square((row as int, col as int));
        }
        false
    } else {
        region.contains(row as usize, col as usize)
    }
}

/// The four sides of a cell: the step across the side, and the step along
/// it.
fn side_steps(d: usize) -> (r: ((i8, i8), (i8, i8)))
    requires
        d < 4,
    ensures
        (r.0.0 as int, r.0.1 as int) == side_of_cell(d as int).0,
        (r.1.0 as int, r.1.1 as int) == side_of_cell(d as int).1,
{
    if d == 0 {
        ((1, 0), (0, 1))
    } else if d == 1 {
        ((0, 1), (1, 0))
    } else if d == 2 {
        ((0, -1), (-1, 0))
    } else {
        ((-1, 0), (0, -1))
    }
}

/// Whether the set ends at a side of a cell.
fn set_ends_at(region: &CellSet, row: i128, col: i128, d: usize) -> (b: bool)
    requires
        d < 4,
        -2 <= row <= usize::MAX + 2,
        -2 <= col <= usize::MAX + 2,
    ensures
        b == (region@.contains((row as int, col as int)) && !region@.contains(
            (row + side_of_cell(d as int).0.0, col + side_of_cell(d as int).0.1),
        )),
{
    let steps = side_steps(d);
    holds(region, row, col) && !holds(region, row + steps.0.0 as i128, col + steps.0.1 as i128)
}

/// What a cell adds to the measure of the region that the set holds.
fn measure_cell(field: &Field, region: &CellSet, row: usize, col: usize, bulk: bool) -> (n:
    usize)
    requires
        row < field.side(),
        col < field.side(),
    ensures
        n <= 4,
        forall|leader: (usize, usize)|
            (forall|q: (int, int)| region@.contains(q) == #[trigger] in_region(
                field.values(),
                field.side(),
                leader,
                q,
            )) ==> n == measure_at(
                field.values(),
                field.side(),
                leader,
                bulk,
                (row as int, col as int),
            ),
{
    if !region.contains(row, col) {
        return 0;
    }
    if !bulk {
        let same = next_cells(field, &(row, col), Rule::Level);
        proof {
            lemma_next_few(field.values(), field.side(), Rule::Level, (row, col));
        }
        return 4 - same.len();
    }
    let mut n: usize = 0;
    let mut d: usize = 0;
    let ghost head = (row as int, col as int);
    while d < 4
        invariant
            d <= 4,
            n <= d,
            head == (row as int, col as int),
            region@.contains(head),
            forall|leader: (usize, usize)|
                (forall|q: (int, int)| region@.contains(q) == #[trigger] in_region(
                    field.values(),
                    field.side(),
                    leader,
                    q,
                )) ==> n == (if d >= 1 {
                    one_if(side_begins(field.values(), field.side(), leader, head, 0))
                } else {
                    0
                }) + (if d >= 2 {
                    one_if(side_begins(field.values(), field.side(), leader, head, 1))
                } else {
                    0
                }) + (if d >= 3 {
                    one_if(side_begins(field.values(), field.side(), leader, head, 2))
                } else {
                    0
                }) + (if d >= 4 {
                    one_if(side_begins(field.values(), field.side(), leader, head, 3))
                } else {
                    0
                }),
        decreases 4 - d,
    {
        let steps = side_steps(d);
        let here: bool = set_ends_at(region, row as i128, col as i128, d);
        let there: bool = set_ends_at(
            region,
            row as i128 - steps.1.0 as i128,
            col as i128 - steps.1.1 as i128,
            d,
        );
        let begins: bool = here && !there;
        proof {
            assert forall|leader: (usize, usize)|
                (forall|q: (int, int)| region@.contains(q) == #[trigger] in_region(
                    field.values(),
                    field.side(),
                    leader,
                    q,
                )) implies begins == side_begins(
                field.values(),
                field.side(),
                leader,
                head,
                d as int,
            ) by {
                let across = side_of_cell(d as int).0;
                let along = side_of_cell(d as int).1;
                let back = (head.0 - along.0, head.1 - along.1);
                assert(region@.contains(head) == in_region(
                    field.values(),
                    field.side(),
                    leader,
                    head,
                ));
                assert(region@.contains((head.0 + across.0, head.1 + across.1)) == in_region(
                    field.values(),
                    field.side(),
                    leader,
                    (head.0 + across.0, head.1 + across.1),
                ));
                assert(region@.contains(back) == in_region(
                    field.values(),
                    field.side(),
                    leader,
                    back,
                ));
                assert(region@.contains((back.0 + across.0, back.1 + across.1)) == in_region(
                    field.values(),
                    field.side(),
                    leader,
                    (back.0 + across.0, back.1 + across.1),
                ));
            }
        }
        if begins {
            n = n + 1;
        }
        d = d + 1;
    }
    n
}

/// The price of the region of a cell of the map: its area times its
/// measure; `None` where the price does not fit the machine.
pub fn region_price(field: &Field, leader: (usize, usize), bulk: bool) -> (r: Option<usize>)
    requires
        leader.0 < field.side(),
        leader.1 < field.side(),
    ensures
        r == fits_usize(price(field.values(), field.side(), leader, bulk)),
{
    let side: usize = field.size();
    let region = region_cells(field, leader);
    let ghost values = field.values();
    let ghost count = area_of(values, side as nat, leader);
    let ghost weigh = measure_of(values, side as nat, leader, bulk);
    let ghost mut cells: nat = 0;
    let ghost mut weight: nat = 0;
    let mut area: usize = 0;
    let mut area_over: bool = false;
    let mut measure: usize = 0;
    let mut measure_over: bool = false;
    let mut row: usize = 0;
    while row < side
        invariant
            row <= side,
            side == field.side(),
            values == field.values(),
            region.side() == side,
            forall|q: (int, int)| region@.contains(q) == in_region(values, side as nat, leader, q),
            count == area_of(values, side as nat, leader),
            weigh == measure_of(values, side as nat, leader, bulk),
            cells == sum_rows(count, row as nat, side as nat),
            weight == sum_rows(weigh, row as nat, side as nat),
            area_over ==> cells > usize::MAX,
            !area_over ==> area == cells,
            measure_over ==> weight > usize::MAX,
            !measure_over ==> measure == weight,
        decreases side - row,
    {
        let ghost cells_before = cells;
        let ghost weight_before = weight;
        let mut col: usize = 0;
        while col < side
            invariant
                row < side,
                col <= side,
                side == field.side(),
                values == field.values(),
                region.side() == side,
                forall|q: (int, int)|
                    region@.contains(q) == in_region(values, side as nat, leader, q),
                count == area_of(values, side as nat, leader),
                weigh == measure_of(values, side as nat, leader, bulk),
                cells == cells_before + sum_row(count, row as int, col as nat),
                weight == weight_before + sum_row(weigh, row as int, col as nat),
                area_over ==> cells > usize::MAX,
                !area_over ==> area == cells,
                measure_over ==> weight > usize::MAX,
                !measure_over ==> measure == weight,
            decreases side - col,
        {
            if region.contains(row, col) {
                if !area_over {
                    match area.checked_add(1) {
                        Some(v) => {
                            area = v;
                        },
                        None => {
                            area_over = true;
                        },
                    }
                }
            }
            let part: usize = measure_cell(field, &region, row, col, bulk);
            if !measure_over {
                match measure.checked_add(part) {
                    Some(v) => {
                        measure = v;
                    },
                    None => {
                        measure_over = true;
                    },
                }
            }
            proof {
                cells = cells + count(row as int, col as int);
                weight = weight + weigh(row as int, col as int);
            }
            col = col + 1;
        }
        row = row + 1;
    }
    proof {
        let a = cells;
        let m = weight;
        if a > 0 && m > 0 {
            assert(a * m >= a && a * m >= m) by (nonlinear_arith)
                requires
                    a >= 1,
                    m >= 1,
            ;
        }
        assert(0 * m == 0 && a * 0 == 0) by (nonlinear_arith);
    }
    if (!area_over && area == 0) || (!measure_over && measure == 0) {
        Some(0)
    } else if area_over || measure_over {
        None
    } else {
        area.checked_mul(measure)
    }
}

/// Sums the prices of the regions of a map; `None` where the sum does not
/// fit the machine.
pub fn garden_price(field: &Field, bulk: bool) -> (r: Option<usize>)
    ensures
        r == fits_usize(
            sum_rows(price_at(field.values(), field.side(), bulk), field.side(), field.side()),
        ),
{
    let side: usize = field.size();
    let ghost values = field.values();
    let ghost f = price_at(values, side as nat, bulk);
    let ghost mut done: nat = 0;
    let mut total: usize = 0;
    let mut over: bool = false;
    let mut found = CellSet::new(side);
    let mut row: usize = 0;
    proof {
        assert forall|q: (int, int)| !covered(values, side as nat, 0, 0, q) by {}
    }
    while row < side
        invariant
            row <= side,
            side == field.side(),
            values == field.values(),
            found.side() == side,
            f == price_at(values, side as nat, bulk),
            forall|q: (int, int)|
                found@.contains(q) == covered(values, side as nat, row as int, 0, q),
            done == sum_rows(f, row as nat, side as nat),
            over ==> done > usize::MAX,
            !over ==> total == done,
        decreases side - row,
    {
        let ghost before_row = done;
        let mut col: usize = 0;
        while col < side
            invariant
                row < side,
                col <= side,
                side == field.side(),
                values == field.values(),
                found.side() == side,
                f == price_at(values, side as nat, bulk),
                forall|q: (int, int)|
                    found@.contains(q) == covered(values, side as nat, row as int, col as int, q),
                done == before_row + sum_row(f, row as int, col as nat),
                over ==> done > usize::MAX,
                !over ==> total == done,
            decreases side - col,
        {
            let ghost was = found@;
            if !found.contains(row, col) {
                let reached = reach_from(field, (row, col), Rule::Level);
                proof {
                    assert forall|q: (int, int)| holds_place(reached@, q) implies 0 <= q.0 < side
                        && 0 <= q.1 < side by {
                        let i = choose|i: int| point_is(reached@, i, q);
                        assert(reached@.contains(reached@[i]));
                        lemma_reach_on_table(values, side as nat, Rule::Level, (row, col), reached@[i]);
                    }
                }
                found = add_points(found, &reached);
                let cost: Option<usize> = region_price(field, (row, col), bulk);
                if !over {
                    match cost {
                        Some(c) => match total.checked_add(c) {
                            Some(v) => {
                                total = v;
                            },
                            None => {
                                over = true;
                            },
                        },
                        None => {
                            over = true;
                        },
                    }
                }
                proof {
                    assert forall|q: (int, int)|
                        found@.contains(q) == covered(
                            values,
                            side as nat,
                            row as int,
                            col + 1,
                            q,
                        ) by {
                        let cell = (q.0 as usize, q.1 as usize);
                        if covered(values, side as nat, row as int, col + 1, q) {
                            let e = choose|e: (usize, usize)|
                                before(side as nat, e, row as int, col + 1) && #[trigger] reachable(
                                    values,
                                    side as nat,
                                    Rule::Level,
                                    e,
                                    cell,
                                );
                            if e == (row, col) {
                                assert(reached@.contains(cell));
                                let i = choose|i: int| 0 <= i < reached@.len() && reached@[i] == cell;
                                assert(point_is(reached@, i, q));
                            } else {
                                assert(before(side as nat, e, row as int, col as int));
                                assert(covered(values, side as nat, row as int, col as int, q));
                            }
                        }
                        if was.contains(q) {
                            let e = choose|e: (usize, usize)|
                                before(side as nat, e, row as int, col as int)
                                    && #[trigger] reachable(values, side as nat, Rule::Level, e, cell);
                            assert(before(side as nat, e, row as int, col + 1));
                        }
                        if holds_place(reached@, q) {
                            let i = choose|i: int| point_is(reached@, i, q);
                            assert(reached@.contains(reached@[i]));
                            assert(before(side as nat, (row, col), row as int, col + 1));
                            assert(reachable(values, side as nat, Rule::Level, (row, col), cell));
                        }
                    }
                }
            } else {
                proof {
                    let here = (row as int, col as int);
                    let first = choose|e: (usize, usize)|
                        before(side as nat, e, row as int, col as int) && #[trigger] reachable(
                            values,
                            side as nat,
                            Rule::Level,
                            e,
                            (row, col),
                        );
                    assert forall|q: (int, int)|
                        found@.contains(q) == covered(
                            values,
                            side as nat,
                            row as int,
                            col + 1,
                            q,
                        ) by {
                        let cell = (q.0 as usize, q.1 as usize);
                        if covered(values, side as nat, row as int, col + 1, q) {
                            let e = choose|e: (usize, usize)|
                                before(side as nat, e, row as int, col + 1) && #[trigger] reachable(
                                    values,
                                    side as nat,
                                    Rule::Level,
                                    e,
                                    cell,
                                );
                            if e == (row, col) {
                                lemma_reach_joins(
                                    values,
                                    side as nat,
                                    Rule::Level,
                                    first,
                                    (row, col),
                                    cell,
                                );
                                assert(covered(values, side as nat, row as int, col as int, q));
                            } else {
                                assert(before(side as nat, e, row as int, col as int));
                                assert(covered(values, side as nat, row as int, col as int, q));
                            }
                        }
                        if found@.contains(q) {
                            let e = choose|e: (usize, usize)|
                                before(side as nat, e, row as int, col as int)
                                    && #[trigger] reachable(values, side as nat, Rule::Level, e, cell);
                            assert(before(side as nat, e, row as int, col + 1));
                        }
                    }
                }
            }
            proof {
                done = done + f(row as int, col as int);
            }
            col = col + 1;
        }
        proof {
            assert forall|q: (int, int)|
                covered(values, side as nat, row as int, side as int, q) == covered(
                    values,
                    side as nat,
                    row + 1,
                    0,
                    q,
                ) by {
                let cell = (q.0 as usize, q.1 as usize);
                if covered(values, side as nat, row as int, side as int, q) {
                    let e = choose|e: (usize, usize)|
                        before(side as nat, e, row as int, side as int) && #[trigger] reachable(
                            values,
                            side as nat,
                            Rule::Level,
                            e,
                            cell,
                        );
                    assert(before(side as nat, e, row + 1, 0));
                }
                if covered(values, side as nat, row + 1, 0, q) {
                    let e = choose|e: (usize, usize)|
                        before(side as nat, e, row + 1, 0) && #[trigger] reachable(
                            values,
                            side as nat,
                            Rule::Level,
                            e,
                            cell,
                        );
                    assert(before(side as nat, e, row as int, side as int));
                }
            }
        }
        row = row + 1;
    }
    if over {
        None
    } else {
        Some(total)
    }
}

fn solve(input: &str, bulk: bool) -> (r: Option<usize>)
    ensures
        r == solve_spec(input@, bulk),
{
    let values = plots_of(input);
    if values.len() == 0 {
        return Some(0);
    }
    match Field::from_values(values) {
        Some(field) => {
            proof {
                let side = field.side();
                assert(crate::square::is_side(side, plots(input@).len()));
                assert(side * side >= 1) by (nonlinear_arith)
                    requires
                        side >= 1,
                ;
            }
            garden_price(&field, bulk)
        },
        None => None,
    }
}

/// Lays the characters of `input` out as a square garden and sums, over
/// its regions of one plant, the area of the region times the length of its
/// fence.
pub fn part_one(input: &str) -> (r: Option<usize>)
    ensures
        r == part_one_spec(input@),
{
    solve(input, false)
}

/// Lays the characters of `input` out as a square garden and sums, over
/// its regions of one plant, the area of the region times the number of
/// straight sides of its fence.
pub fn part_two(input: &str) -> (r: Option<usize>)
    ensures
        r == part_two_spec(input@),
{
    solve(input, true)
}

} // verus!
