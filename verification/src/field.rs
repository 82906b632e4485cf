//! A square table of numbers held by `pathfinding`, and the cells that are
//! reached over it.

use crate::square::side_of;
use pathfinding::directed::bfs::bfs_reach;
use pathfinding::directed::count_paths::count_paths;
use pathfinding::matrix::{Matrix, MatrixFormatError};
use vstd::prelude::*;

verus! {

/// The matrix of `pathfinding`.
#[verifier::external_type_specification]
#[verifier::external_body]
#[verifier::reject_recursive_types(C)]
pub struct ExMatrix<C>(Matrix<C>);

/// The error of `pathfinding` for values that make no matrix.
#[verifier::external_type_specification]
#[verifier::external_body]
pub struct ExMatrixFormatError(MatrixFormatError);

/// The number of rows of a matrix of numbers.
pub uninterp spec fn table_rows(m: Matrix<u32>) -> nat;

/// The number of columns of a matrix of numbers.
pub uninterp spec fn table_columns(m: Matrix<u32>) -> nat;

/// The values of a matrix of numbers, first row first.
pub uninterp spec fn table_values(m: Matrix<u32>) -> Seq<u32>;

/// How the cells that follow a cell are chosen among its neighbours.
#[derive(Clone, Copy, Debug, PartialEq, Eq, Structural)]
pub enum Rule {
    /// The neighbours whose value is one more than the cell's.
    Climbing,
    /// The neighbours whose value is the cell's.
    Level,
}

/// The value at a row and a column of a square of side `side` whose values
/// are listed row after row; `None` off the square.
pub open spec fn value_at(values: Seq<u32>, side: nat, cell: (usize, usize)) -> Option<u32> {
    if cell.0 < side && cell.1 < side {
        Some(values[cell.0 * side + cell.1])
    } else {
        None
    }
}

/// The neighbours of a cell on a square of side `side`: the cells above, to
/// the left, to the right and below, in this order, as far as they lie on the
/// square. A cell off the square has none.
pub open spec fn cross_of(side: nat, cell: (usize, usize)) -> Seq<(usize, usize)> {
    let (row, col) = cell;
    if row < side && col < side {
        (if row > 0 {
            seq![((row - 1) as usize, col)]
        } else {
            Seq::empty()
        }) + (if col > 0 {
            seq![(row, (col - 1) as usize)]
        } else {
            Seq::empty()
        }) + (if col + 1 < side {
            seq![(row, (col + 1) as usize)]
        } else {
            Seq::empty()
        }) + (if row + 1 < side {
            seq![((row + 1) as usize, col)]
        } else {
            Seq::empty()
        })
    } else {
        Seq::empty()
    }
}

/// Whether the value of a neighbour lets it follow a cell of the value
/// `from`.
pub open spec fn accepts(rule: Rule, from: u32, to: Option<u32>) -> bool {
    match rule {
        Rule::Climbing => from < u32::MAX && to == Some((from + 1) as u32),
        Rule::Level => to == Some(from),
    }
}

/// The cells that follow a cell: those of its neighbours that the rule
/// accepts, in the order of the neighbours.
pub open spec fn next_spec(values: Seq<u32>, side: nat, rule: Rule, cell: (usize, usize)) -> Seq<
    (usize, usize),
> {
    match value_at(values, side, cell) {
        Some(from) => cross_of(side, cell).filter(
            |to: (usize, usize)| accepts(rule, from, value_at(values, side, to)),
        ),
        None => Seq::empty(),
    }
}

/// Whether the cell behind the `i`-th of a list follows it.
pub open spec fn linked(
    values: Seq<u32>,
    side: nat,
    rule: Rule,
    path: Seq<(usize, usize)>,
    i: int,
) -> bool {
    next_spec(values, side, rule, path[i]).contains(path[i + 1])
}

/// Whether a list of cells is a way: it holds a cell, and each further cell
/// follows the one before it.
pub open spec fn is_way(values: Seq<u32>, side: nat, rule: Rule, path: Seq<(usize, usize)>) -> bool {
    path.len() >= 1 && forall|i: int|
        0 <= i < path.len() - 1 ==> #[trigger] linked(values, side, rule, path, i)
}

/// Whether a way leads from `from` to `to`.
pub open spec fn way_between(
    values: Seq<u32>,
    side: nat,
    rule: Rule,
    path: Seq<(usize, usize)>,
    from: (usize, usize),
    to: (usize, usize),
) -> bool {
    is_way(values, side, rule, path) && path[0] == from && path.last() == to
}

/// Whether `to` is reached from `from`: a way leads from one to the other.
/// Every cell is reached from itself.
pub open spec fn reachable(
    values: Seq<u32>,
    side: nat,
    rule: Rule,
    from: (usize, usize),
    to: (usize, usize),
) -> bool {
    exists|path: Seq<(usize, usize)>| way_between(values, side, rule, path, from, to)
}

/// The number of ways to climb `steps` steps from a cell, each step to a
/// neighbour one higher.
pub open spec fn climbs(values: Seq<u32>, side: nat, cell: (usize, usize), steps: nat) -> nat
    decreases steps, 0nat,
{
    if steps == 0 {
        1
    } else {
        climbs_over(
            values,
            side,
            next_spec(values, side, Rule::Climbing, cell),
            (steps - 1) as nat,
        )
    }
}

/// The number of ways to climb `steps` steps from one of some cells.
pub open spec fn climbs_over(
    values: Seq<u32>,
    side: nat,
    cells: Seq<(usize, usize)>,
    steps: nat,
) -> nat
    decreases steps, cells.len() + 1,
{
    if cells.len() == 0 {
        0
    } else {
        climbs_over(values, side, cells.drop_last(), steps) + climbs(
            values,
            side,
            cells.last(),
            steps,
        )
    }
}

/// The height of the summits.
pub const SUMMIT: u32 = 9;

/// The number of ways from a cell up to a summit, each step to a neighbour
/// one higher.
pub open spec fn trails(values: Seq<u32>, side: nat, cell: (usize, usize)) -> nat {
    match value_at(values, side, cell) {
        Some(height) => if height <= SUMMIT {
            climbs(values, side, cell, (SUMMIT - height) as nat)
        } else {
            0
        },
        None => 0,
    }
}

/// A cell that follows another is one of its neighbours and lies on the
/// square.
pub proof fn lemma_next_on_table(
    values: Seq<u32>,
    side: nat,
    rule: Rule,
    cell: (usize, usize),
    to: (usize, usize),
)
    requires
        next_spec(values, side, rule, cell).contains(to),
    ensures
        cross_of(side, cell).contains(to),
        to.0 < side && to.1 < side,
        value_at(values, side, cell) is Some,
        accepts(rule, value_at(values, side, cell).unwrap(), value_at(values, side, to)),
{
    let from = value_at(values, side, cell).unwrap();
    let keep = |to: (usize, usize)| accepts(rule, from, value_at(values, side, to));
    let around = cross_of(side, cell);
    around.lemma_filter_contains_rev(keep, to);
    let i = choose|i: int| 0 <= i < around.filter(keep).len() && around.filter(keep)[i] == to;
    around.lemma_filter_pred(keep, i);
    let j = choose|j: int| 0 <= j < around.len() && around[j] == to;
}

/// No cell is followed by more than four cells.
pub proof fn lemma_next_few(values: Seq<u32>, side: nat, rule: Rule, cell: (usize, usize))
    ensures
        next_spec(values, side, rule, cell).len() <= 4,
{
    match value_at(values, side, cell) {
        Some(from) => {
            let keep = |to: (usize, usize)| accepts(rule, from, value_at(values, side, to));
            cross_of(side, cell).lemma_filter_len(keep);
        },
        None => {},
    }
}

/// A way that begins on the square stays on the square.
pub proof fn lemma_way_on_table(
    values: Seq<u32>,
    side: nat,
    rule: Rule,
    path: Seq<(usize, usize)>,
    i: int,
)
    requires
        is_way(values, side, rule, path),
        path[0].0 < side && path[0].1 < side,
        0 <= i < path.len(),
    ensures
        path[i].0 < side && path[i].1 < side,
    decreases i,
{
    if i > 0 {
        lemma_way_on_table(values, side, rule, path, i - 1);
        assert(linked(values, side, rule, path, i - 1));
        lemma_next_on_table(values, side, rule, path[i - 1], path[i]);
    }
}

/// What is reached from a cell of the square lies on the square.
pub proof fn lemma_reach_on_table(
    values: Seq<u32>,
    side: nat,
    rule: Rule,
    from: (usize, usize),
    to: (usize, usize),
)
    requires
        reachable(values, side, rule, from, to),
        from.0 < side && from.1 < side,
    ensures
        to.0 < side && to.1 < side,
{
    let path = choose|path: Seq<(usize, usize)>| way_between(values, side, rule, path, from, to);
    lemma_way_on_table(values, side, rule, path, path.len() - 1);
}

/// What is reached from a cell that is reached is reached.
pub proof fn lemma_reach_joins(
    values: Seq<u32>,
    side: nat,
    rule: Rule,
    a: (usize, usize),
    b: (usize, usize),
    c: (usize, usize),
)
    requires
        reachable(values, side, rule, a, b),
        reachable(values, side, rule, b, c),
    ensures
        reachable(values, side, rule, a, c),
{
    let first = choose|path: Seq<(usize, usize)>| way_between(values, side, rule, path, a, b);
    let second = choose|path: Seq<(usize, usize)>| way_between(values, side, rule, path, b, c);
    let whole = first + second.drop_first();
    assert forall|i: int| 0 <= i < whole.len() - 1 implies #[trigger] linked(
        values,
        side,
        rule,
        whole,
        i,
    ) by {
        if i < first.len() - 1 {
            assert(linked(values, side, rule, first, i));
        } else {
            let j = i - (first.len() - 1);
            assert(linked(values, side, rule, second, j));
            assert(whole[i] == second[j]);
            assert(whole[i + 1] == second[j + 1]);
        }
    }
    assert(way_between(values, side, rule, whole, a, c));
}

/// `Matrix::square_from_vec` of `pathfinding` on one number or more: the
/// numbers make a matrix where their number is a square number, and no
/// matrix else. The matrix is square and holds the numbers first row
/// first.
#[verifier::external_body]
fn table_from_vec(values: Vec<u32>) -> (r: Result<Matrix<u32>, MatrixFormatError>)
    requires
        values@.len() > 0,
    ensures
        r.is_ok() == side_of(values@.len()).is_some(),
        (match r {
            Ok(m) => table_rows(m) == table_columns(m) && table_rows(m) * table_rows(m)
                == values@.len() && table_values(m) == values@,
            Err(_) => true,
        }),
{
    Matrix::square_from_vec(values)
}

/// `Matrix::get` of `pathfinding`: the value at a row and a column, or
/// `None` where they designate no cell.
#[verifier::external_body]
fn table_get(m: &Matrix<u32>, row: usize, col: usize) -> (r: Option<u32>)
    ensures
        r == (if row < table_rows(*m) && col < table_columns(*m) {
            Some(table_values(*m)[row * table_columns(*m) + col])
        } else {
            None
        }),
{
    m.get((row, col)).copied()
}

/// `Matrix::neighbours` of `pathfinding` without diagonals, on a square
/// matrix: the cells above, to the left, to the right and below the cell, in
/// this order, as far as the matrix goes; none for a cell off the matrix.
#[verifier::external_body]
fn table_neighbours(m: &Matrix<u32>, row: usize, col: usize, diagonals: bool) -> (r: Vec<
    (usize, usize),
>)
    requires
        !diagonals,
        table_rows(*m) == table_columns(*m),
        row < usize::MAX - 1,
        col < usize::MAX - 1,
    ensures
        r@ == cross_of(table_rows(*m), (row, col)),
{
    m.neighbours((row, col), diagonals).collect()
}

/// A square table of numbers with one row at least.
pub struct Field {
    table: Matrix<u32>,
    side: usize,
}

impl Field {
    /// The number of rows, which is the number of columns.
    pub closed spec fn side(&self) -> nat {
        self.side as nat
    }

    /// The values, row after row.
    pub closed spec fn values(&self) -> Seq<u32> {
        table_values(self.table)
    }

    /// The value at a cell; `None` off the table.
    pub open spec fn at(&self, cell: (usize, usize)) -> Option<u32> {
        value_at(self.values(), self.side(), cell)
    }

    #[verifier::type_invariant]
    spec fn inv(&self) -> bool {
        &&& table_rows(self.table) == self.side
        &&& table_columns(self.table) == self.side
        &&& self.side >= 1
        &&& table_values(self.table).len() == self.side * self.side
        &&& self.side * self.side <= usize::MAX
    }

    /// Lays the values out as a square, row after row. There is a square
    /// where the number of values is a square number and not zero.
    pub fn from_values(values: Vec<u32>) -> (r: Option<Field>)
        ensures
            match r {
                Some(field) => {
                    &&& field.values() == values@
                    &&& field.side() >= 1
                    &&& side_of(values@.len()) == Some(field.side())
                },
                None => values@.len() == 0 || side_of(values@.len()) is None,
            },
    {
        if values.len() == 0 {
            return None;
        }
        let side: usize = match crate::square::find_side(values.len()) {
            Some(side) => side,
            None => {
                return None;
            },
        };
        proof {
            assert(crate::square::is_side(side as nat, values@.len()));
        }
        let ghost count = values@.len();
        match table_from_vec(values) {
            Ok(table) => {
                proof {
                    assert(crate::square::is_side(table_rows(table), count));
                    assert(table_values(table).len() == count);
                    crate::square::lemma_side_unique(
                        table_rows(table),
                        side as nat,
                        table_values(table).len(),
                    );
                    assert(table_rows(table) == side);
                    assert(side * side == count);
                    assert(side >= 1) by (nonlinear_arith)
                        requires
                            side * side == count,
                            count > 0,
                    ;
                    assert(count <= usize::MAX);
                }
                Some(Field { table, side })
            },
            Err(_) => None,
        }
    }

    /// The number of rows, which is the number of columns.
    pub fn size(&self) -> (n: usize)
        ensures
            n == self.side(),
            n >= 1,
            self.values().len() == n * n,
            n * n <= usize::MAX,
    {
        proof {
            use_type_invariant(self);
        }
        self.side
    }

    /// The value at a cell; `None` off the table.
    pub fn get(&self, cell: (usize, usize)) -> (r: Option<u32>)
        ensures
            r == self.at(cell),
    {
        proof {
            use_type_invariant(self);
        }
        table_get(&self.table, cell.0, cell.1)
    }

    /// The neighbours of a cell: the cells above, to the left, to the
    /// right and below, as far as the table goes.
    pub fn neighbours(&self, cell: (usize, usize)) -> (r: Vec<(usize, usize)>)
        ensures
            r@ == cross_of(self.side(), cell),
    {
        proof {
            use_type_invariant(self);
        }
        if cell.0 >= self.side || cell.1 >= self.side {
            return Vec::new();
        }
        proof {
            assert(self.side == 1 || 2 * self.side <= self.side * self.side) by (nonlinear_arith)
                requires
                    self.side >= 1,
            ;
        }
        table_neighbours(&self.table, cell.0, cell.1, false)
    }
}

/// Whether the value of a neighbour lets it follow a cell of the value
/// `from`.
fn accepted(rule: Rule, from: u32, to: Option<u32>) -> (b: bool)
    ensures
        b == accepts(rule, from, to),
{
    match rule {
        Rule::Climbing => match to {
            Some(v) => from < u32::MAX && v == from + 1,
            None => false,
        },
        Rule::Level => match to {
            Some(v) => v == from,
            None => false,
        },
    }
}

/// The cells that follow a cell: those of its neighbours that the rule
/// accepts.
pub fn next_cells(field: &Field, cell: &(usize, usize), rule: Rule) -> (r: Vec<(usize, usize)>)
    ensures
        r@ == next_spec(field.values(), field.side(), rule, *cell),
{
    let from: u32 = match field.get(*cell) {
        Some(v) => v,
        None => {
            return Vec::new();
        },
    };
    let around = field.neighbours(*cell);
    let ghost keep = |to: (usize, usize)|
        accepts(rule, from, value_at(field.values(), field.side(), to));
    let mut out: Vec<(usize, usize)> = Vec::new();
    let mut i: usize = 0;
    proof {
        reveal(Seq::filter);
        assert(around@.take(0) =~= Seq::<(usize, usize)>::empty());
    }
    while i < around.len()
        invariant
            i <= around.len(),
            keep == |to: (usize, usize)|
                accepts(rule, from, value_at(field.values(), field.side(), to)),
            out@ == around@.take(i as int).filter(keep),
        decreases around.len() - i,
    {
        proof {
            reveal(Seq::filter);
            assert(around@.take(i + 1).drop_last() == around@.take(i as int));
        }
        let to: (usize, usize) = around[i];
        if accepted(rule, from, field.get(to)) {
            out.push(to);
        }
        i = i + 1;
    }
    proof {
        assert(around@.take(around.len() as int) == around@);
    }
    out
}

/// Whether a cell is a summit.
pub fn is_summit(field: &Field, cell: &(usize, usize)) -> (b: bool)
    ensures
        b == (field.at(*cell) == Some(SUMMIT)),
{
    match field.get(*cell) {
        Some(v) => v == SUMMIT,
        None => false,
    }
}

/// `bfs_reach` of `pathfinding`, collected: the cells that are reached from
/// `start`, `start` first, each once. The cells that follow a cell are those
/// that `next_cells` gives.
#[verifier::external_body]
fn reach_all(field: &Field, start: (usize, usize), rule: Rule) -> (r: Vec<(usize, usize)>)
    ensures
        r@.no_duplicates(),
        r@.len() > 0 && r@[0] == start,
        forall|cell: (usize, usize)|
            r@.contains(cell) == reachable(field.values(), field.side(), rule, start, cell),
{
    bfs_reach(start, |cell| next_cells(field, cell, rule)).collect()
}

/// `count_paths` of `pathfinding`, for climbing: the number of ways from
/// `start` to a summit. The cells that follow a cell are those that
/// `next_cells` gives, each one higher than the cell, so no way comes back to
/// a cell; a way ends at the first cell that `is_summit` accepts. Such a way
/// climbs from the height of `start` to the height of the summits, one with
/// each step; from a cell above the summits, or off the table, there is
/// none.
#[verifier::external_body]
fn count_ways(field: &Field, start: (usize, usize), rule: Rule) -> (n: usize)
    requires
        rule == Rule::Climbing,
    ensures
        n == trails(field.values(), field.side(), start),
{
    count_paths(start, |cell| next_cells(field, cell, rule), |cell| is_summit(field, cell))
}

/// The cells that are reached from `start`, `start` first, each once.
pub fn reach_from(field: &Field, start: (usize, usize), rule: Rule) -> (r: Vec<(usize, usize)>)
    ensures
        r@.no_duplicates(),
        r@.len() > 0 && r@[0] == start,
        forall|cell: (usize, usize)|
            r@.contains(cell) == reachable(field.values(), field.side(), rule, start, cell),
{
    reach_all(field, start, rule)
}

/// The number of ways from `start` up to a summit, each step to a neighbour
/// one higher.
pub fn ways_from(field: &Field, start: (usize, usize)) -> (n: usize)
    ensures
        n == trails(field.values(), field.side(), start),
{
    count_ways(field, start, Rule::Climbing)
}

} // verus!
