//! A square table of characters, and sums over its cells.

use crate::matrix::{
    matrix_cols, matrix_from_shape_vec, matrix_get, matrix_items, matrix_rows, CharMatrix,
};
use std::collections::HashSet;
use vstd::prelude::*;
use vstd::relations::injective_on;
use vstd::set_lib::lemma_map_size;

verus! {

/// Whether `side` is the side of a square of `area` cells.
pub open spec fn is_side(side: nat, area: nat) -> bool {
    side * side == area
}

/// Whether a square of side `side` has fewer than `area` cells.
pub open spec fn too_short(side: nat, area: nat) -> bool {
    side * side < area
}

/// The side of a square of `area` cells, where there is one.
pub open spec fn side_of(area: nat) -> Option<nat> {
    if exists|s: nat| is_side(s, area) {
        Some(choose|s: nat| is_side(s, area))
    } else {
        None
    }
}

/// The item at a row and a column of a square of side `side` whose items
/// are listed row after row; `None` off the square.
pub open spec fn item_at(items: Seq<char>, side: nat, row: int, col: int) -> Option<char> {
    if 0 <= row < side && 0 <= col < side {
        Some(items[row * side + col])
    } else {
        None
    }
}

/// The sum of `f` over the first `cols` cells of a row.
pub open spec fn sum_row(f: spec_fn(int, int) -> nat, row: int, cols: nat) -> nat
    decreases cols,
{
    if cols == 0 {
        0
    } else {
        sum_row(f, row, (cols - 1) as nat) + f(row, cols - 1)
    }
}

/// The sum of `f` over the cells of the first `rows` rows of `cols` cells.
pub open spec fn sum_rows(f: spec_fn(int, int) -> nat, rows: nat, cols: nat) -> nat
    decreases rows,
{
    if rows == 0 {
        0
    } else {
        sum_rows(f, (rows - 1) as nat, cols) + sum_row(f, rows - 1, cols)
    }
}

/// Squares grow with their sides.
pub proof fn lemma_squares_grow(a: nat, b: nat)
    requires
        a <= b,
    ensures
        a * a <= b * b,
{
    assert(a * a <= b * b) by (nonlinear_arith)
        requires
            0 <= a <= b,
    ;
}

/// A number has one side at most.
pub proof fn lemma_side_unique(a: nat, b: nat, area: nat)
    requires
        is_side(a, area),
        is_side(b, area),
    ensures
        a == b,
{
    if a < b {
        assert(a * a < b * b) by (nonlinear_arith)
            requires
                0 <= a < b,
        ;
    }
    if b < a {
        assert(b * b < a * a) by (nonlinear_arith)
            requires
                0 <= b < a,
        ;
    }
}

/// The number of cells of a square of side `side`.
fn area_of(side: usize) -> (area: u128)
    ensures
        area == side * side,
{
    assert(side * side <= 0xffff_ffff_ffff_ffff * 0xffff_ffff_ffff_ffff) by (nonlinear_arith)
        requires
            side <= 0xffff_ffff_ffff_ffff,
    ;
    side as u128 * side as u128
}

/// The side of a square of `area` cells, where there is one.
pub fn find_side(area: usize) -> (r: Option<usize>)
    ensures
        match r {
            Some(side) => side_of(area as nat) == Some(side as nat),
            None => side_of(area as nat) is None,
        },
{
    let mut side: usize = 0;
    while area_of(side) < area as u128
        invariant
            side <= area,
            forall|s: nat| s < side ==> too_short(s, area as nat),
        decreases area - side,
    {
        proof {
            let s = side as nat;
            assert(s * s >= s) by (nonlinear_arith)
                requires
                    s >= 0,
            ;
            assert forall|t: nat| t < side + 1 implies too_short(t, area as nat) by {
                lemma_squares_grow(t, s);
            }
        }
        side = side + 1;
    }
    proof {
        let s = side as nat;
        if s * s == area {
            assert(is_side(s, area as nat));
            lemma_side_unique(s, choose|t: nat| is_side(t, area as nat), area as nat);
        } else {
            assert forall|t: nat| !is_side(t, area as nat) by {
                if t >= s {
                    lemma_squares_grow(s, t);
                } else {
                    assert(too_short(t, area as nat));
                }
            }
        }
    }
    if area_of(side) == area as u128 {
        Some(side)
    } else {
        None
    }
}

/// A square table of characters with one row at least.
pub struct Square {
    cells: CharMatrix,
    side: usize,
}

impl Square {
    /// The number of rows, which is the number of columns.
    pub closed spec fn side(&self) -> nat {
        self.side as nat
    }

    /// The items, row after row.
    pub closed spec fn items(&self) -> Seq<char> {
        matrix_items(self.cells)
    }

    /// The item at a row and a column; `None` off the square.
    pub open spec fn at(&self, row: int, col: int) -> Option<char> {
        item_at(self.items(), self.side(), row, col)
    }

    #[verifier::type_invariant]
    spec fn inv(&self) -> bool {
        &&& matrix_rows(self.cells) == self.side
        &&& matrix_cols(self.cells) == self.side
        &&& self.side >= 1
        &&& matrix_items(self.cells).len() == self.side * self.side
        &&& self.side * self.side <= usize::MAX
    }

    /// Lays the items out as a square, row after row. There is a square
    /// where the number of items is a square number, not zero, and the
    /// machine can address that many.
    pub fn from_items(items: Vec<char>) -> (r: Option<Square>)
        ensures
            match r {
                Some(square) => {
                    &&& square.items() == items@
                    &&& square.side() >= 1
                    &&& side_of(items@.len()) == Some(square.side())
                    &&& items@.len() <= isize::MAX
                },
                None => items@.len() == 0 || items@.len() > isize::MAX || side_of(items@.len())
                    is None,
            },
    {
        let side: usize = match find_side(items.len()) {
            Some(side) => side,
            None => {
                return None;
            },
        };
        if side == 0 {
            proof {
                assert(is_side(side as nat, items@.len()));
            }
            return None;
        }
        proof {
            assert(is_side(side as nat, items@.len()));
        }
        match matrix_from_shape_vec(side, side, items) {
            Ok(cells) => Some(Square { cells, side }),
            Err(_) => None,
        }
    }

    /// The number of rows, which is the number of columns.
    pub fn size(&self) -> (n: usize)
        ensures
            n == self.side(),
            n >= 1,
            self.items().len() == n * n,
            n * n <= usize::MAX,
    {
        proof {
            use_type_invariant(self);
        }
        self.side
    }

    /// The item at a row and a column; `None` off the square.
    pub fn get(&self, row: usize, col: usize) -> (r: Option<char>)
        ensures
            r == self.at(row as int, col as int),
    {
        proof {
            use_type_invariant(self);
        }
        matrix_get(&self.cells, row, col)
    }
}

/// Whether a row and a column lie on a square of side `side`.
pub open spec fn in_square(p: (int, int), side: nat) -> bool {
    0 <= p.0 < side && 0 <= p.1 < side
}

/// The row and the column of the `k`-th cell of a square in reading order.
pub open spec fn cell_of(k: int, side: int) -> (int, int) {
    (k / side, k % side)
}

/// The cell of a place lies on the square and leads back to the place.
pub proof fn lemma_cell_of(k: int, side: int)
    requires
        0 <= k < side * side,
        0 < side,
    ensures
        0 <= k / side < side,
        0 <= k % side < side,
        (k / side) * side + k % side == k,
{
    vstd::arithmetic::div_mod::lemma_fundamental_div_mod(k, side);
    vstd::arithmetic::div_mod::lemma_mod_pos_bound(k, side);
    assert(0 <= k / side < side) by (nonlinear_arith)
        requires
            0 <= k < side * side,
            side > 0,
            k == side * (k / side) + k % side,
            0 <= k % side < side,
    ;
    assert((k / side) * side == side * (k / side)) by (nonlinear_arith);
}

/// The place of a cell in reading order is below the number of cells, and
/// leads back to the cell.
pub proof fn lemma_place_of(row: int, col: int, side: int)
    requires
        0 <= row < side,
        0 <= col < side,
    ensures
        0 <= row * side + col < side * side,
        cell_of(row * side + col, side) == (row, col),
{
    assert(0 <= row * side + col < side * side) by (nonlinear_arith)
        requires
            0 <= row < side,
            0 <= col < side,
    ;
    vstd::arithmetic::div_mod::lemma_fundamental_div_mod_converse(
        row * side + col,
        side,
        row,
        col,
    );
}

/// A set of cells of a square.
pub struct CellSet {
    cells: HashSet<usize>,
    side: usize,
}

impl View for CellSet {
    type V = Set<(int, int)>;

    closed spec fn view(&self) -> Set<(int, int)> {
        Set::new(
            |p: (int, int)|
                in_square(p, self.side as nat) && self.cells@.contains(
                    (p.0 * self.side + p.1) as usize,
                ),
        )
    }
}

impl CellSet {
    /// The side of the square.
    pub closed spec fn side(&self) -> nat {
        self.side as nat
    }

    #[verifier::type_invariant]
    spec fn inv(&self) -> bool {
        &&& self.cells@.finite()
        &&& 0 < self.side
        &&& self.side * self.side <= usize::MAX
        &&& forall|k: usize| self.cells@.contains(k) ==> k < self.side * self.side
    }

    /// The empty set of cells of a square.
    pub fn new(side: usize) -> (set: CellSet)
        requires
            1 <= side,
            side * side <= usize::MAX,
        ensures
            set@ == Set::<(int, int)>::empty(),
            set.side() == side,
    {
        let set = CellSet { cells: HashSet::new(), side };
        proof {
            assert(set@ =~= Set::<(int, int)>::empty());
        }
        set
    }

    /// The set with one more cell.
    pub fn with(self, row: usize, col: usize) -> (set: CellSet)
        requires
            row < self.side(),
            col < self.side(),
        ensures
            set@ == self@.insert((row as int, col as int)),
            set.side() == self.side(),
    {
        proof {
            use_type_invariant(&self);
            lemma_place_of(row as int, col as int, self.side as int);
        }
        let ghost before = self@;
        let CellSet { mut cells, side } = self;
        cells.insert(row * side + col);
        let set = CellSet { cells, side };
        proof {
            assert forall|p: (int, int)|
                set@.contains(p) <==> before.insert((row as int, col as int)).contains(p) by {
                if in_square(p, side as nat) {
                    lemma_place_of(p.0, p.1, side as int);
                    lemma_place_of(row as int, col as int, side as int);
                    if p != (row as int, col as int) && p.0 * side + p.1 == row * side + col {
                        assert(cell_of(p.0 * side + p.1, side as int) == p);
                        assert(false);
                    }
                }
            }
            assert(set@ =~= before.insert((row as int, col as int)));
        }
        set
    }

    /// The cells of the set lie on the square.
    pub proof fn lemma_on_square(&self, p: (int, int))
        ensures
            self@.contains(p) ==> in_square(p, self.side()),
            self.side() <= usize::MAX,
    {
    }

    /// Whether a cell is in the set.
    pub fn contains(&self, row: usize, col: usize) -> (b: bool)
        ensures
            b == self@.contains((row as int, col as int)),
    {
        proof {
            use_type_invariant(self);
        }
        if row < self.side && col < self.side {
            proof {
                lemma_place_of(row as int, col as int, self.side as int);
            }
            let k: usize = row * self.side + col;
            self.cells.contains(&k)
        } else {
            false
        }
    }

    /// The number of cells in the set.
    pub fn len(&self) -> (n: usize)
        ensures
            self@.finite(),
            n == self@.len(),
    {
        proof {
            use_type_invariant(self);
            let side = self.side as int;
            let place = |k: usize| cell_of(k as int, side);
            assert forall|k1: usize, k2: usize|
                self.cells@.contains(k1) && self.cells@.contains(k2) && #[trigger] place(k1)
                    == #[trigger] place(k2) implies k1 == k2 by {
                lemma_cell_of(k1 as int, side);
                lemma_cell_of(k2 as int, side);
            }
            assert(injective_on(place, self.cells@));
            assert forall|p: (int, int)| self@.contains(p) implies #[trigger] self.cells@.map(
                place,
            ).contains(p) by {
                lemma_place_of(p.0, p.1, side);
                let k = (p.0 * side + p.1) as usize;
                assert(self.cells@.contains(k) && place(k) == p);
            }
            assert forall|p: (int, int)| #[trigger]
                self.cells@.map(place).contains(p) implies self@.contains(p) by {
                let k = choose|k: usize| self.cells@.contains(k) && place(k) == p;
                lemma_cell_of(k as int, side);
            }
            assert(self.cells@.map(place) =~= self@);
            lemma_map_size(self.cells@, self@, place);
        }
        self.cells.len()
    }
}

/// A row and a column as a place.
pub open spec fn as_place(q: (usize, usize)) -> (int, int) {
    (q.0 as int, q.1 as int)
}

/// Whether the `i`-th point of a list is the place `p`.
pub open spec fn point_is(points: Seq<(usize, usize)>, i: int, p: (int, int)) -> bool {
    0 <= i < points.len() && as_place(points[i]) == p
}

/// Whether a list of points holds the place `p`.
pub open spec fn holds_place(points: Seq<(usize, usize)>, p: (int, int)) -> bool {
    exists|i: int| point_is(points, i, p)
}

/// A list with one more point holds what it held, and the point.
pub proof fn lemma_holds_place_push(points: Seq<(usize, usize)>, q: (usize, usize), p: (int, int))
    ensures
        holds_place(points.push(q), p) == (holds_place(points, p) || as_place(q) == p),
{
    let grown = points.push(q);
    if holds_place(points, p) {
        let i = choose|i: int| point_is(points, i, p);
        assert(point_is(grown, i, p));
    }
    if as_place(q) == p {
        assert(point_is(grown, points.len() as int, p));
    }
    if holds_place(grown, p) {
        let i = choose|i: int| point_is(grown, i, p);
        if i < points.len() {
            assert(point_is(points, i, p));
        }
    }
}

/// The set with the points of a list.
pub fn add_points(found: CellSet, points: &Vec<(usize, usize)>) -> (r: CellSet)
    requires
        forall|p: (int, int)| holds_place(points@, p) ==> in_square(p, found.side()),
    ensures
        r.side() == found.side(),
        forall|p: (int, int)| r@.contains(p) == (found@.contains(p) || holds_place(points@, p)),
{
    let ghost start = found@;
    let mut out = found;
    let mut t: usize = 0;
    proof {
        assert forall|p: (int, int)| !holds_place(points@.take(0), p) by {
            if holds_place(points@.take(0), p) {
                let i = choose|i: int| point_is(points@.take(0), i, p);
            }
        }
    }
    while t < points.len()
        invariant
            t <= points.len(),
            out.side() == found.side(),
            forall|p: (int, int)| holds_place(points@, p) ==> in_square(p, found.side()),
            forall|p: (int, int)|
                out@.contains(p) == (start.contains(p) || holds_place(points@.take(t as int), p)),
        decreases points.len() - t,
    {
        let q: (usize, usize) = points[t];
        proof {
            assert(point_is(points@, t as int, as_place(q)));
            assert(holds_place(points@, as_place(q)));
            assert(in_square(as_place(q), found.side()));
            assert(points@.take(t + 1) == points@.take(t as int).push(q));
            assert forall|p: (int, int)|
                holds_place(points@.take(t + 1), p) == (holds_place(points@.take(t as int), p)
                    || as_place(q) == p) by {
                lemma_holds_place_push(points@.take(t as int), q, p);
            }
        }
        let ghost was = out@;
        let ghost grown = points@.take(t + 1);
        out = out.with(q.0, q.1);
        proof {
            assert forall|p: (int, int)|
                out@.contains(p) == (start.contains(p) || holds_place(grown, p)) by {
                assert(was.contains(p) == (start.contains(p) || holds_place(
                    points@.take(t as int),
                    p,
                )));
            }
        }
        t = t + 1;
        proof {
            assert(points@.take(t as int) == grown);
        }
    }
    proof {
        assert(points@.take(points.len() as int) == points@);
    }
    out
}

} // verus!
