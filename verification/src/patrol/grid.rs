//! The grid: a square of cells with the guard's start.

use crate::matrix::{
    matrix_cols, matrix_from_shape_vec, matrix_get, matrix_items, matrix_rows, CharMatrix,
};
use crate::patrol::model::{Cell, Position, State, FACINGS};
use vstd::prelude::*;

verus! {

/// Why no grid could be built.
#[derive(Clone, Copy, Debug, PartialEq, Eq, Structural)]
pub enum ParseError {
    /// There is no cell at all.
    Empty,
    /// The rows differ in length.
    NotRectangular,
    /// There are not as many rows as columns, or not as many cells as the
    /// side asks for.
    NotSquare,
    /// The grid has more states than the machine can count.
    TooLarge,
    /// No start marker was found, or the start does not lie on an open cell
    /// of the grid.
    NoStart,
    /// More than one start marker was found, where only one is taken.
    AmbiguousStart,
}

/// The character that stands for a cell in the stored table.
pub open spec fn cell_glyph(c: Cell) -> char {
    match c {
        Cell::Open => '.',
        Cell::Obstacle => '#',
    }
}

/// The cell that a character of the text stands for: `#` is an obstacle,
/// anything else is open.
pub open spec fn glyph_cell(c: char) -> Cell {
    if c == '#' {
        Cell::Obstacle
    } else {
        Cell::Open
    }
}

/// The position of the `k`-th cell in reading order of a grid of side `n`.
pub open spec fn position_of(k: int, n: int) -> Position {
    Position { row: (k / n) as usize, col: (k % n) as usize }
}

/// The position of a cell lies on the grid and leads back to the cell's place
/// in reading order.
pub proof fn lemma_position_of(k: int, n: int)
    requires
        0 <= k < n * n,
        0 < n <= usize::MAX,
    ensures
        0 <= k / n < n,
        0 <= k % n < n,
        position_of(k, n).row == k / n,
        position_of(k, n).col == k % n,
        (k / n) * n + k % n == k,
{
    vstd::arithmetic::div_mod::lemma_fundamental_div_mod(k, n);
    vstd::arithmetic::div_mod::lemma_mod_pos_bound(k, n);
    assert(0 <= k / n < n) by (nonlinear_arith)
        requires
            0 <= k < n * n,
            n > 0,
            k == n * (k / n) + k % n,
            0 <= k % n < n,
    ;
    assert((k / n) * n == n * (k / n)) by (nonlinear_arith);
}

/// The cell at the place of a position in reading order has that position.
pub proof fn lemma_position_of_index(p: Position, n: int)
    requires
        p.row < n,
        p.col < n,
    ensures
        position_of(p.row * n + p.col, n) == p,
{
    vstd::arithmetic::div_mod::lemma_fundamental_div_mod_converse(
        p.row * n + p.col,
        n,
        p.row as int,
        p.col as int,
    );
}

/// What has to hold of a side, a list of cells and a start for a grid to be
/// built from them, as the first fault found.
pub open spec fn cells_fault(side: nat, cells: Seq<Cell>, start: State) -> Option<ParseError> {
    if side == 0 {
        Some(ParseError::Empty)
    } else if cells.len() != side * side {
        Some(ParseError::NotSquare)
    } else if FACINGS * side * side > usize::MAX {
        Some(ParseError::TooLarge)
    } else if !(start.position.row < side && start.position.col < side) {
        Some(ParseError::NoStart)
    } else if cells[start.position.row * side + start.position.col] != Cell::Open {
        Some(ParseError::NoStart)
    } else {
        None
    }
}

/// What a grid is: its side, its cells row after row, and the state in
/// which the guard starts.
pub struct Plan {
    pub side: nat,
    pub cells: Seq<Cell>,
    pub start: State,
}

impl Plan {
    /// Whether a position lies on the grid.
    pub open spec fn in_bounds(self, p: Position) -> bool {
        p.row < self.side && p.col < self.side
    }

    /// The cell at a position on the grid.
    pub open spec fn cell(self, p: Position) -> Cell
        recommends
            self.in_bounds(p),
    {
        self.cells[p.row * self.side + p.col]
    }

    /// The cell at a position, or `None` off the grid.
    pub open spec fn lookup(self, p: Position) -> Option<Cell> {
        if self.in_bounds(p) {
            Some(self.cell(p))
        } else {
            None
        }
    }

    /// The number of states a guard can be in: one for each cell and facing.
    pub open spec fn state_count(self) -> nat {
        FACINGS as nat * self.side * self.side
    }

    /// What holds of every grid: it has at least one cell, as many cells as
    /// its side squared, a number of states that fits the machine, and a start
    /// on an open cell.
    pub open spec fn wf(self) -> bool {
        cells_fault(self.side, self.cells, self.start) is None
    }

    /// The parts of well-formedness, one by one.
    pub proof fn lemma_wf(self)
        requires
            self.wf(),
        ensures
            self.side >= 1,
            self.cells.len() == self.side * self.side,
            self.state_count() <= usize::MAX,
            self.side * self.side <= usize::MAX,
            self.side <= usize::MAX,
            self.in_bounds(self.start.position),
            self.cell(self.start.position) == Cell::Open,
    {
        let n = self.side;
        assert(n <= n * n && n * n <= FACINGS * n * n) by (nonlinear_arith)
            requires
                n >= 1,
                FACINGS == 4,
        ;
    }

    /// Each position on the grid has a place of its own among the cells.
    pub proof fn lemma_cell_index(self, p: Position, q: Position)
        requires
            self.in_bounds(p),
            self.in_bounds(q),
        ensures
            0 <= p.row * self.side + p.col < self.side * self.side,
            p.row * self.side + p.col == q.row * self.side + q.col ==> p == q,
    {
        let n = self.side as int;
        let (pr, pc, qr, qc) = (p.row as int, p.col as int, q.row as int, q.col as int);
        assert(0 <= pr * n + pc < n * n) by (nonlinear_arith)
            requires
                0 <= pr < n,
                0 <= pc < n,
        ;
        assert(pr * n + pc == qr * n + qc ==> pr == qr && pc == qc) by (nonlinear_arith)
            requires
                0 <= pr < n,
                0 <= pc < n,
                0 <= qr < n,
                0 <= qc < n,
        ;
    }
}

/// A square grid of cells with the state in which the guard starts. It is
/// never changed once built.
pub struct Grid {
    cells: CharMatrix,
    side: usize,
    start: State,
}

impl View for Grid {
    type V = Plan;

    closed spec fn view(&self) -> Plan {
        Plan {
            side: self.side as nat,
            cells: matrix_items(self.cells).map_values(|c: char| glyph_cell(c)),
            start: self.start,
        }
    }
}

impl Grid {
    /// The stored table has the shape of the grid.
    pub closed spec fn stored(&self) -> bool {
        &&& matrix_rows(self.cells) == self.side
        &&& matrix_cols(self.cells) == self.side
    }

    #[verifier::type_invariant]
    spec fn inv(&self) -> bool {
        self.stored() && self@.wf()
    }

    /// The side of a grid is a number of the machine.
    pub proof fn lemma_side_fits(&self)
        ensures
            self@.side <= usize::MAX,
    {
    }

    /// Builds the grid of side `side` from its cells in reading order and
    /// the guard's start, or says what is wrong with them.
    pub fn from_cells(side: usize, cells: Vec<Cell>, start: State) -> (r: Result<Grid, ParseError>)
        ensures
            match r {
                Ok(g) => {
                    &&& cells_fault(side as nat, cells@, start) is None
                    &&& g@ == (Plan { side: side as nat, cells: cells@, start })
                },
                Err(e) => cells_fault(side as nat, cells@, start) == Some(e),
            },
    {
        if side == 0 {
            return Err(ParseError::Empty);
        }
        let area: usize = match side.checked_mul(side) {
            Some(a) => a,
            None => {
                return Err(ParseError::NotSquare);
            },
        };
        if cells.len() != area {
            return Err(ParseError::NotSquare);
        }
        assert(FACINGS * side * side == FACINGS * (side * side)) by (nonlinear_arith);
        if FACINGS.checked_mul(area).is_none() {
            return Err(ParseError::TooLarge);
        }
        if start.position.row >= side || start.position.col >= side {
            return Err(ParseError::NoStart);
        }
        assert(start.position.row * side + start.position.col < side * side) by (nonlinear_arith)
            requires
                start.position.row < side,
                start.position.col < side,
        ;
        if cells[start.position.row * side + start.position.col] != Cell::Open {
            return Err(ParseError::NoStart);
        }
        let mut glyphs: Vec<char> = Vec::new();
        let mut i: usize = 0;
        while i < cells.len()
            invariant
                i <= cells.len(),
                glyphs@.len() == i,
                forall|k: int| 0 <= k < i ==> glyphs@[k] == cell_glyph(#[trigger] cells@[k]),
            decreases cells.len() - i,
        {
            let glyph: char = match cells[i] {
                Cell::Open => '.',
                Cell::Obstacle => '#',
            };
            glyphs.push(glyph);
            i = i + 1;
        }
        let ghost stored_glyphs = glyphs@;
        match matrix_from_shape_vec(side, side, glyphs) {
            Ok(table) => {
                proof {
                    assert(stored_glyphs.map_values(|c: char| glyph_cell(c)) =~= cells@);
                }
                Ok(Grid { cells: table, side, start })
            },
            Err(_) => Err(ParseError::TooLarge),
        }
    }

    /// The number of rows, which is the number of columns.
    pub fn size(&self) -> (n: usize)
        ensures
            n == self@.side,
            n >= 1,
            self@.wf(),
    {
        proof {
            use_type_invariant(self);
            self@.lemma_wf();
        }
        self.side
    }

    /// The state in which the guard starts: on an open cell of the grid.
    pub fn start(&self) -> (s: State)
        ensures
            s == self@.start,
            self@.in_bounds(s.position),
            self@.cell(s.position) == Cell::Open,
            self@.wf(),
    {
        proof {
            use_type_invariant(self);
            self@.lemma_wf();
        }
        self.start
    }

    /// The cell at a position; `None` exactly when the position is off the
    /// grid.
    pub fn cell_at(&self, p: Position) -> (r: Option<Cell>)
        ensures
            r == self@.lookup(p),
    {
        proof {
            use_type_invariant(self);
            self@.lemma_wf();
            if self@.in_bounds(p) {
                self@.lemma_cell_index(p, p);
            }
        }
        match matrix_get(&self.cells, p.row, p.col) {
            Some(c) => {
                if c == '#' {
                    Some(Cell::Obstacle)
                } else {
                    Some(Cell::Open)
                }
            },
            None => None,
        }
    }

    /// The number of states a guard can be in on this grid. No walk takes
    /// more steps than this without leaving the grid or repeating a state.
    pub fn state_bound(&self) -> (b: usize)
        ensures
            b == self@.state_count(),
            b == 4 * self@.side * self@.side,
    {
        proof {
            use_type_invariant(self);
            self@.lemma_wf();
            assert(FACINGS * self.side * self.side == FACINGS * (self.side * self.side))
                by (nonlinear_arith);
        }
        FACINGS * (self.side * self.side)
    }
}

} // verus!
