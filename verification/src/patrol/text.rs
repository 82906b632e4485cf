//! The grid as text: rows of `.`, `#` and `^`, one row to a line.

use crate::patrol::grid::{
    cells_fault, glyph_cell, lemma_position_of, position_of, Grid, ParseError, Plan,
};
use crate::patrol::model::{Cell, Facing, Position, State, FACINGS};
use vstd::prelude::*;

verus! {

/// Characters that stand for nothing: blanks within or at the end of a line.
pub open spec fn is_blank(c: char) -> bool {
    c == ' ' || c == '\t' || c == '\r'
}

/// What has been read of a text: the characters that stand for cells, the
/// lengths of the rows that are closed, and the length of the row that is
/// still open.
pub struct Scan {
    pub glyphs: Seq<char>,
    pub widths: Seq<nat>,
    pub pending: nat,
}

/// Reads a text from left to right. A newline closes the open row, unless it
/// is empty; a blank is skipped; every other character is a cell of the open
/// row.
pub open spec fn scan(text: Seq<char>) -> Scan
    decreases text.len(),
{
    if text.len() == 0 {
        Scan { glyphs: Seq::empty(), widths: Seq::empty(), pending: 0 }
    } else {
        let before = scan(text.drop_last());
        let c = text.last();
        if c == '\n' {
            if before.pending > 0 {
                Scan {
                    glyphs: before.glyphs,
                    widths: before.widths.push(before.pending),
                    pending: 0,
                }
            } else {
                before
            }
        } else if is_blank(c) {
            before
        } else {
            Scan {
                glyphs: before.glyphs.push(c),
                widths: before.widths,
                pending: before.pending + 1,
            }
        }
    }
}

/// The characters of a text that stand for cells, in reading order.
pub open spec fn text_glyphs(text: Seq<char>) -> Seq<char> {
    scan(text).glyphs
}

/// The lengths of the rows of a text. Lines without a cell are no rows.
pub open spec fn text_widths(text: Seq<char>) -> Seq<nat> {
    let s = scan(text);
    if s.pending > 0 {
        s.widths.push(s.pending)
    } else {
        s.widths
    }
}

/// Whether the `k`-th character is the first start marker.
pub open spec fn marks_start(glyphs: Seq<char>, k: int) -> bool {
    &&& 0 <= k < glyphs.len()
    &&& glyphs[k] == '^'
    &&& forall|j: int| 0 <= j < k ==> glyphs[j] != '^'
}

/// The place of the first start marker in reading order.
pub open spec fn start_index(glyphs: Seq<char>) -> int {
    choose|k: int| marks_start(glyphs, k)
}

/// What is wrong with a text as a grid, as the first fault found; `None` for
/// a text that is a grid.
pub open spec fn text_fault(text: Seq<char>) -> Option<ParseError> {
    let widths = text_widths(text);
    let n = widths.len();
    if n == 0 {
        Some(ParseError::Empty)
    } else if exists|i: int| 0 <= i < n && #[trigger] widths[i] != widths[0] {
        Some(ParseError::NotRectangular)
    } else if widths[0] != n {
        Some(ParseError::NotSquare)
    } else if !text_glyphs(text).contains('^') {
        Some(ParseError::NoStart)
    } else if FACINGS * n * n > usize::MAX {
        Some(ParseError::TooLarge)
    } else {
        None
    }
}

/// The grid that a text without fault describes. The guard starts on the
/// first start marker in reading order and faces north; further markers are
/// open cells like any other.
pub open spec fn text_plan(text: Seq<char>) -> Plan {
    let n = text_widths(text).len();
    let glyphs = text_glyphs(text);
    Plan {
        side: n,
        cells: glyphs.map_values(|c: char| glyph_cell(c)),
        start: State {
            position: position_of(start_index(glyphs), n as int),
            facing: Facing::North,
        },
    }
}

/// The grid that a text describes, or what is wrong with the text.
pub open spec fn parsed(text: Seq<char>) -> Result<Plan, ParseError> {
    match text_fault(text) {
        Some(e) => Err(e),
        None => Ok(text_plan(text)),
    }
}

/// The number of start markers in a text.
pub open spec fn markers(text: Seq<char>) -> nat
    decreases text.len(),
{
    if text.len() == 0 {
        0
    } else {
        markers(text.drop_last()) + if text.last() == '^' {
            1nat
        } else {
            0nat
        }
    }
}

/// The grid that a text describes where several start markers are a fault
/// of their own.
pub open spec fn parsed_strictly(text: Seq<char>) -> Result<Plan, ParseError> {
    match parsed(text) {
        Ok(plan) => if markers(text) > 1 {
            Err(ParseError::AmbiguousStart)
        } else {
            Ok(plan)
        },
        Err(e) => Err(e),
    }
}

/// The sum of the lengths of some rows.
pub open spec fn total(widths: Seq<nat>) -> nat
    decreases widths.len(),
{
    if widths.len() == 0 {
        0
    } else {
        total(widths.drop_last()) + widths.last()
    }
}

/// Every closed row has a cell, and the rows hold all the cells between them.
proof fn lemma_scan(text: Seq<char>)
    ensures
        forall|i: int| 0 <= i < scan(text).widths.len() ==> scan(text).widths[i] >= 1,
        total(scan(text).widths) + scan(text).pending == scan(text).glyphs.len(),
        scan(text).widths.len() <= total(scan(text).widths),
    decreases text.len(),
{
    if text.len() > 0 {
        let before = scan(text.drop_last());
        lemma_scan(text.drop_last());
        if text.last() == '\n' && before.pending > 0 {
            assert(before.widths.push(before.pending).drop_last() == before.widths);
        }
    }
}

/// Rows of one length hold that length times their number of cells.
proof fn lemma_total_uniform(widths: Seq<nat>, width: nat)
    requires
        forall|i: int| 0 <= i < widths.len() ==> widths[i] == width,
    ensures
        total(widths) == widths.len() * width,
    decreases widths.len(),
{
    if widths.len() > 0 {
        lemma_total_uniform(widths.drop_last(), width);
        assert(widths.len() * width == (widths.len() - 1) * width + width) by (nonlinear_arith);
    }
}

fn is_blank_char(c: char) -> (b: bool)
    ensures
        b == is_blank(c),
{
    c == ' ' || c == '\t' || c == '\r'
}

impl Grid {
    /// Reads a grid from text: rows of `.` for an open cell, `#` for an
    /// obstacle and `^` for the guard's start, facing north, one row to a
    /// line. Blanks and empty lines are skipped, and any other character is
    /// an open cell.
    ///
    /// The text is refused when it has no cell, rows of different lengths,
    /// not as many rows as columns, or no start marker. Of several start
    /// markers the first in reading order is the start, and the others are
    /// open cells.
    pub fn parse(text: &str) -> (r: Result<Grid, ParseError>)
        ensures
            match r {
                Ok(grid) => parsed(text@) == Ok::<Plan, ParseError>(grid@),
                Err(e) => parsed(text@) == Err::<Plan, ParseError>(e),
            },
    {
        let mut cells: Vec<Cell> = Vec::new();
        let mut rows: usize = 0;
        let mut first: usize = 0;
        let mut uniform: bool = true;
        let mut pending: usize = 0;
        let mut start: Option<usize> = None;
        proof {
            assert(text@.take(0) =~= Seq::<char>::empty());
            assert(cells@ =~= scan(text@.take(0)).glyphs.map_values(|c: char| glyph_cell(c)));
        }
        for c in it: text.chars()
            invariant
                it.seq() == text@,
                cells@ == scan(text@.take(it.index() as int)).glyphs.map_values(
                    |c: char| glyph_cell(c),
                ),
                rows == scan(text@.take(it.index() as int)).widths.len(),
                pending == scan(text@.take(it.index() as int)).pending,
                rows > 0 ==> first == scan(text@.take(it.index() as int)).widths[0],
                uniform <==> forall|j: int|
                    0 <= j < rows ==> #[trigger] scan(text@.take(it.index() as int)).widths[j]
                        == scan(text@.take(it.index() as int)).widths[0],
                match start {
                    Some(k) => marks_start(scan(text@.take(it.index() as int)).glyphs, k as int),
                    None => !scan(text@.take(it.index() as int)).glyphs.contains('^'),
                },
        {
            let ghost before = scan(text@.take(it.index() as int));
            let ghost after = scan(text@.take(it.index() + 1));
            proof {
                assert(text@.take(it.index() + 1).drop_last() == text@.take(it.index() as int));
                lemma_scan(text@.take(it.index() as int));
                lemma_scan(text@.take(it.index() + 1));
                assert(cells@.len() == before.glyphs.len());
            }
            if c == '\n' {
                if pending > 0 {
                    if rows == 0 {
                        first = pending;
                    } else if pending != first {
                        uniform = false;
                    }
                    assert(rows + 1 <= cells.len());
                    rows = rows + 1;
                    pending = 0;
                    proof {
                        assert(after.widths == before.widths.push(before.pending));
                        if !uniform {
                            let j = if before.pending != first as nat {
                                before.widths.len() as int
                            } else {
                                choose|j: int|
                                    0 <= j < before.widths.len() && #[trigger] before.widths[j]
                                        != before.widths[0]
                            };
                            assert(after.widths[j] != after.widths[0]);
                        }
                    }
                }
            } else if !is_blank_char(c) {
                if c == '^' && start.is_none() {
                    start = Some(cells.len());
                }
                let cell: Cell = if c == '#' {
                    Cell::Obstacle
                } else {
                    Cell::Open
                };
                cells.push(cell);
                assert(pending + 1 <= cells.len());
                pending = pending + 1;
                proof {
                    assert(after.glyphs == before.glyphs.push(c));
                    assert(cells@ =~= after.glyphs.map_values(|c: char| glyph_cell(c)));
                    match start {
                        Some(k) => {
                            assert(marks_start(after.glyphs, k as int));
                        },
                        None => {
                            assert forall|j: int| 0 <= j < after.glyphs.len() implies after.glyphs[j]
                                != '^' by {
                                if j < before.glyphs.len() {
                                    assert(before.glyphs[j] == after.glyphs[j]);
                                    assert(before.glyphs.contains(before.glyphs[j]));
                                }
                            }
                        },
                    }
                }
            }
        }
        let ghost read = scan(text@);
        let ghost widths = text_widths(text@);
        proof {
            assert(text@.take(text@.len() as int) == text@);
            lemma_scan(text@);
        }
        if pending > 0 {
            if rows == 0 {
                first = pending;
            } else if pending != first {
                uniform = false;
            }
            proof {
                assert(cells@.len() == read.glyphs.len());
                assert(rows + 1 <= cells.len());
                if !uniform {
                    let j = if read.pending != first as nat {
                        read.widths.len() as int
                    } else {
                        choose|j: int|
                            0 <= j < read.widths.len() && #[trigger] read.widths[j]
                                != read.widths[0]
                    };
                    assert(widths[j] != widths[0]);
                }
            }
            rows = rows + 1;
        }
        proof {
            assert(rows == widths.len());
            assert(rows > 0 ==> first == widths[0]);
            assert(uniform <==> forall|j: int|
                0 <= j < rows ==> #[trigger] widths[j] == widths[0]);
        }
        if rows == 0 {
            return Err(ParseError::Empty);
        }
        if !uniform {
            return Err(ParseError::NotRectangular);
        }
        if first != rows {
            return Err(ParseError::NotSquare);
        }
        let k: usize = match start {
            Some(k) => k,
            None => {
                return Err(ParseError::NoStart);
            },
        };
        proof {
            assert(read.glyphs.contains('^'));
            assert(marks_start(read.glyphs, start_index(read.glyphs)));
            assert(k == start_index(read.glyphs));
            lemma_total_uniform(widths, rows as nat);
            if read.pending > 0 {
                assert(widths.drop_last() == read.widths);
            }
            assert(cells@.len() == rows * rows);
            lemma_position_of(k as int, rows as int);
        }
        let position = Position { row: k / rows, col: k % rows };
        let origin = State { position, facing: Facing::North };
        proof {
            assert(cells@[position.row * rows + position.col] == Cell::Open);
            assert(cells_fault(rows as nat, cells@, origin) is None <==> text_fault(text@) is None);
        }
        Grid::from_cells(rows, cells, origin)
    }

    /// Reads a grid from text as [`Grid::parse`] does, but refuses a text
    /// with more than one start marker as ambiguous.
    pub fn parse_strict(text: &str) -> (r: Result<Grid, ParseError>)
        ensures
            match r {
                Ok(grid) => parsed_strictly(text@) == Ok::<Plan, ParseError>(grid@),
                Err(e) => parsed_strictly(text@) == Err::<Plan, ParseError>(e),
            },
    {
        let grid = match Grid::parse(text) {
            Ok(grid) => grid,
            Err(e) => {
                return Err(e);
            },
        };
        let mut several: bool = false;
        let mut one: bool = false;
        for c in it: text.chars()
            invariant
                it.seq() == text@,
                one == (markers(text@.take(it.index() as int)) >= 1),
                several == (markers(text@.take(it.index() as int)) >= 2),
        {
            proof {
                assert(text@.take(it.index() + 1).drop_last() == text@.take(it.index() as int));
            }
            if c == '^' {
                if one {
                    several = true;
                }
                one = true;
            }
        }
        proof {
            assert(text@.take(text@.len() as int) == text@);
        }
        if several {
            Err(ParseError::AmbiguousStart)
        } else {
            Ok(grid)
        }
    }
}

} // verus!
