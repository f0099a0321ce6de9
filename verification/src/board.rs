//! The grid of settled grains.
use vstd::prelude::*;
use crate::constants::{BOARD_HEIGHT, BOARD_WIDTH};

verus! {

/// Number of cells of the board.
pub const CELL_COUNT: usize = 14080;

/// The board is 80 cells wide and 176 tall; the specifications below write the
/// width as the literal 80 so that index arithmetic stays linear.
pub proof fn lemma_board_size()
    ensures
        BOARD_WIDTH == 80,
        BOARD_HEIGHT == 176,
        CELL_COUNT == BOARD_WIDTH * BOARD_HEIGHT,
{
}

/// Position of cell (`col`, `row`) in the row-major list of cells; row 0 is the
/// bottom row, column 0 the left edge, and each row holds `BOARD_WIDTH` (80) cells.
pub open spec fn cell_index(col: int, row: int) -> int {
    row * 80 + col
}

/// Whether (`col`, `row`) is a cell of the board.
pub open spec fn on_board(col: int, row: int) -> bool {
    0 <= col < BOARD_WIDTH && 0 <= row < BOARD_HEIGHT
}

/// Whether a grain may occupy (`col`, `row`) given the settled grains `cells`:
/// never outside the side walls or below the floor, always above the board, and
/// on the board exactly where no grain has settled.
pub open spec fn free_at(cells: Seq<Option<u64>>, col: int, row: int) -> bool {
    if col < 0 || col >= BOARD_WIDTH || row < 0 {
        false
    } else if row >= BOARD_HEIGHT {
        true
    } else {
        cells[cell_index(col, row)] is None
    }
}

/// The index of an on-board cell is within the list of cells, and distinct
/// cells have distinct indices.
pub proof fn lemma_cell_index(col: int, row: int)
    requires
        on_board(col, row),
    ensures
        0 <= cell_index(col, row) < CELL_COUNT,
        cell_index(col, row) / BOARD_WIDTH as int == row,
        cell_index(col, row) % BOARD_WIDTH as int == col,
{
    assert(0 <= row * 80 + col < 14080) by (nonlinear_arith)
        requires 0 <= col < 80, 0 <= row < 176;
    assert((row * 80 + col) / 80 == row && (row * 80 + col) % 80 == col) by (nonlinear_arith)
        requires 0 <= col < 80, 0 <= row < 176;
}

/// Reading back a write: after recording grain `e` at (`col`, `row`) that cell
/// holds `e` and is no longer free, and every other cell reads as before;
/// after emptying it, it is free again.
pub proof fn lemma_write_then_read(cells: Seq<Option<u64>>, col: int, row: int, e: u64)
    requires
        cells.len() == CELL_COUNT,
        on_board(col, row),
    ensures
        cells.update(cell_index(col, row), Some(e))[cell_index(col, row)] == Some(e),
        !free_at(cells.update(cell_index(col, row), Some(e)), col, row),
        free_at(cells.update(cell_index(col, row), None), col, row),
        forall|c: int, r: int| on_board(c, r) && (c, r) != (col, row) ==> {
            &&& #[trigger] cells.update(cell_index(col, row), Some(e))[cell_index(c, r)] == cells[cell_index(c, r)]
            &&& cells.update(cell_index(col, row), None)[cell_index(c, r)] == cells[cell_index(c, r)]
        },
{
    lemma_cell_index(col, row);
    assert forall|c: int, r: int| on_board(c, r) && (c, r) != (col, row) implies {
        &&& #[trigger] cells.update(cell_index(col, row), Some(e))[cell_index(c, r)] == cells[cell_index(c, r)]
        &&& cells.update(cell_index(col, row), None)[cell_index(c, r)] == cells[cell_index(c, r)]
    } by {
        lemma_cell_index(c, r);
    }
}

/// Board tracking settled grains by the id of the grain's entity.
/// Row 0 = bottom, column 0 = left edge.
#[derive(Clone, Debug)]
pub struct BoardGrid {
    cells: Vec<Option<u64>>,
}

impl View for BoardGrid {
    type V = Seq<Option<u64>>;

    closed spec fn view(&self) -> Seq<Option<u64>> {
        self.cells@
    }
}

impl BoardGrid {
    /// A board has exactly one entry per cell.
    pub open spec fn wf(&self) -> bool {
        self@.len() == CELL_COUNT
    }

    /// The grain settled at (`col`, `row`), if any.
    pub open spec fn cell(self, col: int, row: int) -> Option<u64> {
        self@[cell_index(col, row)]
    }

    /// An empty board.
    pub fn new() -> (b: BoardGrid)
        ensures
            b.wf(),
            forall|i: int| 0 <= i < CELL_COUNT ==> #[trigger] b@[i] is None,
    {
        let mut cells: Vec<Option<u64>> = Vec::with_capacity(CELL_COUNT);
        let mut i: usize = 0;
        while i < CELL_COUNT
            invariant
                i <= CELL_COUNT,
                cells@.len() == i,
                forall|j: int| 0 <= j < i ==> #[trigger] cells@[j] is None,
            decreases CELL_COUNT - i,
        {
            cells.push(None);
            i = i + 1;
        }
        BoardGrid { cells }
    }

    /// Whether a grain may occupy (`col`, `row`), with coordinates of any size.
    pub fn is_free_at(&self, col: i64, row: i64) -> (r: bool)
        requires
            self.wf(),
        ensures
            r == free_at(self@, col as int, row as int),
    {
        if col < 0 || col >= BOARD_WIDTH as i64 || row < 0 {
            return false;
        }
        if row >= BOARD_HEIGHT as i64 {
            return true;
        }
        proof {
            lemma_cell_index(col as int, row as int);
        }
        let i = (row as usize) * (BOARD_WIDTH as usize) + (col as usize);
        self.cells[i].is_none()
    }

    /// Whether a grain may occupy (`col`, `row`): false left of the left wall,
    /// right of the right wall and below the floor; true above the board; and on
    /// the board, true exactly where no grain has settled.
    pub fn is_free(&self, col: i32, row: i32) -> (r: bool)
        requires
            self.wf(),
        ensures
            r == free_at(self@, col as int, row as int),
    {
        self.is_free_at(col as i64, row as i64)
    }

    /// The grain settled at (`col`, `row`), if any.
    pub fn get(&self, col: usize, row: usize) -> (r: Option<u64>)
        requires
            self.wf(),
            on_board(col as int, row as int),
        ensures
            r == self.cell(col as int, row as int),
    {
        proof {
            lemma_cell_index(col as int, row as int);
        }
        self.cells[row * (BOARD_WIDTH as usize) + col]
    }

    /// Records that grain `entity` has settled at (`col`, `row`).
    pub fn set(&mut self, col: usize, row: usize, entity: u64)
        requires
            old(self).wf(),
            on_board(col as int, row as int),
        ensures
            final(self).wf(),
            final(self)@ == old(self)@.update(cell_index(col as int, row as int), Some(entity)),
    {
        proof {
            lemma_cell_index(col as int, row as int);
        }
        let i = row * (BOARD_WIDTH as usize) + col;
        self.cells.set(i, Some(entity));
    }

    /// Empties the cell (`col`, `row`).
    pub fn clear_cell(&mut self, col: usize, row: usize)
        requires
            old(self).wf(),
            on_board(col as int, row as int),
        ensures
            final(self).wf(),
            final(self)@ == old(self)@.update(cell_index(col as int, row as int), None),
    {
        proof {
            lemma_cell_index(col as int, row as int);
        }
        let i = row * (BOARD_WIDTH as usize) + col;
        self.cells.set(i, None);
    }
}

impl Default for BoardGrid {
    /// An empty board.
    fn default() -> (b: BoardGrid)
        ensures
            b.wf(),
            forall|i: int| 0 <= i < CELL_COUNT ==> #[trigger] b@[i] is None,
    {
        BoardGrid::new()
    }
}

} // verus!
