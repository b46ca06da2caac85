//! The board itself, and the few operations that touch its storage.

use vstd::prelude::*;
use crate::cell::{Cell, CellValue, CellView};
use crate::grid::{
    at, blank, cell_wf, column_cells, grid_wf, in_board, lemma_with_cell, quadrant_cells,
    row_cells, with_cell, with_value, Grid,
};

verus! {

/// A 9x9 board of cells.
#[derive(Debug)]
pub struct Sudoku {
    // Always BOARD_DIM rows of BOARD_DIM cells.
    board: Vec<Vec<Cell>>,
}

impl View for Sudoku {
    type V = Grid;

    closed spec fn view(&self) -> Grid {
        Seq::new(
            self.board@.len(),
            |y: int| Seq::new(self.board@[y]@.len(), |x: int| self.board@[y]@[x]@),
        )
    }
}

/// The boards of `boards` as mathematical values.
pub open spec fn grids(boards: Seq<Sudoku>) -> Seq<Grid> {
    boards.map_values(|b: Sudoku| b@)
}

impl Clone for Sudoku {
    /// A deep copy: the clone shares nothing with `self`.
    fn clone(&self) -> (res: Self)
        ensures
            res@ == self@,
    {
        let mut board: Vec<Vec<Cell>> = Vec::new();
        let mut y: usize = 0;
        while y < self.board.len()
            invariant
                y <= self.board@.len(),
                board@.len() == y,
                forall|j: int| 0 <= j < y ==> (#[trigger] board@[j])@.len() == self.board@[j]@.len(),
                forall|j: int, i: int|
                    0 <= j < y && 0 <= i < self.board@[j]@.len() ==> (#[trigger] board@[j]@[i])@
                        == self.board@[j]@[i]@,
            decreases self.board@.len() - y,
        {
            let source = &self.board[y];
            let mut row: Vec<Cell> = Vec::new();
            let mut x: usize = 0;
            while x < source.len()
                invariant
                    x <= source@.len(),
                    row@.len() == x,
                    forall|i: int| 0 <= i < x ==> (#[trigger] row@[i])@ == source@[i]@,
                decreases source@.len() - x,
            {
                row.push(source[x].clone());
                x += 1;
            }
            board.push(row);
            y += 1;
        }
        let res = Sudoku { board };
        assert(res@ =~~= self@);
        res
    }
}

impl Sudoku {
    /// The number of rows, and of columns.
    pub const BOARD_DIM: usize = 9;

    /// The number of rows, and of columns, of a block.
    pub const QUADRANT_DIM: usize = 3;

    /// Whether the board is valid: nine by nine, each cell valid.
    pub open spec fn wf(&self) -> bool {
        grid_wf(self@)
    }

    /// A board of blank cells.
    pub(crate) fn blank() -> (res: Self)
        ensures
            res.wf(),
            forall|x: int, y: int| in_board(x, y) ==> #[trigger] at(res@, x, y) == blank(),
    {
        let mut board: Vec<Vec<Cell>> = Vec::new();
        let mut y: usize = 0;
        while y < 9
            invariant
                y <= 9,
                board@.len() == y,
                forall|j: int| 0 <= j < y ==> (#[trigger] board@[j])@.len() == 9,
                forall|j: int, i: int|
                    0 <= j < y && 0 <= i < 9 ==> (#[trigger] board@[j]@[i])@ == blank(),
            decreases 9 - y,
        {
            let mut row: Vec<Cell> = Vec::new();
            let mut x: usize = 0;
            while x < 9
                invariant
                    x <= 9,
                    row@.len() == x,
                    forall|i: int| 0 <= i < x ==> (#[trigger] row@[i])@ == blank(),
                decreases 9 - x,
            {
                row.push(Cell::new(CellValue::Uncertain(Vec::new()), false));
                x += 1;
            }
            board.push(row);
            y += 1;
        }
        let res = Sudoku { board };
        assert forall|x: int, y: int| in_board(x, y) implies #[trigger] at(res@, x, y) == blank() by {
            assert(res.board@[y]@[x]@ == blank());
        }
        assert(cell_wf(blank()));
        res
    }

    /// The cell in column `x` of row `y`.
    pub fn get_cell(&self, x: usize, y: usize) -> (res: &Cell)
        requires
            self.wf(),
            x < 9,
            y < 9,
        ensures
            res@ == at(self@, x as int, y as int),
    {
        assert(self@[y as int].len() == 9);
        &self.board[y][x]
    }

    /// Replaces the cell in column `x` of row `y`.
    pub(crate) fn set_cell(&mut self, x: usize, y: usize, cell: Cell)
        requires
            old(self).wf(),
            x < 9,
            y < 9,
            cell_wf(cell@),
        ensures
            final(self).wf(),
            final(self)@ == with_cell(old(self)@, x as int, y as int, cell@),
    {
        assert(self@[y as int].len() == 9);
        self.board[y][x] = cell;
        proof {
            lemma_with_cell(old(self)@, x as int, y as int, cell@);
            assert(self@ =~~= with_cell(old(self)@, x as int, y as int, cell@));
        }
    }

    /// Replaces the value of the cell in column `x` of row `y` and keeps its
    /// flag.
    pub(crate) fn set_value(&mut self, x: usize, y: usize, value: CellValue)
        requires
            old(self).wf(),
            x < 9,
            y < 9,
            cell_wf(CellView { value: value@, is_static: at(old(self)@, x as int, y as int).is_static }),
        ensures
            final(self).wf(),
            final(self)@ == with_value(old(self)@, x as int, y as int, value@),
    {
        assert(self@[y as int].len() == 9);
        self.board[y][x].set_value(value);
        proof {
            let c = CellView { value: value@, is_static: at(old(self)@, x as int, y as int).is_static };
            lemma_with_cell(old(self)@, x as int, y as int, c);
            assert(self@ =~~= with_cell(old(self)@, x as int, y as int, c));
        }
    }

    /// The coordinates of the 3x3 block in block column `quadrant_x` and block
    /// row `quadrant_y`, row by row.
    pub fn quadrant_coords(quadrant_x: usize, quadrant_y: usize) -> (res: Vec<(usize, usize)>)
        requires
            quadrant_x < 3,
            quadrant_y < 3,
        ensures
            res@ == quadrant_cells(quadrant_x, quadrant_y),
    {
        let left: usize = quadrant_x * Self::QUADRANT_DIM;
        let top: usize = quadrant_y * Self::QUADRANT_DIM;
        let mut quadrant: Vec<(usize, usize)> = Vec::new();
        let mut y: usize = top;
        while y < top + Self::QUADRANT_DIM
            invariant
                left == 3 * quadrant_x,
                top == 3 * quadrant_y,
                quadrant_x < 3,
                quadrant_y < 3,
                top <= y <= top + 3,
                quadrant@.len() == 3 * (y - top),
                forall|k: int|
                    0 <= k < quadrant@.len() ==> #[trigger] quadrant@[k] == quadrant_cells(
                        quadrant_x,
                        quadrant_y,
                    )[k],
            decreases top + 3 - y,
        {
            let mut x: usize = left;
            while x < left + Self::QUADRANT_DIM
                invariant
                    left == 3 * quadrant_x,
                    top == 3 * quadrant_y,
                    quadrant_x < 3,
                    quadrant_y < 3,
                    top <= y < top + 3,
                    left <= x <= left + 3,
                    quadrant@.len() == 3 * (y - top) + (x - left),
                    forall|k: int|
                        0 <= k < quadrant@.len() ==> #[trigger] quadrant@[k] == quadrant_cells(
                            quadrant_x,
                            quadrant_y,
                        )[k],
                decreases left + 3 - x,
            {
                quadrant.push((x, y));
                x += 1;
            }
            y += 1;
        }
        assert(quadrant@ =~= quadrant_cells(quadrant_x, quadrant_y));
        quadrant
    }

    /// The coordinates of row `row_index`, from left to right.
    pub fn row_coords(row_index: usize) -> (res: Vec<(usize, usize)>)
        requires
            row_index < 9,
        ensures
            res@ == row_cells(row_index),
    {
        let mut row: Vec<(usize, usize)> = Vec::new();
        let mut x: usize = 0;
        while x < Self::BOARD_DIM
            invariant
                x <= 9,
                row@.len() == x,
                forall|k: int| 0 <= k < x ==> #[trigger] row@[k] == (k as usize, row_index),
            decreases 9 - x,
        {
            row.push((x, row_index));
            x += 1;
        }
        assert(row@ =~= row_cells(row_index));
        row
    }

    /// The coordinates of column `column_index`, from top to bottom.
    pub fn column_coords(column_index: usize) -> (res: Vec<(usize, usize)>)
        requires
            column_index < 9,
        ensures
            res@ == column_cells(column_index),
    {
        let mut column: Vec<(usize, usize)> = Vec::new();
        let mut y: usize = 0;
        while y < Self::BOARD_DIM
            invariant
                y <= 9,
                column@.len() == y,
                forall|k: int| 0 <= k < y ==> #[trigger] column@[k] == (column_index, k as usize),
            decreases 9 - y,
        {
            column.push((column_index, y));
            y += 1;
        }
        assert(column@ =~= column_cells(column_index));
        column
    }
}

} // verus!
