//! Choice of the next cell to settle: the open cell with the fewest
//! candidates, the first such cell when the board is read row by row.

use vstd::prelude::*;
use crate::cell::{candidates, CellValue, CellView};
use crate::grid::{at, cell_wf, in_board, lemma_distinct_bounded, precedes, Grid};
use crate::sudoku::Sudoku;

verus! {

/// The entropy of a cell: the number of its candidates.
pub open spec fn entropy(c: CellView) -> nat {
    candidates(c).len()
}

/// Whether some cell of the board is not settled.
pub open spec fn has_open_cell(g: Grid) -> bool {
    exists|x: int, y: int| in_board(x, y) && (#[trigger] at(g, x, y)).value is Uncertain
}

/// Whether `(x, y)` is an open cell with no more candidates than any other
/// open cell, and with fewer than every open cell before it.
pub open spec fn is_least_entropy(g: Grid, x: int, y: int) -> bool {
    &&& in_board(x, y)
    &&& at(g, x, y).value is Uncertain
    &&& forall|px: int, py: int|
        in_board(px, py) && (#[trigger] at(g, px, py)).value is Uncertain ==> entropy(at(g, x, y))
            <= entropy(at(g, px, py)) && (precedes(px, py, x, y) ==> entropy(at(g, x, y)) < entropy(
            at(g, px, py),
        ))
}

/// The cell to settle next: the first open cell with the fewest candidates,
/// or `(0, 0)` on a board without open cells.
pub open spec fn least_entropy_cell(g: Grid) -> (int, int) {
    if has_open_cell(g) {
        choose|x: int, y: int| is_least_entropy(g, x, y)
    } else {
        (0, 0)
    }
}

/// At most one cell is the first with the fewest candidates.
pub proof fn lemma_least_entropy_unique(g: Grid, x: int, y: int)
    requires
        is_least_entropy(g, x, y),
    ensures
        has_open_cell(g),
        least_entropy_cell(g) == (x, y),
{
    let (cx, cy) = choose|cx: int, cy: int| is_least_entropy(g, cx, cy);
    assert(is_least_entropy(g, cx, cy));
    assert(at(g, cx, cy).value is Uncertain);
    assert(at(g, x, y).value is Uncertain);
    if precedes(cx, cy, x, y) {
        assert(entropy(at(g, x, y)) < entropy(at(g, cx, cy)));
    } else if precedes(x, y, cx, cy) {
        assert(entropy(at(g, cx, cy)) < entropy(at(g, x, y)));
    }
}

impl Sudoku {
    /// The cell to settle next: the open cell with the fewest candidates,
    /// the first such cell when the board is read row by row. On a board
    /// whose cells are all settled the answer is `(0, 0)`.
    pub fn find_less_entropy(&self) -> (res: (usize, usize))
        requires
            self.wf(),
        ensures
            res.0 < 9,
            res.1 < 9,
            (res.0 as int, res.1 as int) == least_entropy_cell(self@),
            has_open_cell(self@) ==> is_least_entropy(self@, res.0 as int, res.1 as int),
    {
        let mut index: (usize, usize) = (0, 0);
        let mut less_entropy: usize = usize::MAX;

        for y in 0..Self::BOARD_DIM
            invariant
                self.wf(),
                index.0 < 9,
                index.1 < 9,
                less_entropy == usize::MAX ==> index == (0usize, 0usize) && forall|
                    px: int,
                    py: int,
                |
                    in_board(px, py) && py < y ==> (#[trigger] at(self@, px, py)).value is Certain,
                less_entropy != usize::MAX ==> {
                    &&& index.1 < y
                    &&& at(self@, index.0 as int, index.1 as int).value is Uncertain
                    &&& entropy(at(self@, index.0 as int, index.1 as int)) == less_entropy
                    &&& forall|px: int, py: int|
                        in_board(px, py) && py < y && (#[trigger] at(self@, px, py)).value
                            is Uncertain ==> less_entropy <= entropy(at(self@, px, py)) && (
                        precedes(px, py, index.0 as int, index.1 as int) ==> less_entropy < entropy(
                            at(self@, px, py),
                        ))
                },
        {
            for x in 0..Self::BOARD_DIM
                invariant
                    y < 9,
                    self.wf(),
                    index.0 < 9,
                    index.1 < 9,
                    less_entropy == usize::MAX ==> index == (0usize, 0usize) && forall|
                        px: int,
                        py: int,
                    |
                        in_board(px, py) && precedes(px, py, x as int, y as int) ==> (#[trigger] at(
                            self@,
                            px,
                            py,
                        )).value is Certain,
                    less_entropy != usize::MAX ==> {
                        &&& precedes(index.0 as int, index.1 as int, x as int, y as int)
                        &&& at(self@, index.0 as int, index.1 as int).value is Uncertain
                        &&& entropy(at(self@, index.0 as int, index.1 as int)) == less_entropy
                        &&& forall|px: int, py: int|
                            in_board(px, py) && precedes(px, py, x as int, y as int) && (
                            #[trigger] at(self@, px, py)).value is Uncertain ==> less_entropy
                                <= entropy(at(self@, px, py)) && (precedes(
                                px,
                                py,
                                index.0 as int,
                                index.1 as int,
                            ) ==> less_entropy < entropy(at(self@, px, py)))
                    },
            {
                match self.get_cell(x, y).value() {
                    CellValue::Uncertain(numbers) => {
                        proof {
                            assert(cell_wf(at(self@, x as int, y as int)));
                            lemma_distinct_bounded(numbers@, 9);
                        }
                        if numbers.len() < less_entropy {
                            index = (x, y);
                            less_entropy = numbers.len();
                        }
                    },
                    CellValue::Certain(_) => {},
                }
            }
        }

        proof {
            if less_entropy == usize::MAX {
                assert(!has_open_cell(self@));
            } else {
                assert(is_least_entropy(self@, index.0 as int, index.1 as int));
                lemma_least_entropy_unique(self@, index.0 as int, index.1 as int);
            }
        }
        index
    }
}

} // verus!
