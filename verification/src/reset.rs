//! Clearing a board back to what the puzzle gave.

use vstd::prelude::*;
use crate::cell::CellValue;
use crate::grid::{at, blank, cell_wf, grid_wf, in_board, lemma_with_cell, Grid};
use crate::sudoku::Sudoku;

verus! {

/// The board `g` with every cell that the puzzle did not give made blank.
pub open spec fn cleared(g: Grid) -> Grid {
    Seq::new(
        9,
        |y: int|
            Seq::new(
                9,
                |x: int|
                    if at(g, x, y).is_static {
                        at(g, x, y)
                    } else {
                        blank()
                    },
            ),
    )
}

impl Sudoku {
    /// Makes every cell that the puzzle did not give blank again: no value,
    /// no candidates. The cells that the puzzle gave stay as they are.
    pub fn reset_board(&mut self)
        requires
            old(self).wf(),
        ensures
            final(self).wf(),
            final(self)@ == cleared(old(self)@),
    {
        let ghost start = self@;
        for y in 0..Self::BOARD_DIM
            invariant
                self.wf(),
                grid_wf(start),
                forall|px: int, py: int|
                    in_board(px, py) ==> #[trigger] at(self@, px, py) == if py < y {
                        at(cleared(start), px, py)
                    } else {
                        at(start, px, py)
                    },
        {
            for x in 0..Self::BOARD_DIM
                invariant
                    y < 9,
                    self.wf(),
                    grid_wf(start),
                    forall|px: int, py: int|
                        in_board(px, py) ==> #[trigger] at(self@, px, py) == if py < y || (py == y
                            && px < x) {
                            at(cleared(start), px, py)
                        } else {
                            at(start, px, py)
                        },
            {
                if !self.get_cell(x, y).is_static() {
                    let ghost before = self@;
                    assert(cell_wf(blank()));
                    self.set_value(x, y, CellValue::Uncertain(Vec::new()));
                    proof {
                        lemma_with_cell(before, x as int, y as int, blank());
                    }
                }
            }
        }
        proof {
            assert forall|py: int| 0 <= py < 9 implies #[trigger] self@[py] == cleared(start)[py] by {
                assert forall|px: int| 0 <= px < 9 implies self@[py][px] == cleared(start)[py][px] by {
                    assert(at(self@, px, py) == at(cleared(start), px, py));
                }
                assert(self@[py] =~= cleared(start)[py]);
            }
            assert(self@ =~= cleared(start));
        }
    }
}

} // verus!
