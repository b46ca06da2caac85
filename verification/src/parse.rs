//! Reading a puzzle from text.
//!
//! The text holds one row per line. A decimal digit in one of the first nine
//! columns of one of the first nine lines is a cell that the puzzle gives;
//! every other character stands for an open cell, and whatever lies beyond
//! the ninth column or the ninth line is ignored.

use vstd::prelude::*;
use crate::cell::{Cell, CellValue, CellView, Domain};
use crate::grid::{at, blank, in_board, lemma_with_cell, Grid};
use crate::sudoku::Sudoku;

verus! {

/// The lines of `s`: a line ends at each line feed, which is not part of it.
/// The last line is what follows the last line feed, and may be empty.
pub open spec fn lines(s: Seq<char>) -> Seq<Seq<char>>
    decreases s.len(),
{
    if s.len() == 0 {
        seq![Seq::empty()]
    } else {
        let front = lines(s.drop_last());
        if s.last() == '\n' {
            front.push(Seq::empty())
        } else {
            front.update(front.len() - 1, front.last().push(s.last()))
        }
    }
}

/// Whether `c` is one of the characters `0` to `9`.
pub open spec fn is_digit(c: char) -> bool {
    '0' <= c <= '9'
}

/// The number that the digit `c` stands for.
pub open spec fn digit_value(c: char) -> u32 {
    (c as u32 - '0' as u32) as u32
}

/// The cell that the character `c` stands for: a given digit, or an open
/// cell.
pub open spec fn given(c: char) -> CellView {
    if is_digit(c) {
        CellView { value: Domain::Certain(digit_value(c)), is_static: true }
    } else {
        blank()
    }
}

/// The cell in column `x` of row `y` of the puzzle with the lines `ls`: what
/// character `x` of line `y` stands for, or an open cell where the text has
/// no such character.
pub open spec fn parsed_cell(ls: Seq<Seq<char>>, x: int, y: int) -> CellView {
    if y < ls.len() && x < ls[y].len() {
        given(ls[y][x])
    } else {
        blank()
    }
}

/// The board that the text `s` describes.
pub open spec fn parsed(s: Seq<char>) -> Grid {
    Seq::new(9, |y: int| Seq::new(9, |x: int| parsed_cell(lines(s), x, y)))
}

/// The number that `c` stands for, if `c` is a decimal digit.
fn digit_of(c: char) -> (res: Option<u32>)
    ensures
        res == if is_digit(c) {
            Some(digit_value(c))
        } else {
            None
        },
{
    if '0' <= c && c <= '9' {
        Some(c as u32 - '0' as u32)
    } else {
        None
    }
}

impl Sudoku {
    /// Reads a puzzle from `text`, one row per line.
    ///
    /// A decimal digit in one of the first nine columns of one of the first
    /// nine lines becomes a settled cell that the puzzle gives. Every other
    /// cell is open and has no candidates yet. Nothing is checked: the digits
    /// may contradict each other.
    pub fn from_text(text: &str) -> (res: Self)
        ensures
            res.wf(),
            res@ == parsed(text@),
    {
        let mut res = Sudoku::blank();
        // The position of the next character, each coordinate counted no
        // further than 9.
        let mut x: usize = 0;
        let mut y: usize = 0;
        for c in it: text.chars()
            invariant
                it.seq() == text@,
                res.wf(),
                ({
                    let ls = lines(text@.take(it.index() as int));
                    &&& ls.len() >= 1
                    &&& y == if ls.len() - 1 < 9 {
                        ls.len() - 1
                    } else {
                        9
                    }
                    &&& x == if ls.last().len() < 9 {
                        ls.last().len() as int
                    } else {
                        9
                    }
                    &&& forall|px: int, py: int|
                        in_board(px, py) ==> #[trigger] at(res@, px, py) == parsed_cell(ls, px, py)
                }),
        {
            let ghost before = res@;
            let ghost seen = text@.take(it.index() as int);
            let ghost ls = lines(seen);
            let ghost next = lines(text@.take(it.index() + 1));
            proof {
                assert(text@.take(it.index() + 1).drop_last() =~= seen);
                assert(text@.take(it.index() + 1).last() == c);
            }
            if c == '\n' {
                if y < 9 {
                    y += 1;
                }
                x = 0;
                proof {
                    assert(next == ls.push(Seq::<char>::empty()));
                    assert forall|px: int, py: int| in_board(px, py) implies #[trigger] at(
                        res@,
                        px,
                        py,
                    ) == parsed_cell(next, px, py) by {
                        assert(at(res@, px, py) == parsed_cell(ls, px, py));
                    }
                }
            } else {
                if x < 9 && y < 9 {
                    if let Some(num) = digit_of(c) {
                        res.set_cell(x, y, Cell::new(CellValue::Certain(num), true));
                    }
                }
                proof {
                    assert(next == ls.update(ls.len() - 1, ls.last().push(c)));
                    if x < 9 && y < 9 {
                        lemma_with_cell(
                            before,
                            x as int,
                            y as int,
                            CellView { value: Domain::Certain(digit_value(c)), is_static: true },
                        );
                    }
                    assert forall|px: int, py: int| in_board(px, py) implies #[trigger] at(
                        res@,
                        px,
                        py,
                    ) == parsed_cell(next, px, py) by {
                        assert(at(before, px, py) == parsed_cell(ls, px, py));
                    }
                }
                if x < 9 {
                    x += 1;
                }
            }
        }
        proof {
            assert(text@.take(text@.len() as int) =~= text@);
            assert forall|py: int| 0 <= py < 9 implies #[trigger] res@[py] == parsed(text@)[py] by {
                assert forall|px: int| 0 <= px < 9 implies res@[py][px] == parsed(
                    text@,
                )[py][px] by {
                    assert(at(res@, px, py) == parsed_cell(lines(text@), px, py));
                }
                assert(res@[py] =~= parsed(text@)[py]);
            }
            assert(res@ =~= parsed(text@));
        }
        res
    }
}

} // verus!
