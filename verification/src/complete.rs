//! The completion check: every cell is settled and every row, column and
//! block adds up to 45.
//!
//! The sum is a necessary sign of a solved board, not a sufficient one: a
//! group with two 5s and no 4 and no 6 adds up to 45 as well.

use vstd::prelude::*;
use crate::cell::settled_digit;
use crate::grid::{
    at, cells_in_board, column_cells, in_board, quadrant_cells, row_cells, Grid,
};
use crate::sudoku::Sudoku;

verus! {

/// The sum of the elements of `s`.
pub open spec fn digit_sum(s: Seq<u32>) -> int
    decreases s.len(),
{
    if s.len() == 0 {
        0
    } else {
        digit_sum(s.drop_last()) + s.last()
    }
}

/// The digits that the cells of `cells` are settled on, in the order of
/// `cells`.
pub open spec fn group_digits(g: Grid, cells: Seq<(usize, usize)>) -> Seq<u32> {
    Seq::new(cells.len(), |k: int| settled_digit(at(g, cells[k].0 as int, cells[k].1 as int)))
}

/// The sum of the digits that the cells of `cells` are settled on.
pub open spec fn group_sum(g: Grid, cells: Seq<(usize, usize)>) -> int {
    digit_sum(group_digits(g, cells))
}

/// Whether every cell of the board is settled.
pub open spec fn all_settled(g: Grid) -> bool {
    forall|x: int, y: int| in_board(x, y) ==> (#[trigger] at(g, x, y)).value is Certain
}

/// Whether the board passes the completion check: every cell is settled,
/// and the digits of every block, row and column add up to 45.
pub open spec fn is_complete(g: Grid) -> bool {
    &&& all_settled(g)
    &&& forall|qx: usize, qy: usize|
        qx < 3 && qy < 3 ==> group_sum(g, #[trigger] quadrant_cells(qx, qy)) == 45
    &&& forall|i: usize| i < 9 ==> group_sum(g, #[trigger] row_cells(i)) == 45
    &&& forall|i: usize| i < 9 ==> group_sum(g, #[trigger] column_cells(i)) == 45
}

/// Whether each of the digits 1 to 9 stands in some cell of `cells`.
pub open spec fn holds_every_digit(g: Grid, cells: Seq<(usize, usize)>) -> bool {
    forall|d: u32| 1 <= d <= 9 ==> group_digits(g, cells).contains(d)
}

/// Whether the board is a solved Sudoku: every cell is settled, and every
/// block, row and column holds each of the digits 1 to 9.
pub open spec fn is_solution(g: Grid) -> bool {
    &&& all_settled(g)
    &&& forall|qx: usize, qy: usize|
        qx < 3 && qy < 3 ==> holds_every_digit(g, #[trigger] quadrant_cells(qx, qy))
    &&& forall|i: usize| i < 9 ==> holds_every_digit(g, #[trigger] row_cells(i))
    &&& forall|i: usize| i < 9 ==> holds_every_digit(g, #[trigger] column_cells(i))
}

/// The sum 1 + 2 + ... + n.
spec fn triangle(n: nat) -> int
    decreases n,
{
    if n == 0 {
        0
    } else {
        triangle((n - 1) as nat) + n
    }
}

/// Taking one element out of a sequence lowers its sum by that element.
proof fn lemma_digit_sum_remove(s: Seq<u32>, p: int)
    requires
        0 <= p < s.len(),
    ensures
        digit_sum(s) == digit_sum(s.remove(p)) + s[p],
    decreases s.len(),
{
    if p == s.len() - 1 {
        assert(s.remove(p) =~= s.drop_last());
    } else {
        lemma_digit_sum_remove(s.drop_last(), p);
        assert(s.drop_last().remove(p) =~= s.remove(p).drop_last());
        assert(s.remove(p).last() == s.last());
    }
}

/// A sequence of `n` numbers that holds each of 1 to `n` adds up to
/// 1 + 2 + ... + `n`.
proof fn lemma_digit_sum_of_all(s: Seq<u32>, n: nat)
    requires
        s.len() == n,
        n <= 9,
        forall|d: u32| 1 <= d <= n ==> s.contains(d),
    ensures
        digit_sum(s) == triangle(n),
    decreases n,
{
    if n > 0 {
        assert(s.contains(n as u32));
        let p = choose|p: int| 0 <= p < s.len() && s[p] == n as u32;
        let rest = s.remove(p);
        assert forall|d: u32| 1 <= d <= n - 1 implies rest.contains(d) by {
            assert(s.contains(d));
            let j = choose|j: int| 0 <= j < s.len() && s[j] == d;
            let k = if j < p { j } else { j - 1 };
            assert(rest[k] == d);
        }
        lemma_digit_sum_of_all(rest, (n - 1) as nat);
        lemma_digit_sum_remove(s, p);
    }
}

/// A board with a cell that is not settled does not pass the completion
/// check.
pub proof fn lemma_open_cell_not_complete(g: Grid, x: int, y: int)
    requires
        in_board(x, y),
        at(g, x, y).value is Uncertain,
    ensures
        !is_complete(g),
{
}

/// A solved Sudoku passes the completion check.
pub proof fn lemma_solution_is_complete(g: Grid)
    requires
        is_solution(g),
    ensures
        is_complete(g),
{
    assert(triangle(9) == 45) by {
        reveal_with_fuel(triangle, 10);
    }
    assert forall|qx: usize, qy: usize| qx < 3 && qy < 3 implies group_sum(
        g,
        #[trigger] quadrant_cells(qx, qy),
    ) == 45 by {
        lemma_digit_sum_of_all(group_digits(g, quadrant_cells(qx, qy)), 9);
    }
    assert forall|i: usize| i < 9 implies group_sum(g, #[trigger] row_cells(i)) == 45 by {
        lemma_digit_sum_of_all(group_digits(g, row_cells(i)), 9);
    }
    assert forall|i: usize| i < 9 implies group_sum(g, #[trigger] column_cells(i)) == 45 by {
        lemma_digit_sum_of_all(group_digits(g, column_cells(i)), 9);
    }
}

impl Sudoku {
    /// The sum of the digits of the cells of `cells`, on a board whose cells
    /// are all settled.
    fn group_total(&self, cells: &Vec<(usize, usize)>) -> (total: u32)
        requires
            self.wf(),
            all_settled(self@),
            cells_in_board(cells@),
            cells@.len() <= 9,
        ensures
            total == group_sum(self@, cells@),
    {
        let mut total: u32 = 0;
        for k in 0..cells.len()
            invariant
                self.wf(),
                all_settled(self@),
                cells_in_board(cells@),
                cells@.len() <= 9,
                total == digit_sum(group_digits(self@, cells@).take(k as int)),
                total <= 9 * k,
        {
            let (x, y) = cells[k];
            assert(in_board(cells@[k as int].0 as int, cells@[k as int].1 as int));
            let digit = self.get_cell(x, y).value().as_vec()[0];
            proof {
                let digits = group_digits(self@, cells@);
                assert(at(self@, x as int, y as int).value is Certain);
                assert(digits.take(k + 1).drop_last() =~= digits.take(k as int));
                assert(digits.take(k + 1).last() == digit);
            }
            total += digit;
        }
        assert(group_digits(self@, cells@).take(cells@.len() as int) =~= group_digits(
            self@,
            cells@,
        ));
        total
    }

    /// Whether the board passes the completion check: every cell is settled,
    /// and the digits of every block, row and column add up to 45.
    pub fn complete(&self) -> (res: bool)
        requires
            self.wf(),
        ensures
            res == is_complete(self@),
    {
        let expected_sum: u32 = 45;

        for y in 0..Self::BOARD_DIM
            invariant
                self.wf(),
                forall|px: int, py: int|
                    in_board(px, py) && py < y ==> (#[trigger] at(self@, px, py)).value is Certain,
        {
            for x in 0..Self::BOARD_DIM
                invariant
                    y < 9,
                    self.wf(),
                    forall|px: int, py: int|
                        in_board(px, py) && (py < y || (py == y && px < x)) ==> (#[trigger] at(
                            self@,
                            px,
                            py,
                        )).value is Certain,
            {
                if !self.get_cell(x, y).value().is_certain() {
                    return false;
                }
            }
        }

        for qy in 0..Self::QUADRANT_DIM
            invariant
                expected_sum == 45,
                self.wf(),
                all_settled(self@),
                forall|px: usize, py: usize|
                    px < 3 && py < qy ==> group_sum(self@, #[trigger] quadrant_cells(px, py)) == 45,
        {
            for qx in 0..Self::QUADRANT_DIM
                invariant
                    expected_sum == 45,
                    qy < 3,
                    self.wf(),
                    all_settled(self@),
                    forall|px: usize, py: usize|
                        px < 3 && (py < qy || (py == qy && px < qx)) ==> group_sum(
                            self@,
                            #[trigger] quadrant_cells(px, py),
                        ) == 45,
            {
                let quadrant = Sudoku::quadrant_coords(qx, qy);
                if self.group_total(&quadrant) != expected_sum {
                    return false;
                }
            }
        }

        for i in 0..Self::BOARD_DIM
            invariant
                expected_sum == 45,
                self.wf(),
                all_settled(self@),
                forall|px: usize, py: usize|
                    px < 3 && py < 3 ==> group_sum(self@, #[trigger] quadrant_cells(px, py)) == 45,
                forall|j: usize| j < i ==> group_sum(self@, #[trigger] row_cells(j)) == 45,
                forall|j: usize| j < i ==> group_sum(self@, #[trigger] column_cells(j)) == 45,
        {
            let row = Sudoku::row_coords(i);
            if self.group_total(&row) != expected_sum {
                return false;
            }
            let column = Sudoku::column_coords(i);
            if self.group_total(&column) != expected_sum {
                return false;
            }
        }

        true
    }
}

} // verus!
