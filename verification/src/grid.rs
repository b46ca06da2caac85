//! The board as a mathematical value: nine rows of nine cells, the three
//! kinds of constraint group, and what makes a board valid.

use vstd::prelude::*;
use crate::cell::{CellView, Domain};

verus! {

/// A board as a mathematical value: `g[y][x]` is the cell in column `x` of
/// row `y`.
pub type Grid = Seq<Seq<CellView>>;

/// The cell in column `x` of row `y`.
pub open spec fn at(g: Grid, x: int, y: int) -> CellView {
    g[y][x]
}

/// Whether `(x, y)` names a cell of the board.
pub open spec fn in_board(x: int, y: int) -> bool {
    0 <= x < 9 && 0 <= y < 9
}

/// A cell that the puzzle left open, before any candidates were computed.
pub open spec fn blank() -> CellView {
    CellView { value: Domain::Uncertain(Seq::empty()), is_static: false }
}

/// Whether every element of `s` is one of the digits 1 to 9.
pub open spec fn all_digits(s: Seq<u32>) -> bool {
    forall|i: int| 0 <= i < s.len() ==> 1 <= #[trigger] s[i] <= 9
}

/// What holds of every cell of a board: a settled value is a single decimal
/// digit, a cell given by the puzzle is settled, and candidates are digits
/// 1 to 9 with none listed twice.
pub open spec fn cell_wf(c: CellView) -> bool {
    match c.value {
        Domain::Certain(v) => v <= 9,
        Domain::Uncertain(s) => !c.is_static && s.no_duplicates() && all_digits(s),
    }
}

/// Whether `g` has exactly nine rows of nine cells.
pub open spec fn grid_shape(g: Grid) -> bool {
    &&& g.len() == 9
    &&& forall|y: int| 0 <= y < 9 ==> (#[trigger] g[y]).len() == 9
}

/// Whether `g` is a valid board: nine by nine, each cell valid.
pub open spec fn grid_wf(g: Grid) -> bool {
    &&& grid_shape(g)
    &&& forall|x: int, y: int| in_board(x, y) ==> cell_wf(#[trigger] at(g, x, y))
}

/// The board `g` with the cell `(x, y)` replaced by `c`.
pub open spec fn with_cell(g: Grid, x: int, y: int, c: CellView) -> Grid {
    g.update(y, g[y].update(x, c))
}

/// The board `g` with the value of cell `(x, y)` replaced by `value`; the
/// cell keeps its flag.
pub open spec fn with_value(g: Grid, x: int, y: int, value: Domain) -> Grid {
    with_cell(g, x, y, CellView { value, is_static: at(g, x, y).is_static })
}

/// The nine cells of row `i`, from left to right.
pub open spec fn row_cells(i: usize) -> Seq<(usize, usize)> {
    Seq::new(9, |k: int| (k as usize, i))
}

/// The nine cells of column `i`, from top to bottom.
pub open spec fn column_cells(i: usize) -> Seq<(usize, usize)> {
    Seq::new(9, |k: int| (i, k as usize))
}

/// The nine cells of the 3x3 block in block column `qx` and block row `qy`,
/// row by row.
pub open spec fn quadrant_cells(qx: usize, qy: usize) -> Seq<(usize, usize)> {
    Seq::new(9, |k: int| ((3 * qx + k % 3) as usize, (3 * qy + k / 3) as usize))
}

/// Whether every coordinate of `cells` names a cell of the board.
pub open spec fn cells_in_board(cells: Seq<(usize, usize)>) -> bool {
    forall|k: int| 0 <= k < cells.len() ==> in_board((#[trigger] cells[k]).0 as int, cells[k].1 as int)
}

/// Whether `(px, py)` lies in the row, the column or the 3x3 block of
/// `(x, y)`.
pub open spec fn share_group(x: int, y: int, px: int, py: int) -> bool {
    px == x || py == y || (px / 3 == x / 3 && py / 3 == y / 3)
}

/// Whether `(px, py)` comes before `(x, y)` when the board is read row by
/// row, each row from left to right.
pub open spec fn precedes(px: int, py: int, x: int, y: int) -> bool {
    py < y || (py == y && px < x)
}

/// A sequence of numbers from 1 to `n`, none of them twice, has at most `n`
/// elements.
pub proof fn lemma_distinct_bounded(s: Seq<u32>, n: nat)
    requires
        s.no_duplicates(),
        forall|i: int| 0 <= i < s.len() ==> 1 <= #[trigger] s[i] <= n,
    ensures
        s.len() <= n,
    decreases n,
{
    if n == 0 {
        if s.len() > 0 {
            assert(1 <= s[0]);
        }
    } else if exists|p: int| 0 <= p < s.len() && s[p] == n {
        let p = choose|p: int| 0 <= p < s.len() && s[p] == n;
        let rest = s.remove(p);
        assert forall|i: int| 0 <= i < rest.len() implies 1 <= #[trigger] rest[i] <= n - 1 by {
            let oi = if i < p { i } else { i + 1 };
            assert(rest[i] == s[oi]);
            assert(s[oi] != s[p]);
        }
        assert forall|i: int, j: int|
            0 <= i < rest.len() && 0 <= j < rest.len() && i != j implies rest[i] != rest[j] by {
            let oi = if i < p { i } else { i + 1 };
            let oj = if j < p { j } else { j + 1 };
            assert(s[oi] != s[oj]);
        }
        lemma_distinct_bounded(rest, (n - 1) as nat);
    } else {
        assert forall|i: int| 0 <= i < s.len() implies 1 <= #[trigger] s[i] <= n - 1 by {
            assert(s[i] != n);
        }
        lemma_distinct_bounded(s, (n - 1) as nat);
    }
}

/// Replacing a cell of a valid board by a valid cell gives a valid board
/// that differs from the first in that cell alone.
pub proof fn lemma_with_cell(g: Grid, x: int, y: int, c: CellView)
    requires
        grid_shape(g),
        in_board(x, y),
    ensures
        grid_shape(with_cell(g, x, y, c)),
        at(with_cell(g, x, y, c), x, y) == c,
        forall|px: int, py: int|
            in_board(px, py) && (px != x || py != y) ==> #[trigger] at(with_cell(g, x, y, c), px, py)
                == at(g, px, py),
        grid_wf(g) && cell_wf(c) ==> grid_wf(with_cell(g, x, y, c)),
{
    let h = with_cell(g, x, y, c);
    assert forall|py: int| 0 <= py < 9 implies (#[trigger] h[py]).len() == 9 by {
        assert(g[py].len() == 9);
    }
    assert(g[y].len() == 9);
    if grid_wf(g) && cell_wf(c) {
        assert forall|px: int, py: int| in_board(px, py) implies cell_wf(#[trigger] at(h, px, py)) by {
            assert(g[py].len() == 9);
            if px != x || py != y {
                assert(at(h, px, py) == at(g, px, py));
            }
        }
    }
}

} // verus!
