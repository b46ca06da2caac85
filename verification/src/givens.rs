//! The cells that the puzzle gives.
//!
//! No operation of the solver touches them, so a board can always be
//! cleared back to the puzzle it was loaded from.

use vstd::prelude::*;
use crate::cell::{CellView, Domain};
use crate::collapse::settled_on;
use crate::grid::{at, blank, cell_wf, grid_shape, grid_wf, in_board, lemma_with_cell, Grid};
use crate::parse::{lines, parsed, parsed_cell};
use crate::propagate::{propagated, recomputed};
use crate::reset::cleared;

verus! {

/// Whether `g` and `h` agree on which cells the puzzle gives, and on what
/// these cells hold.
pub open spec fn same_givens(g: Grid, h: Grid) -> bool {
    forall|x: int, y: int|
        in_board(x, y) && ((#[trigger] at(g, x, y)).is_static || (#[trigger] at(h, x, y)).is_static)
            ==> at(g, x, y) == at(h, x, y)
}

/// Whether every cell of `g` is either given by the puzzle or blank, as on
/// a board that was just loaded.
pub open spec fn is_fresh(g: Grid) -> bool {
    forall|x: int, y: int|
        in_board(x, y) ==> (#[trigger] at(g, x, y)).is_static || at(g, x, y) == blank()
}

/// A board read from text is valid, and each of its cells is given or
/// blank.
pub proof fn lemma_parsed_fresh(text: Seq<char>)
    ensures
        grid_wf(parsed(text)),
        is_fresh(parsed(text)),
{
    let g = parsed(text);
    assert(cell_wf(blank()));
    assert forall|x: int, y: int| in_board(x, y) implies cell_wf(#[trigger] at(g, x, y)) && (at(
        g,
        x,
        y,
    ).is_static || at(g, x, y) == blank()) by {
        assert(at(g, x, y) == parsed_cell(lines(text), x, y));
    }
}

/// Recomputing candidates changes no cell that the puzzle gives.
pub proof fn lemma_propagated_keeps_givens(g: Grid)
    requires
        grid_shape(g),
    ensures
        same_givens(g, propagated(g)),
{
    assert forall|x: int, y: int|
        in_board(x, y) && ((#[trigger] at(g, x, y)).is_static || (#[trigger] at(
            propagated(g),
            x,
            y,
        )).is_static) implies at(g, x, y) == at(propagated(g), x, y) by {
        assert(at(propagated(g), x, y) == recomputed(g, x, y));
    }
}

/// Clearing a board changes no cell that the puzzle gives.
pub proof fn lemma_cleared_keeps_givens(g: Grid)
    requires
        grid_shape(g),
    ensures
        same_givens(g, cleared(g)),
        is_fresh(cleared(g)),
{
}

/// Settling a cell that the puzzle did not give changes no cell that the
/// puzzle gives.
pub proof fn lemma_settled_keeps_givens(g: Grid, x: int, y: int, v: u32)
    requires
        grid_shape(g),
        in_board(x, y),
        !at(g, x, y).is_static,
    ensures
        same_givens(g, settled_on(g, x, y, v)),
{
    lemma_with_cell(g, x, y, CellView { value: Domain::Certain(v), is_static: false });
}

/// Clearing a board gives back the puzzle it was loaded from: whatever was
/// done to a board that `text` describes, as long as the given cells are
/// those of `text`, the cleared board is the board read from `text`, and
/// recomputing the candidates gives the same candidates on both.
pub proof fn lemma_reset_restores_load(g: Grid, text: Seq<char>)
    requires
        grid_shape(g),
        same_givens(g, parsed(text)),
    ensures
        cleared(g) == parsed(text),
        propagated(cleared(g)) == propagated(parsed(text)),
{
    let fresh = parsed(text);
    lemma_parsed_fresh(text);
    assert forall|y: int| 0 <= y < 9 implies #[trigger] cleared(g)[y] == fresh[y] by {
        assert forall|x: int| 0 <= x < 9 implies cleared(g)[y][x] == fresh[y][x] by {
            assert(at(fresh, x, y).is_static || at(fresh, x, y) == blank());
            if at(g, x, y).is_static {
                assert(at(g, x, y) == at(fresh, x, y));
            }
        }
        assert(cleared(g)[y] =~= fresh[y]);
    }
    assert(cleared(g) =~= fresh);
}

} // verus!
