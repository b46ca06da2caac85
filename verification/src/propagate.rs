//! Pruning of candidates: a cell that is not settled may take every digit
//! that no cell of its row, column or block is settled on.

use vstd::prelude::*;
use crate::cell::{candidates, settled_digit, CellValue, CellView, Domain};
use crate::grid::{
    at, cell_wf, cells_in_board, column_cells, grid_wf, in_board, lemma_with_cell, precedes,
    quadrant_cells, row_cells, share_group, with_cell, Grid,
};
use crate::sudoku::Sudoku;

verus! {

/// The digits 1 to 9 in increasing order.
pub open spec fn digits() -> Seq<u32> {
    Seq::new(9, |i: int| (i + 1) as u32)
}

/// Whether each element of `s` is smaller than the next.
pub open spec fn increasing(s: Seq<u32>) -> bool {
    forall|i: int, j: int| 0 <= i < j < s.len() ==> s[i] < s[j]
}

/// Whether some cell in the row, the column or the block of `(x, y)` is
/// settled on `v`.
pub open spec fn excluded(g: Grid, x: int, y: int, v: u32) -> bool {
    exists|px: int, py: int|
        in_board(px, py) && share_group(x, y, px, py) && (#[trigger] at(g, px, py)).value
            == Domain::Certain(v)
}

/// The candidates of `(x, y)`: the digits 1 to 9, in increasing order, that
/// no cell of its row, column or block is settled on.
pub open spec fn pruned(g: Grid, x: int, y: int) -> Seq<u32> {
    digits().filter(|v: u32| !excluded(g, x, y, v))
}

/// The cell `(x, y)` after its candidates were recomputed: unchanged if the
/// puzzle gave it or it is settled, else holding the pruned candidates.
pub open spec fn recomputed(g: Grid, x: int, y: int) -> CellView {
    let c = at(g, x, y);
    if c.is_static || c.value is Certain {
        c
    } else {
        CellView { value: Domain::Uncertain(pruned(g, x, y)), is_static: c.is_static }
    }
}

/// The board after the candidates of every cell were recomputed.
pub open spec fn propagated(g: Grid) -> Grid {
    Seq::new(9, |y: int| Seq::new(9, |x: int| recomputed(g, x, y)))
}

/// Whether some cell of `cells` is settled on `v`.
pub open spec fn settled_in(g: Grid, cells: Seq<(usize, usize)>, v: u32) -> bool {
    exists|k: int|
        0 <= k < cells.len() && at(g, (#[trigger] cells[k]).0 as int, cells[k].1 as int).value
            == Domain::Certain(v)
}

/// Filtering keeps a sequence increasing.
proof fn lemma_filter_increasing(s: Seq<u32>, keep: spec_fn(u32) -> bool)
    requires
        increasing(s),
    ensures
        increasing(s.filter(keep)),
    decreases s.len(),
{
    reveal(Seq::filter);
    if s.len() > 0 {
        let front = s.drop_last();
        lemma_filter_increasing(front, keep);
        if keep(s.last()) {
            let kept = front.filter(keep);
            assert forall|i: int, j: int| 0 <= i < j < kept.push(s.last()).len() implies kept.push(
                s.last(),
            )[i] < kept.push(s.last())[j] by {
                if j == kept.len() {
                    front.lemma_filter_contains_rev(keep, kept[i]);
                    let m = choose|m: int| 0 <= m < front.len() && front[m] == kept[i];
                    assert(s[m] < s[s.len() - 1]);
                }
            }
        }
    }
}

/// Two increasing sequences with the same elements are the same sequence.
proof fn lemma_increasing_unique(a: Seq<u32>, b: Seq<u32>)
    requires
        increasing(a),
        increasing(b),
        forall|v: u32| a.contains(v) <==> b.contains(v),
    ensures
        a == b,
    decreases a.len(),
{
    if a.len() == 0 {
        if b.len() > 0 {
            assert(b.contains(b[0]));
        }
        assert(a =~= b);
    } else {
        assert(a.contains(a.last()));
        let m = choose|m: int| 0 <= m < b.len() && b[m] == a.last();
        assert(b.contains(b.last()));
        let n = choose|n: int| 0 <= n < a.len() && a[n] == b.last();
        assert(a.last() == b.last());
        let a0 = a.drop_last();
        let b0 = b.drop_last();
        assert forall|v: u32| a0.contains(v) <==> b0.contains(v) by {
            if a0.contains(v) {
                let i = choose|i: int| 0 <= i < a0.len() && a0[i] == v;
                assert(a[i] == v);
                assert(a.contains(v));
                let j = choose|j: int| 0 <= j < b.len() && b[j] == v;
                assert(j < b.len() - 1);
                assert(b0[j] == v);
            }
            if b0.contains(v) {
                let i = choose|i: int| 0 <= i < b0.len() && b0[i] == v;
                assert(b[i] == v);
                assert(b.contains(v));
                let j = choose|j: int| 0 <= j < a.len() && a[j] == v;
                assert(j < a.len() - 1);
                assert(a0[j] == v);
            }
        }
        lemma_increasing_unique(a0, b0);
        assert(a =~= a0.push(a.last()));
        assert(b =~= b0.push(b.last()));
    }
}

/// Removing an element keeps a sequence increasing, and takes away that
/// element and no other.
proof fn lemma_remove_increasing(s: Seq<u32>, index: int)
    requires
        increasing(s),
        0 <= index < s.len(),
    ensures
        increasing(s.remove(index)),
        forall|v: u32| s.remove(index).contains(v) <==> s.contains(v) && v != s[index],
{
    let r = s.remove(index);
    assert forall|i: int, j: int| 0 <= i < j < r.len() implies r[i] < r[j] by {
        let oi = if i < index { i } else { i + 1 };
        let oj = if j < index { j } else { j + 1 };
        assert(s[oi] < s[oj]);
    }
    assert forall|v: u32| r.contains(v) <==> s.contains(v) && v != s[index] by {
        if r.contains(v) {
            let i = choose|i: int| 0 <= i < r.len() && r[i] == v;
            let oi = if i < index { i } else { i + 1 };
            assert(s[oi] == v);
            if oi < index {
                assert(s[oi] < s[index]);
            } else {
                assert(s[index] < s[oi]);
            }
        }
        if s.contains(v) && v != s[index] {
            let j = choose|j: int| 0 <= j < s.len() && s[j] == v;
            let ni = if j < index { j } else { j - 1 };
            assert(r[ni] == v);
        }
    }
}

/// The pruned candidates are increasing digits, and a digit is among them
/// exactly if it is not excluded.
pub proof fn lemma_pruned(g: Grid, x: int, y: int)
    ensures
        increasing(pruned(g, x, y)),
        forall|v: u32| pruned(g, x, y).contains(v) <==> 1 <= v <= 9 && !excluded(g, x, y, v),
{
    let keep = |v: u32| !excluded(g, x, y, v);
    broadcast use vstd::seq_lib::group_filter_ensures;

    lemma_filter_increasing(digits(), keep);
    assert forall|v: u32| pruned(g, x, y).contains(v) <==> 1 <= v <= 9 && !excluded(
        g,
        x,
        y,
        v,
    ) by {
        if pruned(g, x, y).contains(v) {
            digits().lemma_filter_contains_rev(keep, v);
            let i = choose|i: int| 0 <= i < pruned(g, x, y).len() && pruned(g, x, y)[i] == v;
            assert(keep(pruned(g, x, y)[i]));
        }
        if 1 <= v <= 9 && !excluded(g, x, y, v) {
            assert(digits()[v - 1] == v);
            assert(keep(digits()[v - 1]));
        }
    }
}

/// A sequence that is increasing and holds exactly the digits that are not
/// excluded is the sequence of pruned candidates.
proof fn lemma_pruned_unique(g: Grid, x: int, y: int, s: Seq<u32>)
    requires
        increasing(s),
        forall|v: u32| s.contains(v) <==> 1 <= v <= 9 && !excluded(g, x, y, v),
    ensures
        s == pruned(g, x, y),
{
    lemma_pruned(g, x, y);
    lemma_increasing_unique(s, pruned(g, x, y));
}

/// The pruned candidates depend only on which cells are settled, and on
/// what.
proof fn lemma_pruned_same_settled(g: Grid, h: Grid, x: int, y: int)
    requires
        forall|px: int, py: int|
            in_board(px, py) && ((#[trigger] at(g, px, py)).value is Certain || (#[trigger] at(
                h,
                px,
                py,
            )).value is Certain) ==> at(g, px, py).value == at(h, px, py).value,
    ensures
        pruned(g, x, y) == pruned(h, x, y),
{
    assert forall|v: u32| excluded(g, x, y, v) == excluded(h, x, y, v) by {
        if excluded(g, x, y, v) {
            let (px, py) = choose|px: int, py: int|
                in_board(px, py) && share_group(x, y, px, py) && (#[trigger] at(g, px, py)).value
                    == Domain::Certain(v);
            assert(at(h, px, py).value == Domain::Certain(v));
        }
        if excluded(h, x, y, v) {
            let (px, py) = choose|px: int, py: int|
                in_board(px, py) && share_group(x, y, px, py) && (#[trigger] at(h, px, py)).value
                    == Domain::Certain(v);
            assert(at(g, px, py).value == Domain::Certain(v));
        }
    }
    let keep_g = |v: u32| !excluded(g, x, y, v);
    let keep_h = |v: u32| !excluded(h, x, y, v);
    assert(keep_g =~= keep_h);
}

/// Recomputing the candidates of every cell leaves no digit among the
/// candidates of a cell that a cell of its row, column or block is settled
/// on.
pub proof fn lemma_propagated_excludes_settled(g: Grid, x: int, y: int, px: int, py: int)
    requires
        grid_wf(g),
        in_board(x, y),
        in_board(px, py),
        share_group(x, y, px, py),
        at(propagated(g), x, y).value is Certain,
    ensures
        !candidates(at(propagated(g), px, py)).contains(settled_digit(at(propagated(g), x, y))),
{
    let v = settled_digit(at(propagated(g), x, y));
    assert(at(g, x, y).value == Domain::Certain(v));
    assert(cell_wf(at(g, px, py)));
    if at(g, px, py).value is Uncertain {
        assert(share_group(px, py, x, y));
        assert(excluded(g, px, py, v));
        lemma_pruned(g, px, py);
    }
}

/// Recomputing the candidates of every cell changes no settled cell, and
/// settles none.
pub proof fn lemma_propagated_keeps_settled(g: Grid, x: int, y: int)
    requires
        in_board(x, y),
    ensures
        at(g, x, y).value is Certain ==> at(propagated(g), x, y) == at(g, x, y),
        at(g, x, y).value is Uncertain ==> at(propagated(g), x, y).value is Uncertain,
{
}

/// Recomputing the candidates of every cell keeps a valid board valid.
pub proof fn lemma_propagated_wf(g: Grid)
    requires
        grid_wf(g),
    ensures
        grid_wf(propagated(g)),
{
    assert forall|x: int, y: int| in_board(x, y) implies cell_wf(
        #[trigger] at(propagated(g), x, y),
    ) by {
        assert(cell_wf(at(g, x, y)));
        lemma_pruned(g, x, y);
        let s = pruned(g, x, y);
        assert forall|i: int| 0 <= i < s.len() implies 1 <= #[trigger] s[i] <= 9 by {
            assert(s.contains(s[i]));
        }
    }
}

/// The cells that share a group with `(x, y)` are those of its block, its
/// row and its column.
proof fn lemma_groups_cover(g: Grid, x: usize, y: usize, v: u32)
    requires
        x < 9,
        y < 9,
    ensures
        excluded(g, x as int, y as int, v) <==> settled_in(g, quadrant_cells(x / 3, y / 3), v)
            || settled_in(g, row_cells(y), v) || settled_in(g, column_cells(x), v),
{
    let quadrant = quadrant_cells(x / 3, y / 3);
    let row = row_cells(y);
    let column = column_cells(x);
    if excluded(g, x as int, y as int, v) {
        let (px, py) = choose|px: int, py: int|
            in_board(px, py) && share_group(x as int, y as int, px, py) && (#[trigger] at(
                g,
                px,
                py,
            )).value == Domain::Certain(v);
        if px == x {
            assert(column[py] == (x, py as usize));
        } else if py == y {
            assert(row[px] == (px as usize, y));
        } else {
            let k = (py - 3 * (y / 3)) * 3 + (px - 3 * (x / 3));
            assert(quadrant[k] == (px as usize, py as usize));
        }
    }
    if settled_in(g, quadrant, v) {
        let k = choose|k: int|
            0 <= k < quadrant.len() && at(
                g,
                (#[trigger] quadrant[k]).0 as int,
                quadrant[k].1 as int,
            ).value == Domain::Certain(v);
        assert(in_board(quadrant[k].0 as int, quadrant[k].1 as int));
        assert(share_group(x as int, y as int, quadrant[k].0 as int, quadrant[k].1 as int));
    }
    if settled_in(g, row, v) {
        let k = choose|k: int|
            0 <= k < row.len() && at(g, (#[trigger] row[k]).0 as int, row[k].1 as int).value
                == Domain::Certain(v);
        assert(in_board(row[k].0 as int, row[k].1 as int));
        assert(share_group(x as int, y as int, row[k].0 as int, row[k].1 as int));
    }
    if settled_in(g, column, v) {
        let k = choose|k: int|
            0 <= k < column.len() && at(
                g,
                (#[trigger] column[k]).0 as int,
                column[k].1 as int,
            ).value == Domain::Certain(v);
        assert(in_board(column[k].0 as int, column[k].1 as int));
        assert(share_group(x as int, y as int, column[k].0 as int, column[k].1 as int));
    }
}

/// The digits 1 to 9 as a vector.
fn all_digits_vec() -> (res: Vec<u32>)
    ensures
        res@ == digits(),
{
    let mut res: Vec<u32> = Vec::new();
    let mut d: u32 = 1;
    while d <= 9
        invariant
            1 <= d <= 10,
            res@.len() == d - 1,
            forall|i: int| 0 <= i < res@.len() ==> #[trigger] res@[i] == i + 1,
        decreases 10 - d,
    {
        res.push(d);
        d += 1;
    }
    assert(res@ =~= digits());
    res
}

/// The position of the first occurrence of `needle` in `values`, if any.
fn position(values: &Vec<u32>, needle: u32) -> (res: Option<usize>)
    ensures
        match res {
            Some(i) => i < values@.len() && values@[i as int] == needle && forall|j: int|
                0 <= j < i ==> values@[j] != needle,
            None => !values@.contains(needle),
        },
{
    let mut i: usize = 0;
    while i < values.len()
        invariant
            i <= values@.len(),
            forall|j: int| 0 <= j < i ==> values@[j] != needle,
        decreases values@.len() - i,
    {
        if values[i] == needle {
            return Some(i);
        }
        i += 1;
    }
    None
}

impl Sudoku {
    /// Removes from `possible` every digit that a cell of `cells` is settled
    /// on.
    fn strike(&self, cells: &Vec<(usize, usize)>, possible: &mut Vec<u32>)
        requires
            self.wf(),
            cells_in_board(cells@),
            increasing(old(possible)@),
        ensures
            increasing(final(possible)@),
            forall|v: u32|
                final(possible)@.contains(v) <==> old(possible)@.contains(v) && !settled_in(
                    self@,
                    cells@,
                    v,
                ),
    {
        let mut k: usize = 0;
        while k < cells.len()
            invariant
                self.wf(),
                cells_in_board(cells@),
                k <= cells@.len(),
                increasing(possible@),
                forall|v: u32|
                    possible@.contains(v) <==> old(possible)@.contains(v) && !settled_in(
                        self@,
                        cells@.take(k as int),
                        v,
                    ),
            decreases cells@.len() - k,
        {
            let (cx, cy) = cells[k];
            assert(in_board(cells@[k as int].0 as int, cells@[k as int].1 as int));
            let ghost before = possible@;
            let ghost done = cells@.take(k as int);
            let ghost next = cells@.take(k + 1);
            match self.get_cell(cx, cy).value() {
                CellValue::Certain(num) => {
                    if let Some(index) = position(possible, *num) {
                        possible.remove(index);
                        proof {
                            lemma_remove_increasing(before, index as int);
                        }
                    }
                    assert(forall|v: u32| possible@.contains(v) <==> before.contains(v) && v != *num);
                },
                CellValue::Uncertain(_) => {},
            }
            assert(forall|v: u32|
                possible@.contains(v) <==> before.contains(v) && at(
                    self@,
                    cx as int,
                    cy as int,
                ).value != Domain::Certain(v));
            proof {
                assert forall|v: u32|
                    settled_in(self@, next, v) <==> settled_in(self@, done, v) || at(
                        self@,
                        cx as int,
                        cy as int,
                    ).value == Domain::Certain(v) by {
                    if settled_in(self@, next, v) {
                        let j = choose|j: int|
                            0 <= j < next.len() && at(
                                self@,
                                (#[trigger] next[j]).0 as int,
                                next[j].1 as int,
                            ).value == Domain::Certain(v);
                        if j < k {
                            assert(done[j] == next[j]);
                        }
                    }
                    if settled_in(self@, done, v) {
                        let j = choose|j: int|
                            0 <= j < done.len() && at(
                                self@,
                                (#[trigger] done[j]).0 as int,
                                done[j].1 as int,
                            ).value == Domain::Certain(v);
                        assert(next[j] == done[j]);
                    }
                    if at(self@, cx as int, cy as int).value == Domain::Certain(v) {
                        assert(next[k as int] == cells@[k as int]);
                    }
                }
            }
            assert(forall|v: u32|
                possible@.contains(v) <==> old(possible)@.contains(v) && !settled_in(
                    self@,
                    next,
                    v,
                ));
            k += 1;
        }
        assert(cells@.take(k as int) == cells@);
    }

    /// Recomputes the candidates of the cell `(x, y)`.
    ///
    /// Nothing happens if the puzzle gave the cell or the cell is settled.
    /// Otherwise its candidates become the digits 1 to 9, in increasing
    /// order, without those that a cell of its row, column or block is
    /// settled on.
    pub fn update_possible_cell_values(&mut self, x: usize, y: usize)
        requires
            old(self).wf(),
            x < 9,
            y < 9,
        ensures
            final(self).wf(),
            final(self)@ == with_cell(
                old(self)@,
                x as int,
                y as int,
                recomputed(old(self)@, x as int, y as int),
            ),
    {
        let ghost g = self@;
        let cell = self.get_cell(x, y);
        if cell.is_static() || cell.value().is_certain() {
            proof {
                lemma_with_cell(g, x as int, y as int, at(g, x as int, y as int));
                assert(g =~~= with_cell(g, x as int, y as int, at(g, x as int, y as int)));
            }
            return ;
        }
        let mut possible_values = all_digits_vec();
        let quadrant = Sudoku::quadrant_coords(x / Self::QUADRANT_DIM, y / Self::QUADRANT_DIM);
        let row = Sudoku::row_coords(y);
        let column = Sudoku::column_coords(x);

        self.strike(&quadrant, &mut possible_values);
        self.strike(&row, &mut possible_values);
        self.strike(&column, &mut possible_values);

        proof {
            assert forall|v: u32|
                possible_values@.contains(v) <==> 1 <= v <= 9 && !excluded(
                    g,
                    x as int,
                    y as int,
                    v,
                ) by {
                lemma_groups_cover(g, x, y, v);
                if 1 <= v <= 9 {
                    assert(digits()[v - 1] == v);
                }
                if digits().contains(v) {
                    let i = choose|i: int| 0 <= i < digits().len() && digits()[i] == v;
                }
            }
            lemma_pruned_unique(g, x as int, y as int, possible_values@);
            lemma_pruned(g, x as int, y as int);
            assert(possible_values@.no_duplicates());
        }
        self.set_value(x, y, CellValue::Uncertain(possible_values));
    }

    /// Recomputes the candidates of every cell, row by row.
    ///
    /// Pruning looks at settled cells only, and a pass settles none, so each
    /// open cell ends with the candidates that the board had for it when the
    /// pass began.
    pub fn update_possible_values(&mut self)
        requires
            old(self).wf(),
        ensures
            final(self).wf(),
            final(self)@ == propagated(old(self)@),
    {
        let ghost start = self@;
        for y in 0..Self::BOARD_DIM
            invariant
                self.wf(),
                grid_wf(start),
                forall|px: int, py: int|
                    in_board(px, py) ==> #[trigger] at(self@, px, py) == if py < y {
                        recomputed(start, px, py)
                    } else {
                        at(start, px, py)
                    },
        {
            for x in 0..Self::BOARD_DIM
                invariant
                    y < 9,
                    self.wf(),
                    grid_wf(start),
                    forall|px: int, py: int|
                        in_board(px, py) ==> #[trigger] at(self@, px, py) == if precedes(
                            px,
                            py,
                            x as int,
                            y as int,
                        ) {
                            recomputed(start, px, py)
                        } else {
                            at(start, px, py)
                        },
            {
                let ghost before = self@;
                proof {
                    lemma_pruned_same_settled(before, start, x as int, y as int);
                    lemma_with_cell(
                        before,
                        x as int,
                        y as int,
                        recomputed(before, x as int, y as int),
                    );
                }
                self.update_possible_cell_values(x, y);
            }
        }
        proof {
            assert forall|py: int| 0 <= py < 9 implies #[trigger] self@[py] == propagated(
                start,
            )[py] by {
                assert forall|px: int| 0 <= px < 9 implies self@[py][px] == propagated(
                    start,
                )[py][px] by {
                    assert(at(self@, px, py) == recomputed(start, px, py));
                }
                assert(self@[py] =~= propagated(start)[py]);
            }
            assert(self@ =~= propagated(start));
        }
    }
}

} // verus!
