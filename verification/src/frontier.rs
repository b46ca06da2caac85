//! The search frontier: the boards that are still to be explored, the
//! active one first.
//!
//! A step settles one cell of the active board and queues the siblings
//! right behind it, so that they are explored before older branches. A board
//! that turns out to be a dead end is dropped, and the next one becomes
//! active. A frontier without boards is exhausted: the puzzle has no
//! solution among the branches that were explored.

use vstd::prelude::*;
use crate::cell::candidates;
use crate::collapse::{
    is_collapse, lemma_collapse_partitions, lemma_collapse_reversed, CollapseError,
};
use crate::complete::is_complete;
use crate::entropy::{has_open_cell, least_entropy_cell};
use crate::grid::{at, Grid};
use crate::propagate::propagated;
use crate::reset::cleared;
use crate::sudoku::{grids, Sudoku};

verus! {

/// The boards still to be explored. The first is the active board.
#[derive(Debug)]
pub struct SearchFrontier {
    boards: Vec<Sudoku>,
}

/// What a step did.
#[derive(Debug, Clone, Copy, PartialEq, Eq, Structural)]
pub enum StepOutcome {
    /// The active board passes the completion check. Nothing was changed.
    Solved,
    /// A cell of the active board was settled, and the siblings were queued
    /// behind it.
    Advanced,
    /// The active board could not be collapsed and was dropped.
    Abandoned(CollapseError),
    /// No board is left to explore. Nothing was changed.
    Unsolvable,
}

impl View for SearchFrontier {
    type V = Seq<Grid>;

    closed spec fn view(&self) -> Seq<Grid> {
        grids(self.boards@)
    }
}

/// The frontier after a collapse of its active board gave `siblings`: the
/// active board, then the siblings, the last of them first, then the boards
/// that were waiting before.
pub open spec fn queued(frontier: Seq<Grid>, siblings: Seq<Grid>) -> Seq<Grid> {
    seq![frontier[0]] + siblings.reverse() + frontier.skip(1)
}

impl SearchFrontier {
    /// Whether every board of the frontier is valid.
    pub closed spec fn wf(&self) -> bool {
        forall|i: int| 0 <= i < self.boards@.len() ==> (#[trigger] self.boards@[i]).wf()
    }

    /// A frontier with `initial` as its only board.
    pub fn new(initial: Sudoku) -> (res: Self)
        requires
            initial.wf(),
        ensures
            res.wf(),
            res@ == seq![initial@],
    {
        let mut boards: Vec<Sudoku> = Vec::new();
        boards.push(initial);
        let res = SearchFrontier { boards };
        assert(res@ =~= seq![initial@]);
        res
    }

    /// The number of boards.
    pub fn len(&self) -> (res: usize)
        ensures
            res == self@.len(),
    {
        self.boards.len()
    }

    /// Whether no board is left.
    pub fn is_exhausted(&self) -> (res: bool)
        ensures
            res == (self@.len() == 0),
    {
        self.boards.len() == 0
    }

    /// The active board, if any is left.
    pub fn active_board(&self) -> (res: Option<&Sudoku>)
        requires
            self.wf(),
        ensures
            match res {
                Some(board) => self@.len() > 0 && board@ == self@[0] && board.wf(),
                None => self@.len() == 0,
            },
    {
        if self.boards.len() == 0 {
            None
        } else {
            Some(&self.boards[0])
        }
    }

    /// Discards every board but the active one, and clears that one back to
    /// what the puzzle gave. An exhausted frontier stays exhausted.
    pub fn reset(&mut self)
        requires
            old(self).wf(),
        ensures
            final(self).wf(),
            final(self)@ == if old(self)@.len() == 0 {
                old(self)@
            } else {
                seq![cleared(old(self)@[0])]
            },
    {
        if self.boards.len() > 0 {
            self.boards[0].reset_board();
            self.boards.truncate(1);
            assert(self@ =~= seq![cleared(old(self)@[0])]);
        }
    }

    /// Takes in what a collapse of the active board gave: queues the
    /// siblings behind the active board, or drops the active board if the
    /// collapse failed.
    pub fn absorb(&mut self, collapsed: Result<Vec<Sudoku>, CollapseError>) -> (outcome:
        StepOutcome)
        requires
            old(self).wf(),
            old(self)@.len() > 0,
            collapsed matches Ok(siblings) ==> forall|i: int|
                0 <= i < siblings@.len() ==> (#[trigger] siblings@[i]).wf(),
        ensures
            final(self).wf(),
            match collapsed {
                Ok(siblings) => outcome == StepOutcome::Advanced && final(self)@ == queued(
                    old(self)@,
                    grids(siblings@),
                ),
                Err(e) => outcome == StepOutcome::Abandoned(e) && final(self)@ == old(self)@.skip(1),
            },
    {
        match collapsed {
            Ok(other_possibilities) => {
                let ghost siblings = other_possibilities@;
                let ghost waiting = self.boards@;
                for board in it: other_possibilities
                    invariant
                        it.seq() == siblings,
                        waiting.len() > 0,
                        self.boards@ == seq![waiting[0]] + siblings.take(it.index() as int).reverse()
                            + waiting.skip(1),
                {
                    self.boards.insert(1, board);
                    proof {
                        let done = siblings.take(it.index() as int);
                        let next = siblings.take(it.index() + 1);
                        assert(next =~= done.push(board));
                        assert(next.reverse() =~= seq![board] + done.reverse());
                        assert(self.boards@ =~= seq![waiting[0]] + next.reverse() + waiting.skip(
                            1,
                        ));
                    }
                }
                proof {
                    assert(siblings.take(siblings.len() as int) =~= siblings);
                    assert forall|i: int| 0 <= i < self.boards@.len() implies (
                    #[trigger] self.boards@[i]).wf() by {
                        if i == 0 {
                            assert(self.boards@[i] == waiting[0]);
                        } else if i <= siblings.len() {
                            assert(self.boards@[i] == siblings[siblings.len() - i]);
                        } else {
                            assert(self.boards@[i] == waiting[i - siblings.len()]);
                        }
                    }
                    assert(self@ =~= queued(old(self)@, grids(siblings)));
                }
                StepOutcome::Advanced
            },
            Err(e) => {
                self.boards.remove(0);
                assert(self@ =~= old(self)@.skip(1));
                StepOutcome::Abandoned(e)
            },
        }
    }

    /// Advances the search by one step.
    ///
    /// An exhausted frontier and a frontier whose active board passes the
    /// completion check are left as they are. Otherwise the candidates of
    /// the active board are recomputed and its open cell with the fewest
    /// candidates is collapsed. If that cell has a candidate, the siblings
    /// are queued behind the active board. If it has none, or if the board
    /// has no open cell at all, the board is a dead end and is dropped.
    pub fn step(&mut self) -> (outcome: StepOutcome)
        requires
            old(self).wf(),
        ensures
            final(self).wf(),
            match outcome {
                StepOutcome::Unsolvable => old(self)@.len() == 0 && final(self)@ == old(self)@,
                StepOutcome::Solved => {
                    &&& old(self)@.len() > 0
                    &&& is_complete(old(self)@[0])
                    &&& final(self)@ == old(self)@
                },
                StepOutcome::Advanced => {
                    let pruned = propagated(old(self)@[0]);
                    let (x, y) = least_entropy_cell(pruned);
                    let k = candidates(at(pruned, x, y)).len();
                    &&& old(self)@.len() > 0
                    &&& !is_complete(old(self)@[0])
                    &&& has_open_cell(pruned)
                    &&& k > 0
                    &&& final(self)@.len() == old(self)@.len() + k - 1
                    &&& is_collapse(pruned, x, y, final(self)@[0], final(self)@.subrange(1, k as int))
                    &&& final(self)@.skip(k as int) == old(self)@.skip(1)
                },
                StepOutcome::Abandoned(reason) => {
                    let pruned = propagated(old(self)@[0]);
                    let (x, y) = least_entropy_cell(pruned);
                    &&& old(self)@.len() > 0
                    &&& !is_complete(old(self)@[0])
                    &&& final(self)@ == old(self)@.skip(1)
                    &&& match reason {
                        CollapseError::EmptyDomain => has_open_cell(pruned) && candidates(
                            at(pruned, x, y),
                        ).len() == 0,
                        CollapseError::AlreadyFixed => !has_open_cell(pruned),
                    }
                },
            },
    {
        if self.boards.len() == 0 {
            return StepOutcome::Unsolvable;
        }
        if self.boards[0].complete() {
            return StepOutcome::Solved;
        }
        self.boards[0].update_possible_values();
        let (x, y) = self.boards[0].find_less_entropy();
        let ghost pruned = self.boards@[0]@;
        let collapsed = self.boards[0].collapse_cell(x, y);
        let ghost primary = self.boards@[0]@;
        let ghost waiting = self@;
        let ghost result = collapsed;
        assert(waiting =~= old(self)@.update(0, primary));
        let outcome = self.absorb(collapsed);
        proof {
            match result {
                Ok(other_possibilities) => {
                    let siblings = grids(other_possibilities@);
                    let k = candidates(at(pruned, x as int, y as int)).len();
                    lemma_collapse_partitions(pruned, x as int, y as int, primary, siblings);
                    lemma_collapse_reversed(pruned, x as int, y as int, primary, siblings);
                    assert(self@.subrange(1, k as int) =~= siblings.reverse());
                    assert(self@.skip(k as int) =~= old(self)@.skip(1));
                },
                Err(e) => {
                    assert(self@ =~= old(self)@.skip(1));
                },
            }
        }
        outcome
    }
}

} // verus!
