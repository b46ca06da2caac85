//! Collapse: settling an open cell on one of its candidates, and keeping one
//! sibling board for each candidate that was not taken.

use vstd::prelude::*;
use vstd::multiset::Multiset;
use vstd::seq_lib::{
    lemma_multiset_commutative, to_multiset_build, to_multiset_contains, to_multiset_len,
    to_multiset_remove,
};
use crate::cell::{candidates, settled_digit, CellValue, CellView, Domain};
use crate::grid::{at, cell_wf, grid_wf, in_board, lemma_with_cell, with_value, Grid};
use crate::random::{random_index, shuffle};
use crate::sudoku::{grids, Sudoku};

verus! {

/// Why a cell could not be collapsed.
#[derive(Debug, Clone, Copy, PartialEq, Eq, Structural)]
pub enum CollapseError {
    /// The cell is open and has no candidate left: the board is a dead end.
    EmptyDomain,
    /// The cell is settled already.
    AlreadyFixed,
}

impl CollapseError {
    /// The error in words.
    pub fn message(&self) -> (res: &'static str)
        ensures
            res@ == match self {
                CollapseError::EmptyDomain => "Cannot collapse cell with no numbers"@,
                CollapseError::AlreadyFixed => "Trying to collapse cell with `Certain` value"@,
            },
    {
        match self {
            CollapseError::EmptyDomain => "Cannot collapse cell with no numbers",
            CollapseError::AlreadyFixed => "Trying to collapse cell with `Certain` value",
        }
    }
}

/// The board `g` with the cell `(x, y)` settled on `v`.
pub open spec fn settled_on(g: Grid, x: int, y: int, v: u32) -> Grid {
    with_value(g, x, y, Domain::Certain(v))
}

/// The digits that the boards of a collapse hold in the cell `(x, y)`: that
/// of the primary board first, then those of the siblings in their order.
pub open spec fn taken(primary: Grid, siblings: Seq<Grid>, x: int, y: int) -> Seq<u32> {
    Seq::new(
        siblings.len() + 1,
        |i: int|
            if i == 0 {
                settled_digit(at(primary, x, y))
            } else {
                settled_digit(at(siblings[i - 1], x, y))
            },
    )
}

/// Whether `primary` and `siblings` can come out of a collapse of the cell
/// `(x, y)` of `g`: each of them is `g` with that cell settled, and the
/// digits they settle it on are the candidates of the cell, each taken as
/// often as it is listed, in any order.
pub open spec fn is_collapse(g: Grid, x: int, y: int, primary: Grid, siblings: Seq<Grid>) -> bool {
    &&& primary == settled_on(g, x, y, settled_digit(at(primary, x, y)))
    &&& forall|i: int|
        0 <= i < siblings.len() ==> #[trigger] siblings[i] == settled_on(
            g,
            x,
            y,
            settled_digit(at(siblings[i], x, y)),
        )
    &&& taken(primary, siblings, x, y).to_multiset() == candidates(at(g, x, y)).to_multiset()
}

/// Settling a cell twice is settling it on the second digit.
proof fn lemma_settled_twice(g: Grid, x: int, y: int, v: u32, w: u32)
    requires
        grid_wf(g),
        in_board(x, y),
    ensures
        settled_on(settled_on(g, x, y, v), x, y, w) == settled_on(g, x, y, w),
        at(settled_on(g, x, y, v), x, y).value == Domain::Certain(v),
{
    let c = CellView { value: Domain::Certain(v), is_static: at(g, x, y).is_static };
    lemma_with_cell(g, x, y, c);
    assert(settled_on(settled_on(g, x, y, v), x, y, w) =~~= settled_on(g, x, y, w));
}

/// What a collapse of a cell with `k` candidates gives: `k - 1` siblings;
/// each candidate taken by exactly one board, and nothing else taken; and
/// each sibling different from the primary board in the collapsed cell and
/// equal to it in every other cell.
pub proof fn lemma_collapse_partitions(
    g: Grid,
    x: int,
    y: int,
    primary: Grid,
    siblings: Seq<Grid>,
)
    requires
        grid_wf(g),
        in_board(x, y),
        at(g, x, y).value is Uncertain,
        is_collapse(g, x, y, primary, siblings),
    ensures
        siblings.len() + 1 == candidates(at(g, x, y)).len(),
        taken(primary, siblings, x, y).no_duplicates(),
        forall|v: u32|
            taken(primary, siblings, x, y).contains(v) <==> candidates(at(g, x, y)).contains(v),
        forall|i: int|
            0 <= i < siblings.len() ==> #[trigger] siblings[i] == settled_on(
                primary,
                x,
                y,
                taken(primary, siblings, x, y)[i + 1],
            ),
        forall|i: int, px: int, py: int|
            0 <= i < siblings.len() && in_board(px, py) ==> (#[trigger] at(siblings[i], px, py)
                != at(primary, px, py) <==> px == x && py == y),
{
    let digits = taken(primary, siblings, x, y);
    let c = candidates(at(g, x, y));
    to_multiset_len(digits);
    to_multiset_len(c);
    c.lemma_multiset_has_no_duplicates();
    digits.lemma_multiset_has_no_duplicates_conv();
    assert forall|v: u32| digits.contains(v) <==> c.contains(v) by {
        to_multiset_contains(digits, v);
        to_multiset_contains(c, v);
    }
    assert forall|i: int| 0 <= i < siblings.len() implies #[trigger] siblings[i] == settled_on(
        primary,
        x,
        y,
        digits[i + 1],
    ) by {
        lemma_settled_twice(g, x, y, digits[0], digits[i + 1]);
    }
    assert forall|i: int, px: int, py: int|
        0 <= i < siblings.len() && in_board(px, py) implies (#[trigger] at(siblings[i], px, py)
            != at(primary, px, py) <==> px == x && py == y) by {
        lemma_settled_twice(g, x, y, digits[0], digits[0]);
        lemma_settled_twice(g, x, y, digits[i + 1], digits[i + 1]);
        lemma_with_cell(
            g,
            x,
            y,
            CellView { value: Domain::Certain(digits[0]), is_static: at(g, x, y).is_static },
        );
        lemma_with_cell(
            g,
            x,
            y,
            CellView { value: Domain::Certain(digits[i + 1]), is_static: at(g, x, y).is_static },
        );
        assert(digits[i + 1] != digits[0]);
    }
}

/// The order of the siblings is of no account: the siblings of a collapse
/// in reverse order are the siblings of a collapse too.
pub proof fn lemma_collapse_reversed(g: Grid, x: int, y: int, primary: Grid, siblings: Seq<Grid>)
    requires
        is_collapse(g, x, y, primary, siblings),
    ensures
        is_collapse(g, x, y, primary, siblings.reverse()),
{
    broadcast use vstd::multiset::group_multiset_axioms;

    let first = seq![settled_digit(at(primary, x, y))];
    let rest = Seq::new(siblings.len(), |i: int| settled_digit(at(siblings[i], x, y)));
    assert(taken(primary, siblings, x, y) =~= first + rest);
    assert(taken(primary, siblings.reverse(), x, y) =~= first + rest.reverse());
    lemma_multiset_commutative(first, rest);
    lemma_multiset_commutative(first, rest.reverse());
    rest.lemma_reverse_to_multiset();
}

impl Sudoku {
    /// Settles the cell `(x, y)` on `chosen`, and returns for each digit of
    /// `others` a copy of the board as it was with that cell settled on the
    /// digit, in the order of `others`.
    ///
    /// The cell has to be one that the puzzle did not give. Whether it is
    /// open, and whether the digits are among its candidates, is not asked.
    pub fn branch(&mut self, x: usize, y: usize, chosen: u32, others: &Vec<u32>) -> (siblings: Vec<
        Sudoku,
    >)
        requires
            old(self).wf(),
            x < 9,
            y < 9,
            !at(old(self)@, x as int, y as int).is_static,
            chosen <= 9,
            forall|i: int| 0 <= i < others@.len() ==> others@[i] <= 9,
        ensures
            final(self).wf(),
            final(self)@ == settled_on(old(self)@, x as int, y as int, chosen),
            siblings@.len() == others@.len(),
            forall|i: int|
                0 <= i < siblings@.len() ==> (#[trigger] siblings@[i]).wf() && siblings@[i]@
                    == settled_on(old(self)@, x as int, y as int, others@[i]),
    {
        let ghost start = self@;
        self.set_value(x, y, CellValue::Certain(chosen));

        let mut siblings: Vec<Sudoku> = Vec::new();
        for i in 0..others.len()
            invariant
                x < 9,
                y < 9,
                grid_wf(start),
                self.wf(),
                self@ == settled_on(start, x as int, y as int, chosen),
                forall|i: int| 0 <= i < others@.len() ==> others@[i] <= 9,
                siblings@.len() == i,
                forall|j: int|
                    0 <= j < i ==> (#[trigger] siblings@[j]).wf() && siblings@[j]@ == settled_on(
                        start,
                        x as int,
                        y as int,
                        others@[j],
                    ),
        {
            let mut sibling = self.clone();
            sibling.set_value(x, y, CellValue::Certain(others[i]));
            proof {
                lemma_settled_twice(start, x as int, y as int, chosen, others@[i as int]);
            }
            siblings.push(sibling);
        }
        siblings
    }

    /// Collapses the cell `(x, y)`: settles it on one of its candidates,
    /// picked at random, and returns one sibling board for each of the other
    /// candidates, in random order. A sibling is a copy of the board as it
    /// was, with the cell settled on that other candidate.
    ///
    /// A cell without candidates gives `EmptyDomain`, a settled cell
    /// `AlreadyFixed`; the board is then left as it was.
    pub fn collapse_cell(&mut self, x: usize, y: usize) -> (res: Result<Vec<Sudoku>, CollapseError>)
        requires
            old(self).wf(),
            x < 9,
            y < 9,
        ensures
            final(self).wf(),
            match res {
                Ok(siblings) => {
                    &&& at(old(self)@, x as int, y as int).value is Uncertain
                    &&& candidates(at(old(self)@, x as int, y as int)).len() > 0
                    &&& is_collapse(old(self)@, x as int, y as int, final(self)@, grids(siblings@))
                    &&& forall|i: int| 0 <= i < siblings@.len() ==> (#[trigger] siblings@[i]).wf()
                },
                Err(CollapseError::EmptyDomain) => {
                    &&& at(old(self)@, x as int, y as int).value == Domain::Uncertain(Seq::empty())
                    &&& final(self)@ == old(self)@
                },
                Err(CollapseError::AlreadyFixed) => {
                    &&& at(old(self)@, x as int, y as int).value is Certain
                    &&& final(self)@ == old(self)@
                },
            },
    {
        let ghost start = self@;
        let mut others = match self.get_cell(x, y).value() {
            CellValue::Uncertain(numbers) => numbers.clone(),
            CellValue::Certain(_) => {
                return Err(CollapseError::AlreadyFixed);
            },
        };
        if others.len() == 0 {
            assert(others@ =~= Seq::empty());
            return Err(CollapseError::EmptyDomain);
        }
        let ghost nums = others@;
        let mut rng = rand::thread_rng();
        let rand_idx = random_index(&mut rng, others.len());
        let chosen = others.remove(rand_idx);
        let ghost unshuffled = others@;
        shuffle(&mut others, &mut rng);

        proof {
            assert(cell_wf(at(start, x as int, y as int)));
            assert forall|i: int| 0 <= i < others@.len() implies others@[i] <= 9 by {
                to_multiset_contains(others@, others@[i]);
                to_multiset_contains(unshuffled, others@[i]);
                let j = choose|j: int| 0 <= j < unshuffled.len() && unshuffled[j] == others@[i];
                let oj = if j < rand_idx { j } else { j + 1 };
                assert(nums[oj] == unshuffled[j]);
            }
        }
        let siblings = self.branch(x, y, chosen, &others);
        proof {
            let digits = taken(self@, grids(siblings@), x as int, y as int);
            lemma_settled_twice(start, x as int, y as int, chosen, chosen);
            assert forall|i: int| 0 <= i < siblings@.len() implies settled_digit(
                at(#[trigger] grids(siblings@)[i], x as int, y as int),
            ) == others@[i] by {
                lemma_settled_twice(start, x as int, y as int, others@[i], others@[i]);
            }
            broadcast use vstd::multiset::group_multiset_axioms;

            assert(digits =~= seq![chosen] + others@);
            lemma_multiset_commutative(seq![chosen], others@);
            to_multiset_build(Seq::<u32>::empty(), chosen);
            assert(seq![chosen] =~= Seq::<u32>::empty().push(chosen));
            assert(Seq::<u32>::empty().to_multiset() =~= Multiset::<u32>::empty()) by {
                to_multiset_len(Seq::<u32>::empty());
            }
            to_multiset_remove(nums, rand_idx as int);
            to_multiset_contains(nums, chosen);
            assert(digits.to_multiset() =~= nums.to_multiset());
        }
        Ok(siblings)
    }
}

} // verus!
