//! One cell of the board: what it holds and whether the puzzle gave it.

use vstd::prelude::*;

verus! {

/// What a cell holds, as a mathematical value.
#[verifier::ext_equal]
pub enum Domain {
    /// The cell is settled on this digit.
    Certain(u32),
    /// The digits that are still possible, in the order they are kept.
    Uncertain(Seq<u32>),
}

/// A cell as a mathematical value.
#[verifier::ext_equal]
pub struct CellView {
    pub value: Domain,
    pub is_static: bool,
}

impl Domain {
    /// The digits the cell may still take: the settled digit alone, or the
    /// remaining candidates.
    pub open spec fn digits(self) -> Seq<u32> {
        match self {
            Domain::Certain(v) => seq![v],
            Domain::Uncertain(c) => c,
        }
    }
}

/// The digit that a cell is settled on; 0 for a cell that is not settled.
pub open spec fn settled_digit(c: CellView) -> u32 {
    match c.value {
        Domain::Certain(v) => v,
        Domain::Uncertain(_) => 0,
    }
}

/// The candidates of a cell; none for a settled cell.
pub open spec fn candidates(c: CellView) -> Seq<u32> {
    match c.value {
        Domain::Certain(_) => Seq::empty(),
        Domain::Uncertain(s) => s,
    }
}

/// The value of a cell: settled, or a list of remaining candidates.
#[derive(Debug)]
pub enum CellValue {
    /// The cell is settled on this digit.
    Certain(u32),
    /// The digits that are still possible. An empty list on a board whose
    /// candidates were computed means that the board is a dead end.
    Uncertain(Vec<u32>),
}

impl View for CellValue {
    type V = Domain;

    open spec fn view(&self) -> Domain {
        match self {
            CellValue::Certain(v) => Domain::Certain(*v),
            CellValue::Uncertain(c) => Domain::Uncertain(c@),
        }
    }
}

impl Clone for CellValue {
    fn clone(&self) -> (res: Self)
        ensures
            res@ == self@,
    {
        match self {
            CellValue::Certain(v) => CellValue::Certain(*v),
            CellValue::Uncertain(c) => CellValue::Uncertain(c.clone()),
        }
    }
}

impl CellValue {
    /// Whether the cell is settled.
    pub fn is_certain(&self) -> (res: bool)
        ensures
            res == (self@ is Certain),
    {
        match self {
            CellValue::Certain(_) => true,
            CellValue::Uncertain(_) => false,
        }
    }

    /// The digits of the cell as a vector: one digit if it is settled,
    /// else the candidates in their stored order.
    pub fn as_vec(&self) -> (res: Vec<u32>)
        ensures
            res@ == self@.digits(),
    {
        match self {
            CellValue::Certain(num) => {
                let mut v: Vec<u32> = Vec::new();
                v.push(*num);
                v
            },
            CellValue::Uncertain(nums) => nums.clone(),
        }
    }
}

/// A cell: its value, and whether the puzzle gave it.
#[derive(Debug)]
pub struct Cell {
    value: CellValue,
    is_static: bool,
}

impl View for Cell {
    type V = CellView;

    closed spec fn view(&self) -> CellView {
        CellView { value: self.value@, is_static: self.is_static }
    }
}

impl Clone for Cell {
    fn clone(&self) -> (res: Self)
        ensures
            res@ == self@,
    {
        Cell { value: self.value.clone(), is_static: self.is_static }
    }
}

impl Cell {
    /// A cell that holds `value`; `is_static` says whether the puzzle gave
    /// it.
    pub fn new(value: CellValue, is_static: bool) -> (res: Self)
        ensures
            res@ == (CellView { value: value@, is_static }),
    {
        Self { value, is_static }
    }

    /// What the cell holds.
    pub fn value(&self) -> (res: &CellValue)
        ensures
            res@ == self@.value,
    {
        &self.value
    }

    /// Whether the puzzle gave the cell. The solver never changes such a
    /// cell.
    pub fn is_static(&self) -> (res: bool)
        ensures
            res == self@.is_static,
    {
        self.is_static
    }

    /// Replaces the value and keeps the flag.
    pub(crate) fn set_value(&mut self, value: CellValue)
        ensures
            final(self)@ == (CellView { value: value@, is_static: old(self)@.is_static }),
    {
        self.value = value;
    }
}

} // verus!
