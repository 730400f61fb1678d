//! The three states a grid cell can be in.

use vstd::prelude::*;

verus! {

/// State of one cell of the grid.
#[derive(Clone, Copy, Debug, PartialEq, Eq, Structural)]
pub enum CellState {
    /// Not yet determined.
    Empty,
    /// Known to belong to a block.
    Filled,
    /// Known to lie outside every block.
    Crossed,
}

/// The number a cell state is exchanged as.
pub open spec fn code_of(state: CellState) -> int {
    match state {
        CellState::Empty => 0,
        CellState::Filled => 1,
        CellState::Crossed => 2,
    }
}

impl CellState {
    /// The number this state is exchanged as: 0, 1 or 2.
    pub fn code(self) -> (c: u8)
        ensures
            c as int == code_of(self),
    {
        match self {
            CellState::Empty => 0,
            CellState::Filled => 1,
            CellState::Crossed => 2,
        }
    }

    /// Decodes an exchanged number that may be negative; anything but 0, 1 and 2 is
    /// rejected.
    pub fn from_signed_code(value: i64) -> (r: Option<CellState>)
        ensures
            r matches Some(state) ==> code_of(state) == value as int,
            r is Some <==> 0 <= value <= 2,
    {
        if value < 0 {
            None
        } else {
            CellState::from_code(value as u64)
        }
    }

    /// Decodes an exchanged number; anything but 0, 1 and 2 is rejected.
    pub fn from_code(value: u64) -> (r: Option<CellState>)
        ensures
            r matches Some(state) ==> code_of(state) == value as int,
            r is Some <==> value <= 2,
    {
        if value == 0 {
            Some(CellState::Empty)
        } else if value == 1 {
            Some(CellState::Filled)
        } else if value == 2 {
            Some(CellState::Crossed)
        } else {
            None
        }
    }
}

} // verus!
