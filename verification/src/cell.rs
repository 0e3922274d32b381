use vstd::prelude::*;

verus! {

/// The state of one grid position: whether it holds a mine, whether the
/// player can see it, and how many of its Moore neighbours hold mines.
#[derive(Clone, Copy, Debug, PartialEq, Eq, Structural)]
pub struct Cell {
    pub is_mine: bool,
    pub visibility: Visibility,
    pub neighbouring_mines: u8,
}

impl Cell {
    /// A fresh cell: hidden, with the given mine flag and no neighbour
    /// count yet (the board fills the count in during construction).
    pub fn new(is_mine: bool) -> (c: Cell)
        ensures
            c.is_mine == is_mine,
            c.visibility == Visibility::Hidden,
            c.neighbouring_mines == 0,
    {
        Cell { is_mine, visibility: Visibility::Hidden, neighbouring_mines: 0 }
    }
}

/// What the player can see of a cell.
#[derive(Clone, Copy, Debug, PartialEq, Eq, Structural)]
pub enum Visibility {
    Hidden,
    Visible,
    Flagged,
}

} // verus!
