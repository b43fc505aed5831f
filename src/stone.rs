use vstd::prelude::*;

verus! {

/// A board position as (column, row).
pub type Coordinate = (i8, i8);

/// The colour of a stone, and of the player who places it.
#[derive(Clone, Copy, Debug, PartialEq, Eq, Structural)]
pub enum Stone {
    Black,
    White,
}

/// The opposing colour.
pub open spec fn opponent(s: Stone) -> Stone {
    match s {
        Stone::Black => Stone::White,
        Stone::White => Stone::Black,
    }
}

impl Stone {
    /// The opposing colour.
    pub fn foe(self) -> (r: Stone)
        ensures
            r == opponent(self),
    {
        match self {
            Stone::Black => Stone::White,
            Stone::White => Stone::Black,
        }
    }
}

/// The legal board extents.
#[derive(Clone, Copy, Debug, PartialEq, Eq, Structural)]
pub enum Size {
    Nine,
    Thirteen,
    Seventeen,
    Nineteen,
}

/// The number of rows (and of columns) of a board of the given size.
pub open spec fn extent_of(s: Size) -> int {
    match s {
        Size::Nine => 9,
        Size::Thirteen => 13,
        Size::Seventeen => 17,
        Size::Nineteen => 19,
    }
}

/// Whether `n` is the extent of some legal board size.
pub open spec fn is_legal_extent(n: int) -> bool {
    n == 9 || n == 13 || n == 17 || n == 19
}

/// Every size has a legal extent, between 9 and 19.
pub proof fn lemma_extent_legal(s: Size)
    ensures
        is_legal_extent(extent_of(s)),
        9 <= extent_of(s) <= 19,
{
}

impl Size {
    /// The number of rows (and of columns) of a board of this size.
    pub fn extent(self) -> (r: u8)
        ensures
            r as int == extent_of(self),
    {
        match self {
            Size::Nine => 9,
            Size::Thirteen => 13,
            Size::Seventeen => 17,
            Size::Nineteen => 19,
        }
    }

    /// The size whose extent is `n`, if `n` is a legal extent; never clamped.
    pub fn from_extent(n: usize) -> (r: Option<Size>)
        ensures
            r is Some <==> is_legal_extent(n as int),
            r matches Some(s) ==> extent_of(s) == n as int,
    {
        if n == 9 {
            Some(Size::Nine)
        } else if n == 13 {
            Some(Size::Thirteen)
        } else if n == 17 {
            Some(Size::Seventeen)
        } else if n == 19 {
            Some(Size::Nineteen)
        } else {
            None
        }
    }
}

} // verus!
