//! The corners of a tile.
use vstd::prelude::*;

use crate::vector::Vector;

verus! {

/// The Corner of a tile
#[derive(Clone, Copy, Debug, PartialEq, Eq, Structural, Hash, PartialOrd, Ord)]
pub enum Corner {
    NorthWest,
    NorthEast,
    SouthWest,
    SouthEast,
}

impl Corner {
    /// The position of this corner going clockwise from the north west.
    pub open spec fn clockwise_index(self) -> nat {
        match self {
            Corner::NorthWest => 0,
            Corner::NorthEast => 1,
            Corner::SouthEast => 2,
            Corner::SouthWest => 3,
        }
    }

    /// The corner at a position going clockwise from the north west, taken modulo four.
    pub open spec fn from_clockwise_index(i: nat) -> Corner {
        if i % 4 == 0 {
            Corner::NorthWest
        } else if i % 4 == 1 {
            Corner::NorthEast
        } else if i % 4 == 2 {
            Corner::SouthEast
        } else {
            Corner::SouthWest
        }
    }

    /// The offset of this corner from the north west corner of its tile.
    pub open spec fn offset(self) -> (int, int) {
        match self {
            Corner::NorthWest => (0, 0),
            Corner::NorthEast => (1, 0),
            Corner::SouthWest => (0, 1),
            Corner::SouthEast => (1, 1),
        }
    }

    /// The corner diagonally across the tile.
    pub open spec fn opposite(self) -> Corner {
        Corner::from_clockwise_index(self.clockwise_index() + 2)
    }

    /// Every corner, in declaration order.
    pub fn all() -> (r: [Corner; 4])
        ensures
            r@ == seq![Corner::NorthWest, Corner::NorthEast, Corner::SouthWest, Corner::SouthEast],
    {
        [Corner::NorthWest, Corner::NorthEast, Corner::SouthWest, Corner::SouthEast]
    }

    /// The direction in which an outline moves when it leaves this corner going clockwise.
    pub fn clockwise_direction(&self) -> (r: Vector)
        ensures
            r.xy() == Vector::unit_xy(2 * self.clockwise_index() as int),
    {
        match self {
            Corner::NorthWest => Vector::north(),
            Corner::NorthEast => Vector::east(),
            Corner::SouthEast => Vector::south(),
            Corner::SouthWest => Vector::west(),
        }
    }

    /// The next corner going clockwise.
    pub fn clockwise(&self) -> (r: Self)
        ensures
            r == Corner::from_clockwise_index(self.clockwise_index() + 1),
    {
        match self {
            Corner::NorthWest => Corner::NorthEast,
            Corner::NorthEast => Corner::SouthEast,
            Corner::SouthEast => Corner::SouthWest,
            Corner::SouthWest => Corner::NorthWest,
        }
    }

    /// The next corner going anticlockwise.
    pub fn anticlockwise(&self) -> (r: Self)
        ensures
            r == Corner::from_clockwise_index(self.clockwise_index() + 3),
    {
        match self {
            Corner::NorthWest => Corner::SouthWest,
            Corner::SouthWest => Corner::SouthEast,
            Corner::SouthEast => Corner::NorthEast,
            Corner::NorthEast => Corner::NorthWest,
        }
    }
}

/// Turning clockwise then anticlockwise (or the reverse) gives back the same corner,
/// and four clockwise turns go all the way round.
pub proof fn lemma_corner_turns(c: Corner)
    ensures
        Corner::from_clockwise_index(Corner::from_clockwise_index(c.clockwise_index() + 1).clockwise_index() + 3) == c,
        Corner::from_clockwise_index(Corner::from_clockwise_index(c.clockwise_index() + 3).clockwise_index() + 1) == c,
        Corner::from_clockwise_index(c.clockwise_index() + 4) == c,
        Corner::from_clockwise_index(c.clockwise_index()) == c,
        c.opposite().opposite() == c,
{
}

} // verus!
