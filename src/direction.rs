//! The eight compass directions and their row and column steps.
use vstd::prelude::*;

verus! {

/// The eight compass directions; north points towards rank 8 (row 0).
#[derive(Debug, Clone, Copy, PartialEq, Eq, Structural, Hash)]
pub enum Direction {
    North,
    South,
    East,
    West,
    NorthEast,
    NorthWest,
    SouthEast,
    SouthWest,
}

/// (row step, column step) of a direction.
pub open spec fn delta_spec(d: Direction) -> (int, int) {
    match d {
        Direction::North => (-1, 0),
        Direction::South => (1, 0),
        Direction::East => (0, 1),
        Direction::West => (0, -1),
        Direction::NorthEast => (-1, 1),
        Direction::NorthWest => (-1, -1),
        Direction::SouthEast => (1, 1),
        Direction::SouthWest => (1, -1),
    }
}

impl Direction {
    pub fn row_delta(self) -> (r: i32)
        ensures
            r == delta_spec(self).0,
    {
        self.delta().0
    }

    pub fn col_delta(self) -> (r: i32)
        ensures
            r == delta_spec(self).1,
    {
        self.delta().1
    }

    pub fn delta(self) -> (r: (i32, i32))
        ensures
            r.0 == delta_spec(self).0,
            r.1 == delta_spec(self).1,
    {
        match self {
            Self::North => (-1, 0),
            Self::South => (1, 0),
            Self::East => (0, 1),
            Self::West => (0, -1),
            Self::NorthEast => (-1, 1),
            Self::NorthWest => (-1, -1),
            Self::SouthEast => (1, 1),
            Self::SouthWest => (1, -1),
        }
    }
}

} // verus!
