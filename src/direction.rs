use vstd::prelude::*;

use crate::dimension::Dimension;

verus! {

/// A move on the board.
#[derive(Debug, PartialEq, Eq, Structural, Copy, Clone, Hash)]
pub enum Direction {
    Up,
    Down,
    Left,
    Right,
}

impl Direction {
    /// Moves toward the bottom or the right walk each line from its end.
    pub open spec fn spec_reverse_needed(self) -> bool {
        self == Direction::Down || self == Direction::Right
    }

    /// Up and down move along columns; left and right along rows.
    pub open spec fn spec_dimension(self) -> Dimension {
        match self {
            Direction::Up | Direction::Down => Dimension::Col,
            Direction::Left | Direction::Right => Dimension::Row,
        }
    }

    /// Index of the edge that a move vacates: the last row or column for
    /// up and left, the first for down and right.
    pub open spec fn spec_index(self) -> int {
        match self {
            Direction::Up | Direction::Left => 3,
            Direction::Down | Direction::Right => 0,
        }
    }

    pub fn reverse_needed(self) -> (r: bool)
        ensures
            r == self.spec_reverse_needed(),
    {
        self == Direction::Down || self == Direction::Right
    }

    pub fn associated_dimension(self) -> (r: Dimension)
        ensures
            r == self.spec_dimension(),
    {
        match self {
            Direction::Up | Direction::Down => Dimension::Col,
            Direction::Left | Direction::Right => Dimension::Row,
        }
    }

    /// The edge that the move vacates, in the perpendicular dimension.
    pub fn index(self) -> (r: usize)
        ensures
            r == self.spec_index(),
    {
        match self {
            Direction::Up | Direction::Left => 3,
            Direction::Down | Direction::Right => 0,
        }
    }
}

} // verus!
