//! Compass headings on the grid.

use vstd::prelude::*;

verus! {

/// One of the eight compass headings, or `Center` for staying in place.
///
/// North is the direction of growing `y`, east the direction of growing `x`.
#[derive(Clone, Copy, Debug, PartialEq, Eq, Structural, Hash)]
pub enum Direction {
    North,
    Northeast,
    East,
    Southeast,
    South,
    Southwest,
    West,
    Northwest,
    Center,
}

/// The order in which the neighbours of a cell are examined.
pub const DIRECTIONS: [Direction; 8] = [
    Direction::North,
    Direction::South,
    Direction::East,
    Direction::West,
    Direction::Northeast,
    Direction::Southwest,
    Direction::Southeast,
    Direction::Northwest,
];

/// The `k`-th heading of the examination order, for `0 <= k < 8`.
pub open spec fn compass(k: int) -> Direction {
    if k == 0 {
        Direction::North
    } else if k == 1 {
        Direction::South
    } else if k == 2 {
        Direction::East
    } else if k == 3 {
        Direction::West
    } else if k == 4 {
        Direction::Northeast
    } else if k == 5 {
        Direction::Southwest
    } else if k == 6 {
        Direction::Southeast
    } else {
        Direction::Northwest
    }
}

impl Direction {
    /// Change of `x` made by one step in this direction.
    pub open spec fn step_x(self) -> int {
        match self {
            Direction::North => 0,
            Direction::Northeast => 1,
            Direction::East => 1,
            Direction::Southeast => 1,
            Direction::South => 0,
            Direction::Southwest => -1,
            Direction::West => -1,
            Direction::Northwest => -1,
            Direction::Center => 0,
        }
    }

    /// Change of `y` made by one step in this direction.
    pub open spec fn step_y(self) -> int {
        match self {
            Direction::North => 1,
            Direction::Northeast => 1,
            Direction::East => 0,
            Direction::Southeast => -1,
            Direction::South => -1,
            Direction::Southwest => -1,
            Direction::West => 0,
            Direction::Northwest => 1,
            Direction::Center => 0,
        }
    }

    /// The heading that undoes this one.
    pub open spec fn reverse(self) -> Direction {
        match self {
            Direction::North => Direction::South,
            Direction::Northeast => Direction::Southwest,
            Direction::East => Direction::West,
            Direction::Southeast => Direction::Northwest,
            Direction::South => Direction::North,
            Direction::Southwest => Direction::Northeast,
            Direction::West => Direction::East,
            Direction::Northwest => Direction::Southeast,
            Direction::Center => Direction::Center,
        }
    }

    /// Change of `x` made by one step in this direction.
    pub fn dx(&self) -> (r: i32)
        ensures
            r == self.step_x(),
    {
        match self {
            Direction::North => 0,
            Direction::Northeast => 1,
            Direction::East => 1,
            Direction::Southeast => 1,
            Direction::South => 0,
            Direction::Southwest => -1,
            Direction::West => -1,
            Direction::Northwest => -1,
            Direction::Center => 0,
        }
    }

    /// Change of `y` made by one step in this direction.
    pub fn dy(&self) -> (r: i32)
        ensures
            r == self.step_y(),
    {
        match self {
            Direction::North => 1,
            Direction::Northeast => 1,
            Direction::East => 0,
            Direction::Southeast => -1,
            Direction::South => -1,
            Direction::Southwest => -1,
            Direction::West => 0,
            Direction::Northwest => 1,
            Direction::Center => 0,
        }
    }

    /// The heading that undoes this one.
    pub fn opposite(&self) -> (r: Direction)
        ensures
            r == self.reverse(),
    {
        match self {
            Direction::North => Direction::South,
            Direction::Northeast => Direction::Southwest,
            Direction::East => Direction::West,
            Direction::Southeast => Direction::Northwest,
            Direction::South => Direction::North,
            Direction::Southwest => Direction::Northeast,
            Direction::West => Direction::East,
            Direction::Northwest => Direction::Southeast,
            Direction::Center => Direction::Center,
        }
    }
}

/// The `k`-th heading of the examination order.
pub fn nth_direction(k: usize) -> (d: Direction)
    requires
        k < 8,
    ensures
        d == compass(k as int),
        d != Direction::Center,
{
    DIRECTIONS[k]
}

} // verus!
