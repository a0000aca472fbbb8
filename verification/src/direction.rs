//! The four axis-aligned directions, with their stable indices.

use vstd::prelude::*;

verus! {

/// An axis-aligned direction in the plane.
#[derive(Clone, Copy, Hash, PartialEq, Eq, Structural, Debug)]
pub enum Direction {
    Right,
    Top,
    Left,
    Bottom,
}

impl Direction {
    /// The index this direction maps to and from.
    pub open spec fn spec_index(self) -> int {
        match self {
            Direction::Right => 0,
            Direction::Top => 1,
            Direction::Left => 2,
            Direction::Bottom => 3,
        }
    }

    /// Every direction, in index order.
    pub fn all() -> (r: [Direction; 4])
        ensures
            r@.len() == 4,
            forall|i: int| 0 <= i < 4 ==> (#[trigger] r@[i]).spec_index() == i,
    {
        let r = [Direction::Right, Direction::Top, Direction::Left, Direction::Bottom];
        proof {
            assert(r@[0] == Direction::Right);
            assert(r@[1] == Direction::Top);
            assert(r@[2] == Direction::Left);
            assert(r@[3] == Direction::Bottom);
        }
        r
    }

    pub fn to_index(&self) -> (i: u32)
        ensures
            i as int == self.spec_index(),
    {
        match self {
            Direction::Right => 0,
            Direction::Top => 1,
            Direction::Left => 2,
            Direction::Bottom => 3,
        }
    }

    /// The direction with the given index; the inverse of `to_index`.
    pub fn from_index(index: u32) -> (d: Direction)
        requires
            index < 4,
        ensures
            d.spec_index() == index,
    {
        if index == 0 {
            Direction::Right
        } else if index == 1 {
            Direction::Top
        } else if index == 2 {
            Direction::Left
        } else {
            Direction::Bottom
        }
    }
}

} // verus!
