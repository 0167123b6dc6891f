//! Grid-wide configuration and the four wall/neighbor directions.

use vstd::prelude::*;

verus! {

/// Grid width, in cells, used by the host animation.
pub const COLS: usize = 60;

/// Grid height, in cells, used by the host animation.
pub const ROWS: usize = 60;

/// One of the four directions out of a cell. A cell's wall flags are stored
/// in this order: up, right, down, left.
#[derive(Clone, Copy, Debug, PartialEq, Eq, Structural)]
#[allow(non_camel_case_types)]
pub enum DIRECTION {
    UP,
    RIGHT,
    DOWN,
    LEFT,
}

impl DIRECTION {
    /// Position of this direction's flag in a cell's wall array.
    pub open spec fn spec_wall_index(self) -> int {
        match self {
            DIRECTION::UP => 0,
            DIRECTION::RIGHT => 1,
            DIRECTION::DOWN => 2,
            DIRECTION::LEFT => 3,
        }
    }

    pub fn wall_index(self) -> (i: usize)
        ensures
            i == self.spec_wall_index(),
    {
        match self {
            DIRECTION::UP => 0,
            DIRECTION::RIGHT => 1,
            DIRECTION::DOWN => 2,
            DIRECTION::LEFT => 3,
        }
    }

    /// The direction that points back across the same wall.
    pub open spec fn spec_opposite(self) -> DIRECTION {
        match self {
            DIRECTION::UP => DIRECTION::DOWN,
            DIRECTION::RIGHT => DIRECTION::LEFT,
            DIRECTION::DOWN => DIRECTION::UP,
            DIRECTION::LEFT => DIRECTION::RIGHT,
        }
    }

    pub fn opposite(self) -> (d: DIRECTION)
        ensures
            d == self.spec_opposite(),
    {
        match self {
            DIRECTION::UP => DIRECTION::DOWN,
            DIRECTION::RIGHT => DIRECTION::LEFT,
            DIRECTION::DOWN => DIRECTION::UP,
            DIRECTION::LEFT => DIRECTION::RIGHT,
        }
    }
}

} // verus!
