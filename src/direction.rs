use vstd::prelude::*;

use crate::tile::TileOffset;
use crate::util::{Flag, Pos};

verus! {

/// The four grid directions.
#[derive(Debug, Clone, Copy, PartialEq, Eq)]
pub enum DirectionKind {
    UP,
    RIGHT,
    DOWN,
    LEFT,
}

impl Default for DirectionKind {
    fn default() -> (r: Self)
        ensures
            r == DirectionKind::UP,
    {
        DirectionKind::UP
    }
}

/// One entry of the direction table: its bit, the bit of the opposite
/// direction, the bits a quarter turn right and left lead to, and the unit
/// offset toward the neighbouring cell.
#[derive(Debug, Clone, Copy, PartialEq, Eq)]
pub struct Direction {
    pub kind: DirectionKind,
    pub flag: Flag,
    pub opposite: Flag,
    pub offset: TileOffset,
    pub right: Flag,
    pub left: Flag,
}

/// The direction table, entry `i` for `0 <= i < 4`: up, right, down, left.
pub open spec fn spec_direction(i: int) -> Direction {
    if i == 0 {
        Direction {
            kind: DirectionKind::UP,
            flag: 1,
            opposite: 4,
            right: 2,
            left: 8,
            offset: Pos { x: 0, y: -1i32 },
        }
    } else if i == 1 {
        Direction {
            kind: DirectionKind::RIGHT,
            flag: 2,
            opposite: 8,
            right: 4,
            left: 1,
            offset: Pos { x: 1, y: 0 },
        }
    } else if i == 2 {
        Direction {
            kind: DirectionKind::DOWN,
            flag: 4,
            opposite: 1,
            right: 8,
            left: 2,
            offset: Pos { x: 0, y: 1 },
        }
    } else {
        Direction {
            kind: DirectionKind::LEFT,
            flag: 8,
            opposite: 2,
            right: 1,
            left: 4,
            offset: Pos { x: -1i32, y: 0 },
        }
    }
}

/// Bit of direction `i`.
pub open spec fn dir_flag(i: int) -> u8 {
    spec_direction(i).flag
}

/// Horizontal step of direction `i`.
pub open spec fn dir_dx(i: int) -> int {
    spec_direction(i).offset.x as int
}

/// Vertical step of direction `i`.
pub open spec fn dir_dy(i: int) -> int {
    spec_direction(i).offset.y as int
}

/// Index of the direction opposite to direction `i`.
pub open spec fn opposite_index(i: int) -> int {
    (i + 2) % 4
}

/// The direction table, the single source of all direction facts.
pub fn directions() -> (r: [Direction; 4])
    ensures
        forall|i: int| 0 <= i < 4 ==> #[trigger] r@[i] == spec_direction(i),
{
    let r = [
        Direction {
            kind: DirectionKind::UP,
            flag: 1,
            opposite: 4,
            right: 2,
            left: 8,
            offset: Pos { x: 0, y: -1 },
        },
        Direction {
            kind: DirectionKind::RIGHT,
            flag: 2,
            opposite: 8,
            right: 4,
            left: 1,
            offset: Pos { x: 1, y: 0 },
        },
        Direction {
            kind: DirectionKind::DOWN,
            flag: 4,
            opposite: 1,
            right: 8,
            left: 2,
            offset: Pos { x: 0, y: 1 },
        },
        Direction {
            kind: DirectionKind::LEFT,
            flag: 8,
            opposite: 2,
            right: 1,
            left: 4,
            offset: Pos { x: -1, y: 0 },
        },
    ];
    assert(forall|i: int| 0 <= i < 4 ==> #[trigger] r@[i] == spec_direction(i)) by {
        assert(r@[0] == spec_direction(0));
        assert(r@[1] == spec_direction(1));
        assert(r@[2] == spec_direction(2));
        assert(r@[3] == spec_direction(3));
    }
    r
}

} // verus!
