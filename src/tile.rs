use vstd::prelude::*;

use crate::direction::{directions, dir_flag, spec_direction};
use crate::util::{bit_count, has_flag, BitFlag, Flag, Pos};

verus! {

/// The sense of a quarter turn.
#[derive(Debug, Clone, Copy, PartialEq, Eq)]
pub enum RotationDirection {
    Right,
    Left,
}

pub type TilePos = Pos<i32>;

pub type TileOffset = Pos<i32>;

/// The role of a tile in the network.
#[derive(Debug, Clone, Copy, PartialEq, Eq)]
pub enum TileKind {
    UNDEFINED,
    SERVER,
    TERMINAL,
    CONNECTOR,
}

impl Default for TileKind {
    fn default() -> (r: Self)
        ensures
            r == TileKind::UNDEFINED,
    {
        TileKind::UNDEFINED
    }
}

/// One cell of the board: its kind, its open pipe stubs (`directions`), the
/// directions toward cells not yet reached while the board is generated
/// (`neighbours`), and whether power currently reaches it.
#[derive(Debug, Clone, Copy, PartialEq, Eq)]
pub struct Tile {
    pub kind: TileKind,
    pub directions: Flag,
    pub neighbours: Flag,
    pub powered: bool,
}

/// The bit that direction `i` of the table leads to under a quarter turn.
pub open spec fn turn_target(i: int, rd: RotationDirection) -> u8 {
    match rd {
        RotationDirection::Left => spec_direction(i).left,
        RotationDirection::Right => spec_direction(i).right,
    }
}

/// Where the bit of direction `i` of `m` goes under a quarter turn (nothing
/// when `m` lacks it).
pub open spec fn moved(m: u8, i: int, rd: RotationDirection) -> u8 {
    if has_flag(m, dir_flag(i)) {
        turn_target(i, rd)
    } else {
        0
    }
}

/// The bits that the first `k` directions of the table contribute to a turn.
pub open spec fn turned_prefix(m: u8, rd: RotationDirection, k: int) -> u8
    decreases k,
{
    if k <= 0 {
        0
    } else {
        turned_prefix(m, rd, k - 1) | moved(m, k - 1, rd)
    }
}

/// The mask `m` after one quarter turn: every set bit moves at once.
pub open spec fn turned(m: u8, rd: RotationDirection) -> u8 {
    turned_prefix(m, rd, 4)
}

/// The mask `m` after `n` quarter turns.
pub open spec fn turned_times(m: u8, rd: RotationDirection, n: nat) -> u8
    decreases n,
{
    if n == 0 {
        m
    } else {
        turned(turned_times(m, rd, (n - 1) as nat), rd)
    }
}

/// Closed forms of a quarter turn on four direction bits.
pub open spec fn turned_right_bits(m: u8) -> u8 {
    ((m << 1u8) | (m >> 3u8)) & 15u8
}

pub open spec fn turned_left_bits(m: u8) -> u8 {
    ((m >> 1u8) | (m << 3u8)) & 15u8
}

proof fn lemma_turn_shape(m: u8)
    ensures
        turned(m, RotationDirection::Right) < 16,
        turned(m, RotationDirection::Left) < 16,
        m < 16 ==> turned(m, RotationDirection::Right) == turned_right_bits(m),
        m < 16 ==> turned(m, RotationDirection::Left) == turned_left_bits(m),
{
    reveal_with_fuel(turned_prefix, 5);
    let a: u8 = if m & 1 != 0 { 1 } else { 0 };
    let b: u8 = if m & 2 != 0 { 1 } else { 0 };
    let c: u8 = if m & 4 != 0 { 1 } else { 0 };
    let d: u8 = if m & 8 != 0 { 1 } else { 0 };
    assert(turned(m, RotationDirection::Right) == (((0u8 | (if m & 1 != 0 { 2u8 } else { 0u8 }))
        | (if m & 2 != 0 { 4u8 } else { 0u8 })) | (if m & 4 != 0 { 8u8 } else { 0u8 })) | (if m
        & 8 != 0 { 1u8 } else { 0u8 }));
    assert(turned(m, RotationDirection::Left) == (((0u8 | (if m & 1 != 0 { 8u8 } else { 0u8 }))
        | (if m & 2 != 0 { 1u8 } else { 0u8 })) | (if m & 4 != 0 { 2u8 } else { 0u8 })) | (if m
        & 8 != 0 { 4u8 } else { 0u8 }));
    assert((((0u8 | (if m & 1 != 0 { 2u8 } else { 0u8 })) | (if m & 2 != 0 { 4u8 } else { 0u8 }))
        | (if m & 4 != 0 { 8u8 } else { 0u8 })) | (if m & 8 != 0 { 1u8 } else { 0u8 }) < 16
        && (m < 16 ==> (((0u8 | (if m & 1 != 0 { 2u8 } else { 0u8 })) | (if m & 2 != 0 { 4u8 } else { 0u8 }))
        | (if m & 4 != 0 { 8u8 } else { 0u8 })) | (if m & 8 != 0 { 1u8 } else { 0u8 })
        == ((m << 1u8) | (m >> 3u8)) & 15u8)) by (bit_vector);
    assert((((0u8 | (if m & 1 != 0 { 8u8 } else { 0u8 })) | (if m & 2 != 0 { 1u8 } else { 0u8 }))
        | (if m & 4 != 0 { 2u8 } else { 0u8 })) | (if m & 8 != 0 { 4u8 } else { 0u8 }) < 16
        && (m < 16 ==> (((0u8 | (if m & 1 != 0 { 8u8 } else { 0u8 })) | (if m & 2 != 0 { 1u8 } else { 0u8 }))
        | (if m & 4 != 0 { 2u8 } else { 0u8 })) | (if m & 8 != 0 { 4u8 } else { 0u8 })
        == ((m >> 1u8) | (m << 3u8)) & 15u8)) by (bit_vector);
}

/// A quarter turn keeps a mask within the four direction bits.
pub proof fn lemma_turned_bounded(m: u8, rd: RotationDirection)
    ensures
        turned(m, rd) < 16,
{
    lemma_turn_shape(m);
}

/// Rotation closure: four quarter turns in one sense give back the mask, and
/// a right turn followed by a left turn undoes it.
pub proof fn lemma_rotation_closure(m: u8, rd: RotationDirection)
    requires
        m < 16,
    ensures
        turned_times(m, rd, 4) == m,
        turned(turned(m, RotationDirection::Right), RotationDirection::Left) == m,
        turned(turned(m, RotationDirection::Left), RotationDirection::Right) == m,
{
    reveal_with_fuel(turned_times, 5);
    let r1 = turned_right_bits(m);
    let r2 = turned_right_bits(r1);
    let r3 = turned_right_bits(r2);
    let l1 = turned_left_bits(m);
    let l2 = turned_left_bits(l1);
    let l3 = turned_left_bits(l2);
    assert(r1 < 16 && r2 < 16 && r3 < 16 && turned_right_bits(r3) == m && turned_left_bits(r1)
        == m) by (bit_vector)
        requires
            m < 16,
            r1 == ((m << 1u8) | (m >> 3u8)) & 15u8,
            r2 == ((r1 << 1u8) | (r1 >> 3u8)) & 15u8,
            r3 == ((r2 << 1u8) | (r2 >> 3u8)) & 15u8,
    ;
    assert(l1 < 16 && l2 < 16 && l3 < 16 && turned_left_bits(l3) == m && turned_right_bits(l1)
        == m) by (bit_vector)
        requires
            m < 16,
            l1 == ((m >> 1u8) | (m << 3u8)) & 15u8,
            l2 == ((l1 >> 1u8) | (l1 << 3u8)) & 15u8,
            l3 == ((l2 >> 1u8) | (l2 << 3u8)) & 15u8,
    ;
    lemma_turn_shape(m);
    lemma_turn_shape(r1);
    lemma_turn_shape(r2);
    lemma_turn_shape(r3);
    lemma_turn_shape(l1);
    lemma_turn_shape(l2);
    lemma_turn_shape(l3);
}

proof fn lemma_or_zero(x: u8)
    ensures
        x | 0u8 == x,
{
    assert(x | 0u8 == x) by (bit_vector);
}

impl Tile {
    pub fn new() -> (r: Self)
        ensures
            r.kind == TileKind::UNDEFINED,
            r.directions == 0,
            r.neighbours == 0,
            !r.powered,
    {
        Self { kind: TileKind::default(), directions: 0, neighbours: 0, powered: false }
    }

    /// Applies `n` quarter turns in the sense `rd` to the open stubs.
    pub fn rotate(&mut self, rd: RotationDirection, n: i32)
        ensures
            final(self).directions == turned_times(
                old(self).directions,
                rd,
                if n > 0 { n as nat } else { 0 },
            ),
            final(self).kind == old(self).kind,
            final(self).neighbours == old(self).neighbours,
            final(self).powered == old(self).powered,
    {
        let dirs = directions();
        let mut k: i32 = 0;
        while k < n
            invariant
                0 <= k,
                k <= n || k == 0,
                self.directions == turned_times(old(self).directions, rd, k as nat),
                self.kind == old(self).kind,
                self.neighbours == old(self).neighbours,
                self.powered == old(self).powered,
                forall|i: int| 0 <= i < 4 ==> #[trigger] dirs@[i] == spec_direction(i),
            decreases n - k,
        {
            let mut new: u8 = 0;
            let mut i: usize = 0;
            while i < 4
                invariant
                    i <= 4,
                    new == turned_prefix(self.directions, rd, i as int),
                    0 <= k < n,
                    self.directions == turned_times(old(self).directions, rd, k as nat),
                    self.kind == old(self).kind,
                    self.neighbours == old(self).neighbours,
                    self.powered == old(self).powered,
                    forall|j: int| 0 <= j < 4 ==> #[trigger] dirs@[j] == spec_direction(j),
                decreases 4 - i,
            {
                let dir = dirs[i];
                proof {
                    lemma_or_zero(new);
                }
                if self.directions & dir.flag != 0 {
                    new |= match rd {
                        RotationDirection::Left => dir.left,
                        RotationDirection::Right => dir.right,
                    };
                }
                i += 1;
            }
            self.directions = new;
            k += 1;
        }
    }

    /// Number of open stubs.
    pub fn connections(&self) -> (r: u8)
        ensures
            r as nat == bit_count(self.directions),
    {
        self.directions.count_bits()
    }

    /// Number of directions still leading to unreached cells.
    pub fn free_directions(&self) -> (r: u8)
        ensures
            r as nat == bit_count(self.neighbours),
    {
        self.neighbours.count_bits()
    }
}

} // verus!
