use vstd::prelude::*;

verus! {

/// A set of grid directions, one bit per direction (see `direction`).
pub type Flag = u8;

/// A position, or an offset between positions, on the grid.
#[derive(Debug, Clone, Copy, PartialEq, Eq, Default)]
pub struct Pos<T> {
    pub x: T,
    pub y: T,
}

impl<T> Pos<T> {
    pub fn new(x: T, y: T) -> (r: Self)
        ensures
            r.x == x,
            r.y == y,
    {
        Self { x: x, y: y }
    }
}

impl Pos<i32> {
    /// Component-wise sum of two positions.
    pub fn add(self, other: Self) -> (r: Self)
        requires
            i32::MIN <= self.x + other.x <= i32::MAX,
            i32::MIN <= self.y + other.y <= i32::MAX,
        ensures
            r.x == self.x + other.x,
            r.y == self.y + other.y,
    {
        Self { x: self.x + other.x, y: self.y + other.y }
    }
}

/// The dimensions of a grid.
#[derive(Debug, Clone, Copy, PartialEq, Eq, Default)]
pub struct Size<T> {
    pub width: T,
    pub height: T,
}

impl<T> Size<T> {
    pub fn new(width: T, height: T) -> (r: Self)
        ensures
            r.width == width,
            r.height == height,
    {
        Self { width: width, height: height }
    }
}

impl Size<i32> {
    /// Component-wise sum of two sizes.
    pub fn add(self, other: Self) -> (r: Self)
        requires
            i32::MIN <= self.width + other.width <= i32::MAX,
            i32::MIN <= self.height + other.height <= i32::MAX,
        ensures
            r.width == self.width + other.width,
            r.height == self.height + other.height,
    {
        Self { width: self.width + other.width, height: self.height + other.height }
    }
}

/// Number of bits set in `m`.
pub open spec fn bit_count(m: u8) -> nat
    decreases m,
{
    if m == 0 {
        0
    } else {
        (m % 2) as nat + bit_count(m / 2)
    }
}

/// Whether the mask `m` holds any bit of `f`.
pub open spec fn has_flag(m: u8, f: u8) -> bool {
    m & f != 0
}

proof fn lemma_bit_count_le(m: u8)
    ensures
        bit_count(m) <= m,
    decreases m,
{
    if m != 0 {
        lemma_bit_count_le(m / 2);
    }
}

/// A byte has no bit set exactly when it is zero.
pub proof fn lemma_bit_count_zero(m: u8)
    ensures
        bit_count(m) == 0 <==> m == 0,
    decreases m,
{
    if m != 0 {
        assert(m % 2 == 1 || m / 2 != 0);
        if m / 2 != 0 {
            lemma_bit_count_zero(m / 2);
        }
    }
}

/// Counting the bits of a flag mask.
pub trait BitFlag {
    spec fn spec_count_bits(&self) -> nat;

    fn count_bits(&self) -> (r: u8)
        ensures
            r as nat == self.spec_count_bits(),
    ;
}

impl BitFlag for Flag {
    open spec fn spec_count_bits(&self) -> nat {
        bit_count(*self)
    }

    fn count_bits(&self) -> (r: u8) {
        let mut n: u8 = *self;
        let mut c: u8 = 0;
        proof {
            lemma_bit_count_le(*self);
        }
        while n != 0u8
            invariant
                c as nat + bit_count(n) == bit_count(*self),
                bit_count(*self) <= 255,
            decreases n,
        {
            if n % 2 == 1 {
                c += 1;
            }
            n = n / 2;
        }
        c
    }
}

} // verus!
