//! Single-precision numbers by their bit patterns.
//!
//! The datasets carry positions, angles and durations through unchanged and
//! compare a few of them. Both need the pattern only: comparing two numbers is
//! comparing their signs and magnitudes.
use vstd::prelude::*;

verus! {

/// A single-precision number, by its bit pattern.
#[derive(Clone, Copy, Debug, Default, PartialEq, Eq, Structural)]
pub struct Float {
    pub bits: u32,
}

/// The pattern of zero.
pub const ZERO_BITS: u32 = 0;

/// The pattern of positive infinity.
pub const INFINITY_BITS: u32 = 0x7f80_0000;

impl Float {
    /// Whether the pattern stands for no number.
    pub open spec fn is_nan(self) -> bool {
        self.bits % 0x8000_0000 > 0x7f80_0000
    }

    /// Where the number stands among all numbers: both zeros stand at 0.
    pub open spec fn rank(self) -> int {
        if self.bits < 0x8000_0000 {
            self.bits as int
        } else {
            0x8000_0000 - self.bits
        }
    }

    /// Where the pattern stands in the total order of all patterns, in which a
    /// negative zero comes before a positive one and patterns that stand for no
    /// number come first or last, by their sign.
    pub open spec fn total_rank(self) -> int {
        if self.bits < 0x8000_0000 {
            self.bits as int
        } else {
            0x7fff_ffff - self.bits
        }
    }

    /// Whether one number is at most another.
    pub open spec fn at_most(self, other: Float) -> bool {
        !self.is_nan() && !other.is_nan() && self.rank() <= other.rank()
    }

    /// Whether one number is greater than another.
    pub open spec fn above(self, other: Float) -> bool {
        !self.is_nan() && !other.is_nan() && self.rank() > other.rank()
    }

    /// Zero.
    pub fn zero() -> (f: Float)
        ensures
            f.bits == ZERO_BITS,
    {
        Float { bits: ZERO_BITS }
    }

    fn nan(self) -> (b: bool)
        ensures
            b == self.is_nan(),
    {
        self.bits % 0x8000_0000 > 0x7f80_0000
    }

    fn place(self) -> (r: i64)
        ensures
            r == self.rank(),
    {
        if self.bits < 0x8000_0000 {
            self.bits as i64
        } else {
            0x8000_0000 - self.bits as i64
        }
    }

    /// Whether one number is at most another.
    pub fn is_at_most(self, other: Float) -> (b: bool)
        ensures
            b == self.at_most(other),
    {
        !self.nan() && !other.nan() && self.place() <= other.place()
    }

    /// Whether one number is greater than another.
    pub fn is_above(self, other: Float) -> (b: bool)
        ensures
            b == self.above(other),
    {
        !self.nan() && !other.nan() && self.place() > other.place()
    }

    /// The place of the pattern in the total order of all patterns.
    pub fn total_place(self) -> (r: i64)
        ensures
            r == self.total_rank(),
    {
        if self.bits < 0x8000_0000 {
            self.bits as i64
        } else {
            0x7fff_ffff - self.bits as i64
        }
    }
}

/// A point or a triple of angles.
#[derive(Clone, Copy, Debug, Default, PartialEq, Eq, Structural)]
pub struct Vector {
    pub x: Float,
    pub y: Float,
    pub z: Float,
}

impl Vector {
    /// The point whose axes are all zero.
    pub open spec fn origin() -> Vector {
        Vector {
            x: Float { bits: ZERO_BITS },
            y: Float { bits: ZERO_BITS },
            z: Float { bits: ZERO_BITS },
        }
    }

    /// The point whose axes are all zero.
    pub fn zero() -> (v: Vector)
        ensures
            v == Vector::origin(),
    {
        Vector { x: Float::zero(), y: Float::zero(), z: Float::zero() }
    }
}

} // verus!
