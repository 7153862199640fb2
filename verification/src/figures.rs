//! Floating-point figures, carried by their bit patterns.
//!
//! Confidences, loads, prices, and costs pass through the platform as IEEE 754 numbers.
//! The rules that only order them or test their range are stated and proved here over the
//! bit patterns; arithmetic on them is left to the program around this library.

use vstd::prelude::*;

verus! {

/// A single-precision number, by its bit pattern.
#[derive(Clone, Copy, Debug, PartialEq, Eq, Structural, Hash)]
pub struct Real32 {
    /// The IEEE 754 bit pattern.
    pub bits: u32,
}

/// A double-precision number, by its bit pattern.
#[derive(Clone, Copy, Debug, PartialEq, Eq, Structural, Hash)]
pub struct Real64 {
    /// The IEEE 754 bit pattern.
    pub bits: u64,
}

/// Bit pattern of the single-precision zero.
pub const ZERO_BITS: u32 = 0x0000_0000;

/// Bit pattern of the single-precision one.
pub const ONE_BITS: u32 = 0x3f80_0000;

/// Bit pattern of the single-precision half.
pub const HALF_BITS: u32 = 0x3f00_0000;

/// Bit pattern of the double-precision one.
pub const ONE_BITS_64: u64 = 0x3ff0_0000_0000_0000;

/// Bit pattern of the double-precision half.
pub const HALF_BITS_64: u64 = 0x3fe0_0000_0000_0000;

/// Bit pattern of the double-precision infinity.
pub const INFINITY_BITS_64: u64 = 0x7ff0_0000_0000_0000;

/// Bit pattern of the double-precision negative zero.
pub const SIGN_BIT_64: u64 = 0x8000_0000_0000_0000;

impl Real32 {
    /// Position in the IEEE 754 total order.
    pub open spec fn rank(self) -> int {
        if self.bits < 0x8000_0000 {
            self.bits as int
        } else {
            0x7fff_ffff - self.bits
        }
    }

    /// Zero.
    pub fn zero() -> (r: Real32)
        ensures
            r.bits == ZERO_BITS,
    {
        Real32 { bits: ZERO_BITS }
    }

    /// One.
    pub fn one() -> (r: Real32)
        ensures
            r.bits == ONE_BITS,
    {
        Real32 { bits: ONE_BITS }
    }

    /// Position in the IEEE 754 total order.
    pub fn position(self) -> (r: i64)
        ensures
            r == self.rank(),
    {
        if self.bits < 0x8000_0000 {
            self.bits as i64
        } else {
            0x7fff_ffff - self.bits as i64
        }
    }
}

impl Real64 {
    /// Whether the number is finite and greater than zero.
    pub open spec fn positive(self) -> bool {
        0 < self.bits < INFINITY_BITS_64
    }

    /// Whether the number is below zero. A negative zero is not, nor is a NaN.
    pub open spec fn negative(self) -> bool {
        SIGN_BIT_64 < self.bits <= SIGN_BIT_64 + INFINITY_BITS_64
    }

    /// Whether the number is above one. A NaN is not.
    pub open spec fn above_one(self) -> bool {
        ONE_BITS_64 < self.bits <= INFINITY_BITS_64
    }

    /// Whether the pattern stands for no number.
    pub open spec fn nan(self) -> bool {
        ||| INFINITY_BITS_64 < self.bits < SIGN_BIT_64
        ||| self.bits > SIGN_BIT_64 + INFINITY_BITS_64
    }

    /// Position among the numbers. The two zeros share one.
    pub open spec fn magnitude(self) -> int {
        if self.bits < SIGN_BIT_64 {
            self.bits as int
        } else {
            SIGN_BIT_64 - self.bits
        }
    }

    /// Whether this is a number no smaller than another number.
    pub open spec fn reaches(self, other: Real64) -> bool {
        !self.nan() && !other.nan() && self.magnitude() >= other.magnitude()
    }

    /// The number, brought into the range from zero to one.
    pub open spec fn clamped_spec(self) -> Real64 {
        if self.negative() {
            Real64 { bits: 0 }
        } else if self.above_one() {
            Real64 { bits: ONE_BITS_64 }
        } else {
            self
        }
    }

    /// Zero.
    pub fn zero() -> (r: Real64)
        ensures
            r.bits == 0,
    {
        Real64 { bits: 0 }
    }

    /// Position among the numbers; nothing for a pattern that stands for none.
    fn place(self) -> (r: Option<i128>)
        ensures
            r == if self.nan() {
                None::<i128>
            } else {
                Some(self.magnitude() as i128)
            },
    {
        if self.bits < SIGN_BIT_64 {
            if self.bits > INFINITY_BITS_64 {
                None
            } else {
                Some(self.bits as i128)
            }
        } else if self.bits > SIGN_BIT_64 + INFINITY_BITS_64 {
            None
        } else {
            Some(SIGN_BIT_64 as i128 - self.bits as i128)
        }
    }

    /// Whether this is a number no smaller than another number.
    pub fn at_least(self, other: Real64) -> (r: bool)
        ensures
            r == self.reaches(other),
    {
        match (self.place(), other.place()) {
            (Some(a), Some(b)) => a >= b,
            _ => false,
        }
    }

    /// Whether the number is finite and greater than zero.
    pub fn is_positive(self) -> (r: bool)
        ensures
            r == self.positive(),
    {
        0 < self.bits && self.bits < INFINITY_BITS_64
    }

    /// The number, brought into the range from zero to one.
    pub fn clamped(self) -> (r: Real64)
        ensures
            r == self.clamped_spec(),
    {
        if SIGN_BIT_64 < self.bits && self.bits <= SIGN_BIT_64 + INFINITY_BITS_64 {
            Real64 { bits: 0 }
        } else if ONE_BITS_64 < self.bits && self.bits <= INFINITY_BITS_64 {
            Real64 { bits: ONE_BITS_64 }
        } else {
            self
        }
    }
}

/// Clamping is settled after one step, and leaves no number outside the range.
pub proof fn law_clamping_is_idempotent(x: Real64)
    ensures
        x.clamped_spec().clamped_spec() == x.clamped_spec(),
        !x.clamped_spec().negative(),
        !x.clamped_spec().above_one(),
{
}

/// The position in the order follows the numbers: of two numbers from zero up the one with the
/// larger pattern is the larger, of two below zero the one with the smaller, and every one from
/// zero up is larger than every one below.
pub proof fn law_positions_follow_the_numbers(x: Real32, y: Real32)
    ensures
        x.bits < 0x8000_0000 && y.bits < 0x8000_0000 ==> (x.rank() < y.rank() <==> x.bits < y.bits),
        x.bits >= 0x8000_0000 && y.bits >= 0x8000_0000 ==> (x.rank() < y.rank() <==> x.bits
            > y.bits),
        x.bits >= 0x8000_0000 && y.bits < 0x8000_0000 ==> x.rank() < y.rank(),
        x.rank() == y.rank() ==> x == y,
{
}

/// One double-precision number reaches another exactly where it is no smaller: between numbers
/// from zero up the pattern decides, a number below zero reaches none of them, and what is no
/// number reaches nothing and is reached by nothing.
pub proof fn law_reaching_follows_the_numbers(x: Real64, y: Real64)
    ensures
        x.bits <= INFINITY_BITS_64 && y.bits <= INFINITY_BITS_64 ==> (x.reaches(y) <==> x.bits
            >= y.bits),
        x.negative() && y.bits <= INFINITY_BITS_64 ==> !x.reaches(y),
        INFINITY_BITS_64 < x.bits < SIGN_BIT_64 ==> !x.reaches(y) && !y.reaches(x),
        x.bits > SIGN_BIT_64 + INFINITY_BITS_64 ==> !x.reaches(y) && !y.reaches(x),
        !x.nan() ==> x.reaches(x),
{
}

/// Clamping leaves a number between zero and one as it is, and takes every other to the nearer
/// end.
pub proof fn law_clamping_goes_to_the_nearer_end(x: Real64)
    ensures
        x.bits <= ONE_BITS_64 ==> x.clamped_spec() == x,
        ONE_BITS_64 <= x.bits <= INFINITY_BITS_64 ==> x.clamped_spec().bits == ONE_BITS_64,
        SIGN_BIT_64 < x.bits <= SIGN_BIT_64 + INFINITY_BITS_64 ==> x.clamped_spec().bits == 0,
{
}

} // verus!
