//! Binary floating-point numbers, held by their bit patterns.
//!
//! The similarity score and the transform coefficients are computed in binary64
//! arithmetic outside the library. The library stores, compares and hands back such a
//! number without computing with it, so the bit pattern is all that it needs.
use vstd::prelude::*;

verus! {

/// The bit of the sign.
pub const SIGN_BIT: u64 = 0x8000_0000_0000_0000;

/// The bit pattern of the positive infinity; what is above it, the sign set aside, is
/// not a number.
pub const INFINITY_BITS: u64 = 0x7FF0_0000_0000_0000;

/// The bit pattern of 0.0.
pub const ZERO_BITS: u64 = 0;

/// The bit pattern of 1.0.
pub const ONE_BITS: u64 = 0x3FF0_0000_0000_0000;

/// An IEEE 754 binary64 number, by its bit pattern.
#[derive(Clone, Copy, Debug, PartialEq, Eq, Structural)]
pub struct Binary64 {
    pub bits: u64,
}

impl Binary64 {
    /// The exponent and the fraction, read as one integer.
    pub open spec fn magnitude(self) -> int {
        if self.bits < SIGN_BIT {
            self.bits as int
        } else {
            self.bits - SIGN_BIT
        }
    }

    /// The place of the number among all numbers: binary64 numbers are ordered as these
    /// integers are, and the two zeros share one place.
    pub open spec fn place(self) -> int {
        if self.bits < SIGN_BIT {
            self.magnitude()
        } else {
            -self.magnitude()
        }
    }

    /// Whether the pattern encodes no number.
    pub open spec fn nan(self) -> bool {
        self.magnitude() > INFINITY_BITS
    }

    /// `self < other`, as IEEE 754 compares: false where one side is not a number.
    pub open spec fn lt(self, other: Binary64) -> bool {
        !self.nan() && !other.nan() && self.place() < other.place()
    }

    /// `self >= other`, as IEEE 754 compares: false where one side is not a number.
    pub open spec fn ge(self, other: Binary64) -> bool {
        !self.nan() && !other.nan() && self.place() >= other.place()
    }

    /// The number with the given bit pattern.
    pub fn from_bits(bits: u64) -> (r: Binary64)
        ensures
            r.bits == bits,
    {
        Binary64 { bits }
    }

    /// The bit pattern of the number.
    pub fn to_bits(self) -> (r: u64)
        ensures
            r == self.bits,
    {
        self.bits
    }

    /// Whether the pattern encodes no number.
    pub fn is_nan(self) -> (r: bool)
        ensures
            r == self.nan(),
    {
        let magnitude: u64 = if self.bits < SIGN_BIT {
            self.bits
        } else {
            self.bits - SIGN_BIT
        };
        magnitude > INFINITY_BITS
    }

    /// The place of the number in the order of all numbers.
    pub fn position(self) -> (r: i64)
        ensures
            r == self.place(),
    {
        if self.bits < SIGN_BIT {
            self.bits as i64
        } else {
            -((self.bits - SIGN_BIT) as i64)
        }
    }

    /// `self < other`.
    pub fn less_than(self, other: Binary64) -> (r: bool)
        ensures
            r == self.lt(other),
    {
        !self.is_nan() && !other.is_nan() && self.position() < other.position()
    }

    /// `self >= other`.
    pub fn at_least(self, other: Binary64) -> (r: bool)
        ensures
            r == self.ge(other),
    {
        !self.is_nan() && !other.is_nan() && self.position() >= other.position()
    }
}

/// How numbers compare, told by their bit patterns: numbers without a sign as the patterns,
/// numbers with one the other way round, and a number with a sign is below one without,
/// unless both are zero. A pattern above infinity, the sign set aside, compares with nothing.
pub proof fn numbers_compare_by_their_patterns(a: Binary64, b: Binary64)
    ensures
        a.bits <= 0x7FF0_0000_0000_0000 && b.bits <= 0x7FF0_0000_0000_0000 ==> (a.lt(b)
            <==> a.bits < b.bits) && (a.ge(b) <==> a.bits >= b.bits),
        0x8000_0000_0000_0000 <= a.bits <= 0xFFF0_0000_0000_0000 && 0x8000_0000_0000_0000 <= b.bits
            <= 0xFFF0_0000_0000_0000 ==> (a.lt(b) <==> a.bits > b.bits) && (a.ge(b) <==> a.bits
            <= b.bits),
        0x8000_0000_0000_0000 <= a.bits <= 0xFFF0_0000_0000_0000 && b.bits <= 0x7FF0_0000_0000_0000
            ==> (a.ge(b) <==> a.bits == 0x8000_0000_0000_0000 && b.bits == 0) && (a.lt(b)
            <==> !a.ge(b)),
        a.bits <= 0x7FF0_0000_0000_0000 && 0x8000_0000_0000_0000 <= b.bits
            <= 0xFFF0_0000_0000_0000 ==> a.ge(b) && !a.lt(b),
        (0x7FF0_0000_0000_0000 < a.bits < 0x8000_0000_0000_0000 || a.bits > 0xFFF0_0000_0000_0000
            || 0x7FF0_0000_0000_0000 < b.bits < 0x8000_0000_0000_0000 || b.bits
            > 0xFFF0_0000_0000_0000) ==> !a.lt(b) && !a.ge(b),
{
}

/// The places of numbers are in the order of the numbers.
pub proof fn places_are_in_the_order_of_numbers(a: Binary64, b: Binary64)
    requires
        !a.nan(),
        !b.nan(),
    ensures
        a.place() < b.place() <==> a.lt(b),
        a.place() >= b.place() <==> a.ge(b),
        a.nan() <==> 0x7FF0_0000_0000_0000 < a.bits < 0x8000_0000_0000_0000 || a.bits
            > 0xFFF0_0000_0000_0000,
{
}

} // verus!
