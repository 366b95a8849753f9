//! IEEE 754 double-precision numbers, held as their bit patterns.

use vstd::arithmetic::power2::*;
use vstd::prelude::*;

verus! {

/// Weight of the sign bit.
pub const SIGN_BIT: u64 = 0x8000_0000_0000_0000;

/// Magnitude bits of infinity: smaller magnitudes are finite, larger ones NaN.
pub const INF_BITS: u64 = 0x7ff0_0000_0000_0000;

/// Weight of the lowest exponent bit, `2^52`.
pub const HIDDEN_BIT: u64 = 0x10_0000_0000_0000;

/// The NaN that a failed computation answers with.
pub const NAN_BITS: u64 = 0x7ff8_0000_0000_0000;

/// `-1.0`.
pub const MINUS_ONE: u64 = 0xbff0_0000_0000_0000;

/// `1.0`.
pub const ONE: u64 = 0x3ff0_0000_0000_0000;

/// `2.0`.
pub const TWO: u64 = 0x4000_0000_0000_0000;

/// A double-precision number, given by its bits.
///
/// `==` compares bits. Numeric comparison, under which the two zeros are equal
/// and a NaN equals nothing, is [`Double::is_eq`].
#[derive(Clone, Copy, Debug, PartialEq, Eq, Structural)]
pub struct Double {
    pub bits: u64,
}

/// Binary exponent, in units of `2^-1074`, that magnitude bits stand for.
pub open spec fn exponent(mag: int) -> int {
    if mag < HIDDEN_BIT {
        0
    } else {
        mag / (HIDDEN_BIT as int) - 1
    }
}

/// Significand that magnitude bits stand for.
pub open spec fn significand(mag: int) -> int {
    mag - exponent(mag) * HIDDEN_BIT
}

/// The magnitude, as a whole number of units of `2^-1074`.
pub open spec fn units(mag: int) -> int {
    significand(mag) * pow2(exponent(mag) as nat)
}

/// The number with a given sign and given magnitude bits.
pub open spec fn signed(negative: bool, mag: int) -> Double {
    Double { bits: (if negative { SIGN_BIT + mag } else { mag }) as u64 }
}

impl Double {
    /// The number with the given bits.
    #[verifier::allow_in_spec]
    pub fn from_bits(bits: u64) -> Double
        returns
            (Double { bits }),
    {
        Double { bits }
    }

    /// The sign bit is set.
    pub open spec fn negative(self) -> bool {
        self.bits >= SIGN_BIT
    }

    /// All bits but the sign.
    pub open spec fn mag(self) -> int {
        if self.bits >= SIGN_BIT {
            self.bits - SIGN_BIT
        } else {
            self.bits as int
        }
    }

    /// Neither infinite nor NaN.
    pub open spec fn finite(self) -> bool {
        self.mag() < INF_BITS
    }

    pub open spec fn nan(self) -> bool {
        self.mag() > INF_BITS
    }

    pub open spec fn infinite(self) -> bool {
        self.mag() == INF_BITS
    }

    /// A zero of either sign.
    pub open spec fn zero(self) -> bool {
        self.mag() == 0
    }

    /// The exact value of a finite number, in units of `2^-1074`.
    pub open spec fn value(self) -> int {
        if self.negative() {
            -units(self.mag())
        } else {
            units(self.mag())
        }
    }

    /// Position among all numbers; the two zeros share one.
    pub open spec fn key(self) -> int {
        if self.negative() {
            -self.mag()
        } else {
            self.mag()
        }
    }

    /// Position in the total order of bit patterns, where `-0.0` comes just
    /// below `+0.0` and NaNs lie beyond the infinities.
    pub open spec fn rank(self) -> int {
        if self.negative() {
            -self.mag() - 1
        } else {
            self.mag()
        }
    }

    /// `self < other`.
    pub open spec fn lt(self, other: Double) -> bool {
        !self.nan() && !other.nan() && self.key() < other.key()
    }

    /// `self <= other`.
    pub open spec fn le(self, other: Double) -> bool {
        !self.nan() && !other.nan() && self.key() <= other.key()
    }

    /// `self == other` as numbers.
    pub open spec fn same(self, other: Double) -> bool {
        !self.nan() && !other.nan() && self.key() == other.key()
    }

    /// `self > 0`.
    pub open spec fn positive(self) -> bool {
        !self.nan() && !self.negative() && !self.zero()
    }

    /// The number with the sign flipped.
    pub open spec fn opposite(self) -> Double {
        signed(!self.negative(), self.mag())
    }

    /// The number with the sign cleared.
    pub open spec fn magnitude(self) -> Double {
        signed(false, self.mag())
    }

    /// The magnitude bits.
    pub fn mag_bits(self) -> (mag: u64)
        ensures
            mag == self.mag(),
    {
        if self.bits >= SIGN_BIT {
            self.bits - SIGN_BIT
        } else {
            self.bits
        }
    }

    pub fn is_negative(self) -> (r: bool)
        ensures
            r == self.negative(),
    {
        self.bits >= SIGN_BIT
    }

    pub fn is_finite(self) -> (r: bool)
        ensures
            r == self.finite(),
    {
        self.mag_bits() < INF_BITS
    }

    pub fn is_nan(self) -> (r: bool)
        ensures
            r == self.nan(),
    {
        self.mag_bits() > INF_BITS
    }

    pub fn is_zero(self) -> (r: bool)
        ensures
            r == self.zero(),
    {
        self.mag_bits() == 0
    }

    pub fn is_positive(self) -> (r: bool)
        ensures
            r == self.positive(),
    {
        0 < self.bits && self.bits <= INF_BITS
    }

    /// Builds a number from sign and magnitude bits.
    pub(crate) fn with_sign(negative: bool, mag: u64) -> (r: Double)
        requires
            mag < SIGN_BIT,
        ensures
            r == signed(negative, mag as int),
            r.mag() == mag,
            r.negative() == negative,
    {
        if negative {
            Double { bits: SIGN_BIT + mag }
        } else {
            Double { bits: mag }
        }
    }

    pub fn neg(self) -> (r: Double)
        ensures
            r == self.opposite(),
    {
        Double::with_sign(!self.is_negative(), self.mag_bits())
    }

    pub fn abs(self) -> (r: Double)
        ensures
            r == self.magnitude(),
    {
        Double::with_sign(false, self.mag_bits())
    }

    /// `self < other`: false whenever either is NaN.
    pub fn is_lt(self, other: Double) -> (r: bool)
        ensures
            r == self.lt(other),
    {
        if self.is_nan() || other.is_nan() {
            return false;
        }
        let a: u64 = self.mag_bits();
        let b: u64 = other.mag_bits();
        if self.is_negative() {
            if other.is_negative() {
                b < a
            } else {
                0 < a || 0 < b
            }
        } else {
            if other.is_negative() {
                false
            } else {
                a < b
            }
        }
    }

    /// `self == other` as numbers: false whenever either is NaN.
    pub fn is_eq(self, other: Double) -> (r: bool)
        ensures
            r == self.same(other),
    {
        if self.is_nan() || other.is_nan() {
            return false;
        }
        self.bits == other.bits || (self.is_zero() && other.is_zero())
    }

    /// `self <= other`: false whenever either is NaN.
    pub fn is_le(self, other: Double) -> (r: bool)
        ensures
            r == self.le(other),
    {
        self.is_lt(other) || self.is_eq(other)
    }

    /// Comes strictly before `other` in the total order of bit patterns.
    pub fn ranks_below(self, other: Double) -> (r: bool)
        ensures
            r == (self.rank() < other.rank()),
    {
        let a: u64 = self.mag_bits();
        let b: u64 = other.mag_bits();
        if self.is_negative() {
            if other.is_negative() {
                b < a
            } else {
                true
            }
        } else {
            if other.is_negative() {
                false
            } else {
                a < b
            }
        }
    }

    /// Exponent and significand of a finite magnitude.
    pub(crate) fn unpack(mag: u64) -> (parts: (i32, u64))
        requires
            mag < INF_BITS,
        ensures
            parts.0 == exponent(mag as int),
            parts.1 == significand(mag as int),
            0 <= parts.0 <= 2045,
            parts.1 < 2 * HIDDEN_BIT,
            parts.0 > 0 ==> parts.1 >= HIDDEN_BIT,
            mag > 0 ==> parts.1 > 0,
    {
        if mag < HIDDEN_BIT {
            (0, mag)
        } else {
            let field: u64 = mag / HIDDEN_BIT;
            ((field - 1) as i32, mag - (field - 1) * HIDDEN_BIT)
        }
    }
}

/// A lower rank never has a higher key.
pub proof fn lemma_rank_key(a: Double, b: Double)
    requires
        a.rank() <= b.rank(),
    ensures
        a.key() <= b.key(),
{
}

} // verus!
