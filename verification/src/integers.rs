//! Conversions between numbers and integers.

use crate::arithmetic;
use crate::double;
use crate::double::{Double, HIDDEN_BIT, INF_BITS};
use crate::rounding;
use vstd::arithmetic::div_mod::*;
use vstd::arithmetic::mul::*;
use vstd::arithmetic::power2::*;
use vstd::bits::*;
use vstd::prelude::*;

verus! {

/// Magnitude bits of `2^63`.
const TWO_63: u64 = 0x43e0_0000_0000_0000;

/// The number nearest to an integer.
pub open spec fn whole(n: int) -> Double {
    double::signed(n < 0, rounding::round((if n < 0 { -n } else { n }) * pow2(1074), 1))
}

impl Double {
    /// The largest integer not above a finite number.
    pub open spec fn floor_int(self) -> int {
        self.value() / (pow2(1074) as int)
    }

    /// The smallest integer not below a finite number.
    pub open spec fn ceil_int(self) -> int {
        -((-self.value()) / (pow2(1074) as int))
    }

    /// The number rounded down to an integer.
    pub open spec fn floored(self) -> Double {
        if !self.finite() || self.zero() {
            self
        } else {
            whole(self.floor_int())
        }
    }

    /// The number of whole steps up to `self`: its ceiling, kept within `usize`
    /// and not below zero. A NaN counts none.
    pub open spec fn steps(self) -> int {
        if !self.positive() {
            0
        } else if self.infinite() || self.ceil_int() > usize::MAX {
            usize::MAX as int
        } else {
            self.ceil_int()
        }
    }

    /// The integer part, cut off towards zero and kept within `i64`; zero for a NaN.
    pub open spec fn truncated(self) -> int {
        if self.nan() {
            0
        } else if self.negative() {
            if self.infinite() || self.ceil_int() < i64::MIN {
                i64::MIN as int
            } else {
                self.ceil_int()
            }
        } else {
            if self.infinite() || self.floor_int() > i64::MAX {
                i64::MAX as int
            } else {
                self.floor_int()
            }
        }
    }

    pub fn from_i64(n: i64) -> (r: Double)
        ensures
            r == whole(n as int),
    {
        if n < 0 {
            let size: i128 = -(n as i128);
            Double::from_size(true, size as u64)
        } else {
            Double::from_size(false, n as u64)
        }
    }

    pub fn from_usize(n: usize) -> (r: Double)
        ensures
            r == whole(n as int),
    {
        Double::from_size(false, n as u64)
    }

    /// The number nearest to an integer given by sign and size.
    fn from_size(negative: bool, size: u64) -> (r: Double)
        requires
            negative ==> size > 0,
        ensures
            r == whole(if negative { -size } else { size as int }),
    {
        if size == 0 {
            proof {
                arithmetic::lemma_round_zero(1);
                lemma_mul_basics(pow2(1074) as int);
            }
            return Double { bits: 0 };
        }
        let ghost exact: int = size * pow2(1074);
        proof {
            lemma_pow2_pos(1074);
            lemma_pow2_pos(4000);
            lemma_pow2_adds(1074, 4000);
            assert(rounding::lift(1074) == 5074);
            assert(size * (pow2(5074) * 1) == exact * pow2(4000)) by (nonlinear_arith)
                requires
                    exact == size * pow2(1074),
                    pow2(5074) == pow2(1074) * pow2(4000),
            ;
            lemma_pow2_pos(5074);
            assert((size + 1) * (pow2(5074) * 1) > size * (pow2(5074) * 1)) by (nonlinear_arith)
                requires
                    pow2(5074) > 0,
            ;
            assert(exact >= 0) by (nonlinear_arith)
                requires
                    exact == size * pow2(1074),
                    size >= 0,
                    pow2(1074) > 0,
            ;
            arithmetic::lemma_round_range(exact, 1);
        }
        let mag: u64 = rounding::round_parts(size as u128, 1074, false, Ghost(exact), Ghost(1));
        Double::with_sign(negative, mag)
    }

    pub fn floor(self) -> (r: Double)
        ensures
            r == self.floored(),
    {
        let mag: u64 = self.mag_bits();
        if mag >= INF_BITS || mag == 0 {
            return self;
        }
        if mag >= TWO_63 {
            proof {
                lemma_whole_above(mag as int);
                lemma_floor_of_whole(self);
            }
            return self;
        }
        let (w, frac) = integer_part(mag);
        let down: i64 = if self.is_negative() {
            if frac {
                -(w as i64) - 1
            } else {
                -(w as i64)
            }
        } else {
            w as i64
        };
        proof {
            lemma_pow2_pos(1074);
            lemma_signed_division(double::units(mag as int), pow2(1074) as int);
        }
        Double::from_i64(down)
    }

    pub fn ceil_steps(self) -> (r: usize)
        ensures
            r == self.steps(),
    {
        if !self.is_positive() {
            return 0;
        }
        let mag: u64 = self.mag_bits();
        proof {
            lemma_pow2_pos(1074);
            if mag < INF_BITS {
                lemma_signed_division(double::units(mag as int), pow2(1074) as int);
            }
        }
        if mag >= TWO_63 {
            if mag < INF_BITS {
                return big_steps(mag);
            }
            return usize::MAX;
        }
        let (w, frac) = integer_part(mag);
        let up: u64 = if frac { w + 1 } else { w };
        if up > usize::MAX as u64 {
            usize::MAX
        } else {
            up as usize
        }
    }

    pub fn to_i64(self) -> (r: i64)
        ensures
            r == self.truncated(),
    {
        if self.is_nan() {
            return 0;
        }
        let mag: u64 = self.mag_bits();
        proof {
            lemma_pow2_pos(1074);
            if mag < INF_BITS {
                lemma_signed_division(double::units(mag as int), pow2(1074) as int);
                if mag >= TWO_63 {
                    lemma_beyond(mag as int);
                }
            }
        }
        if mag >= TWO_63 {
            return if self.is_negative() {
                i64::MIN
            } else {
                i64::MAX
            };
        }
        let (w, _frac) = integer_part(mag);
        if self.is_negative() {
            -(w as i64)
        } else {
            w as i64
        }
    }
}

/// Division rounds down, so the quotients of a number and of its opposite
/// differ by one wherever there is a remainder.
proof fn lemma_signed_division(n: int, d: int)
    requires
        n >= 0,
        d > 0,
    ensures
        n % d == 0 ==> (-n) / d == -(n / d),
        n % d != 0 ==> (-n) / d == -(n / d) - 1,
        n / d >= 0,
{
    lemma_fundamental_div_mod(n, d);
    lemma_mod_bound(n, d);
    lemma_div_pos_is_pos(n, d);
    let q = n / d;
    let r = n % d;
    if r == 0 {
        assert(-n == (-q) * d + 0) by (nonlinear_arith)
            requires
                n == d * q,
        ;
        lemma_fundamental_div_mod_converse(-n, d, -q, 0);
    } else {
        assert(-n == (-q - 1) * d + (d - r)) by (nonlinear_arith)
            requires
                n == d * q + r,
        ;
        lemma_fundamental_div_mod_converse(-n, d, -q - 1, d - r);
    }
}

proof fn lemma_two_63()
    ensures
        double::units(TWO_63 as int) == 0x8000_0000_0000_0000 * pow2(1074),
{
    lemma2_to64();
    lemma2_to64_rest();
    assert(double::exponent(TWO_63 as int) == 1085);
    assert(double::significand(TWO_63 as int) == HIDDEN_BIT);
    lemma_pow2_adds(11, 1074);
    assert(HIDDEN_BIT * (0x800 * pow2(1074)) == 0x8000_0000_0000_0000 * pow2(1074))
        by (nonlinear_arith);
}

/// Magnitudes of `2^63` and more lie outside `i64`.
proof fn lemma_beyond(mag: int)
    requires
        TWO_63 <= mag < INF_BITS,
    ensures
        double::units(mag) / (pow2(1074) as int) >= 0x8000_0000_0000_0000,
{
    lemma_two_63();
    lemma_pow2_pos(1074);
    arithmetic::lemma_units_order(TWO_63 as int, mag);
    let d = pow2(1074) as int;
    lemma_div_is_ordered(0x8000_0000_0000_0000 * d, double::units(mag), d);
    lemma_div_by_multiple(0x8000_0000_0000_0000, d);
}

/// Magnitudes of `2^63` and more are integers.
proof fn lemma_whole_above(mag: int)
    requires
        TWO_63 <= mag < INF_BITS,
    ensures
        double::units(mag) % (pow2(1074) as int) == 0,
        double::units(mag) == (double::units(mag) / (pow2(1074) as int)) * pow2(1074),
{
    let e = double::exponent(mag);
    let m = double::significand(mag);
    assert(e >= 1085);
    lemma_pow2_adds((e - 1074) as nat, 1074);
    lemma_pow2_pos(1074);
    let q = m * pow2((e - 1074) as nat);
    assert(double::units(mag) == q * pow2(1074)) by (nonlinear_arith)
        requires
            double::units(mag) == m * pow2(e as nat),
            pow2(e as nat) == pow2((e - 1074) as nat) * pow2(1074),
            q == m * pow2((e - 1074) as nat),
    ;
    lemma_fundamental_div_mod_converse(double::units(mag), pow2(1074) as int, q, 0);
}

proof fn lemma_floor_of_whole(x: Double)
    requires
        x.finite(),
        !x.zero(),
        double::units(x.mag()) % (pow2(1074) as int) == 0,
        double::units(x.mag()) == (double::units(x.mag()) / (pow2(1074) as int)) * pow2(1074),
    ensures
        whole(x.floor_int()) == x,
{
    let u = double::units(x.mag());
    lemma_pow2_pos(1074);
    arithmetic::lemma_units_order(x.mag(), x.mag());
    lemma_signed_division(u, pow2(1074) as int);
    crate::rounding_laws::lemma_round_exact(x.mag(), 1);
    assert(u / (pow2(1074) as int) > 0) by (nonlinear_arith)
        requires
            u == (u / (pow2(1074) as int)) * pow2(1074),
            u > 0,
            pow2(1074) > 0,
    ;
}

/// Integer part of a magnitude below `2^63`, and whether a fraction is left.
fn integer_part(mag: u64) -> (parts: (u64, bool))
    requires
        mag < TWO_63,
    ensures
        parts.0 == double::units(mag as int) / (pow2(1074) as int),
        parts.1 == (double::units(mag as int) % (pow2(1074) as int) != 0),
        parts.0 < 0x8000_0000_0000_0000,
{
    let (e, m) = Double::unpack(mag);
    let ghost u = double::units(mag as int);
    let ghost d = pow2(1074) as int;
    proof {
        lemma_pow2_pos(1074);
        lemma2_to64();
        lemma2_to64_rest();
        lemma_two_63();
        arithmetic::lemma_units_order(mag as int, TWO_63 as int);
        arithmetic::lemma_units_order(mag as int, mag as int);
        lemma_fundamental_div_mod(u, d);
        lemma_mod_bound(u, d);
        assert(u / d < 0x8000_0000_0000_0000) by (nonlinear_arith)
            requires
                u < 0x8000_0000_0000_0000 * d,
                d * (u / d) <= u,
                d > 0,
        ;
    }
    if e >= 1074 {
        let factor: u128 = rounding::power_of_two((e - 1074) as u32);
        proof {
            lemma_pow2_adds((e - 1074) as nat, 1074);
            assert(u == (m * factor) * d) by (nonlinear_arith)
                requires
                    u == m * pow2(e as nat),
                    pow2(e as nat) == factor * d,
            ;
            lemma_fundamental_div_mod_converse(u, d, m * factor, 0);
        }
        let w: u128 = (m as u128) * factor;
        (w as u64, false)
    } else {
        let shift: i32 = 1074 - e;
        proof {
            lemma_pow2_adds(shift as nat, e as nat);
            lemma_pow2_pos(e as nat);
            lemma_pow2_pos(shift as nat);
            lemma_fundamental_div_mod(m as int, pow2(shift as nat) as int);
            lemma_mod_bound(m as int, pow2(shift as nat) as int);
            let q = m as int / pow2(shift as nat) as int;
            let r = m as int % pow2(shift as nat) as int;
            let b = pow2(e as nat) as int;
            assert(u == q * d + r * b) by (nonlinear_arith)
                requires
                    u == m * b,
                    m == pow2(shift as nat) * q + r,
                    d == pow2(shift as nat) * b,
            ;
            assert(0 <= r * b < d && (r > 0 ==> r * b > 0)) by (nonlinear_arith)
                requires
                    0 <= r < pow2(shift as nat),
                    d == pow2(shift as nat) * b,
                    b > 0,
            ;
            if r == 0 {
                lemma_mul_basics(b);
            }
            lemma_fundamental_div_mod_converse(u, d, q, r * b);
        }
        if shift >= 64 {
            proof {
                if shift > 64 {
                    lemma_pow2_strictly_increases(64, shift as nat);
                }
                lemma_basic_div(m as int, pow2(shift as nat) as int);
                lemma_small_mod(m as nat, pow2(shift as nat));
            }
            (0, m != 0)
        } else {
            proof {
                lemma_u64_shr_is_div(m, shift as u64);
            }
            let w: u64 = m >> (shift as u64);
            let back: u128 = rounding::power_of_two(shift as u32);
            assert(w * back <= m) by (nonlinear_arith)
                requires
                    w == m as int / back as int,
                    back > 0,
                    m == back * (m as int / back as int) + m as int % back as int,
                    m as int % back as int >= 0,
            ;
            let ghost r = m as int % pow2(shift as nat) as int;
            assert(w * back == m - r) by (nonlinear_arith)
                requires
                    w == m as int / back as int,
                    m == back * (m as int / back as int) + r,
            ;
            (w, (w as u128) * back != m as u128)
        }
    }
}

/// Steps up to a magnitude of at least `2^63`.
fn big_steps(mag: u64) -> (r: usize)
    requires
        TWO_63 <= mag < INF_BITS,
    ensures
        r == (Double { bits: mag }).steps(),
{
    let (e, m) = Double::unpack(mag);
    let ghost u = double::units(mag as int);
    let ghost d = pow2(1074) as int;
    proof {
        lemma_whole_above(mag as int);
        lemma_beyond(mag as int);
        lemma_pow2_pos(1074);
        arithmetic::lemma_units_order(mag as int, mag as int);
        lemma_signed_division(u, d);
        lemma_pow2_adds((e - 1074) as nat, 1074);
        let q = m * pow2((e - 1074) as nat);
        assert(u == q * d) by (nonlinear_arith)
            requires
                u == m * pow2(e as nat),
                pow2(e as nat) == pow2((e - 1074) as nat) * d,
                q == m * pow2((e - 1074) as nat),
        ;
        lemma_fundamental_div_mod_converse(u, d, q, 0);
    }
    if e == 1085 {
        proof {
            lemma2_to64();
        }
        let w: u64 = m * 0x800;
        if w > usize::MAX as u64 {
            usize::MAX
        } else {
            w as usize
        }
    } else {
        proof {
            lemma2_to64();
            lemma_pow2_adds(12, (e - 1086) as nat);
            lemma_pow2_pos((e - 1086) as nat);
            assert(m * pow2((e - 1074) as nat) >= 0x1_0000_0000_0000_0000) by (nonlinear_arith)
                requires
                    m >= HIDDEN_BIT,
                    pow2((e - 1074) as nat) == 0x1000 * pow2((e - 1086) as nat),
                    pow2((e - 1086) as nat) >= 1,
            ;
        }
        usize::MAX
    }
}

} // verus!
