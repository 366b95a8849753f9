//! Addition, subtraction, multiplication and division, each the exact result
//! rounded once.

use crate::double;
use crate::double::{Double, HIDDEN_BIT, INF_BITS, NAN_BITS};
use crate::rounding;
use vstd::arithmetic::div_mod::*;
use vstd::arithmetic::mul::*;
use vstd::arithmetic::power2::*;
use vstd::bits::*;
use vstd::prelude::*;

verus! {

/// `2^64`.
const WORD: u128 = 0x1_0000_0000_0000_0000;

impl Double {
    /// `self + other`.
    pub open spec fn sum(self, other: Double) -> Double {
        if self.nan() || other.nan() {
            Double { bits: NAN_BITS }
        } else if self.infinite() {
            if other.infinite() && self.negative() != other.negative() {
                Double { bits: NAN_BITS }
            } else {
                self
            }
        } else if other.infinite() {
            other
        } else {
            let exact = self.value() + other.value();
            if exact == 0 {
                double::signed(self.negative() && other.negative(), 0)
            } else if exact > 0 {
                double::signed(false, rounding::round(exact, 1))
            } else {
                double::signed(true, rounding::round(-exact, 1))
            }
        }
    }

    /// `self - other`.
    pub open spec fn difference(self, other: Double) -> Double {
        self.sum(other.opposite())
    }

    /// `self * other`.
    pub open spec fn product(self, other: Double) -> Double {
        let negative = self.negative() != other.negative();
        if self.nan() || other.nan() {
            Double { bits: NAN_BITS }
        } else if self.infinite() || other.infinite() {
            if self.zero() || other.zero() {
                Double { bits: NAN_BITS }
            } else {
                double::signed(negative, INF_BITS as int)
            }
        } else {
            let exact = double::units(self.mag()) * double::units(other.mag());
            double::signed(negative, rounding::round(exact, pow2(1074) as int))
        }
    }

    /// `self / other`.
    pub open spec fn quotient(self, other: Double) -> Double {
        let negative = self.negative() != other.negative();
        if self.nan() || other.nan() {
            Double { bits: NAN_BITS }
        } else if self.infinite() {
            if other.infinite() {
                Double { bits: NAN_BITS }
            } else {
                double::signed(negative, INF_BITS as int)
            }
        } else if other.infinite() {
            double::signed(negative, 0)
        } else if other.zero() {
            if self.zero() {
                Double { bits: NAN_BITS }
            } else {
                double::signed(negative, INF_BITS as int)
            }
        } else {
            double::signed(
                negative,
                rounding::round(
                    double::units(self.mag()) * pow2(1074),
                    double::units(other.mag()),
                ),
            )
        }
    }

    pub fn plus(self, other: Double) -> (r: Double)
        ensures
            r == self.sum(other),
    {
        if self.is_nan() || other.is_nan() {
            return Double { bits: NAN_BITS };
        }
        let a: u64 = self.mag_bits();
        let b: u64 = other.mag_bits();
        if a == INF_BITS {
            if b == INF_BITS && self.is_negative() != other.is_negative() {
                return Double { bits: NAN_BITS };
            }
            return self;
        }
        if b == INF_BITS {
            return other;
        }
        proof {
            lemma_units_order(b as int, a as int);
            lemma_units_order(a as int, b as int);
            lemma_round_zero(1);
        }
        if self.is_negative() == other.is_negative() {
            let mag: u64 = if a >= b { combine(a, b, false) } else { combine(b, a, false) };
            Double::with_sign(self.is_negative(), mag)
        } else if a == b {
            Double { bits: 0 }
        } else if a > b {
            let mag: u64 = combine(a, b, true);
            Double::with_sign(self.is_negative(), mag)
        } else {
            let mag: u64 = combine(b, a, true);
            Double::with_sign(other.is_negative(), mag)
        }
    }

    pub fn minus(self, other: Double) -> (r: Double)
        ensures
            r == self.difference(other),
    {
        self.plus(other.neg())
    }

    pub fn times(self, other: Double) -> (r: Double)
        ensures
            r == self.product(other),
    {
        if self.is_nan() || other.is_nan() {
            return Double { bits: NAN_BITS };
        }
        let negative: bool = self.is_negative() != other.is_negative();
        let a: u64 = self.mag_bits();
        let b: u64 = other.mag_bits();
        if a == INF_BITS || b == INF_BITS {
            if a == 0 || b == 0 {
                return Double { bits: NAN_BITS };
            }
            return Double::with_sign(negative, INF_BITS);
        }
        let mag: u64 = multiply(a, b);
        Double::with_sign(negative, mag)
    }

    pub fn over(self, other: Double) -> (r: Double)
        ensures
            r == self.quotient(other),
    {
        if self.is_nan() || other.is_nan() {
            return Double { bits: NAN_BITS };
        }
        let negative: bool = self.is_negative() != other.is_negative();
        let a: u64 = self.mag_bits();
        let b: u64 = other.mag_bits();
        if a == INF_BITS {
            if b == INF_BITS {
                return Double { bits: NAN_BITS };
            }
            return Double::with_sign(negative, INF_BITS);
        }
        if b == INF_BITS {
            return Double::with_sign(negative, 0);
        }
        if b == 0 {
            if a == 0 {
                return Double { bits: NAN_BITS };
            }
            return Double::with_sign(negative, INF_BITS);
        }
        let mag: u64 = divide(a, b);
        Double::with_sign(negative, mag)
    }
}

/// Rounding yields magnitude bits up to those of infinity.
pub proof fn lemma_round_range(n: int, d: int)
    requires
        n >= 0,
        d > 0,
    ensures
        0 <= rounding::round(n, d) <= INF_BITS,
{
    let e = rounding::scale(n, d);
    lemma_pow2_pos(e);
    assert(d * pow2(e) > 0) by (nonlinear_arith)
        requires
            d > 0,
            pow2(e) > 0,
    ;
    lemma_div_pos_is_pos(n, d * pow2(e));
}

pub proof fn lemma_round_zero(d: int)
    requires
        d > 0,
    ensures
        rounding::round(0, d) == 0,
{
    lemma2_to64();
    lemma_div_basics(d);
    lemma_small_mod(0, d as nat);
    assert(d * pow2(0) == d);
}

/// Larger magnitude bits stand for larger magnitudes.
pub proof fn lemma_units_order(a: int, b: int)
    requires
        0 <= a,
        0 <= b,
    ensures
        a < b ==> double::units(a) < double::units(b),
        a <= b ==> double::units(a) <= double::units(b),
        double::units(a) >= 0,
        a > 0 <==> double::units(a) > 0,
        a <= b ==> double::exponent(a) <= double::exponent(b),
{
    let (e, m) = (double::exponent(a), double::significand(a));
    let (f, k) = (double::exponent(b), double::significand(b));
    lemma_pow2_pos(e as nat);
    lemma_pow2_pos(f as nat);
    assert(double::units(a) >= 0 && (a > 0 <==> double::units(a) > 0)) by (nonlinear_arith)
        requires
            double::units(a) == m * pow2(e as nat),
            m >= 0,
            a > 0 <==> m > 0,
            pow2(e as nat) > 0,
    ;
    if a < b {
        if e == f {
            assert(m * pow2(e as nat) < k * pow2(e as nat)) by (nonlinear_arith)
                requires
                    m < k,
                    pow2(e as nat) > 0,
            ;
        } else {
            lemma_pow2_adds(e as nat, (f - e) as nat);
            lemma_pow2_unfold((f - e) as nat);
            lemma_pow2_pos((f - e - 1) as nat);
            assert(m < 2 * HIDDEN_BIT <= 2 * k);
            assert(2 * k <= k * pow2((f - e) as nat)) by (nonlinear_arith)
                requires
                    k >= 0,
                    pow2((f - e) as nat) >= 2,
            ;
            assert(m * pow2(e as nat) < (k * pow2((f - e) as nat)) * pow2(e as nat))
                by (nonlinear_arith)
                requires
                    m < k * pow2((f - e) as nat),
                    pow2(e as nat) > 0,
            ;
            assert((k * pow2((f - e) as nat)) * pow2(e as nat) == k * (pow2(e as nat) * pow2(
                (f - e) as nat,
            ))) by (nonlinear_arith);
        }
    }
}

/// Sum or difference of two finite magnitudes, rounded.
fn combine(hi: u64, lo: u64, subtract: bool) -> (mag: u64)
    requires
        lo <= hi < INF_BITS,
    ensures
        mag == rounding::round(
            if subtract {
                double::units(hi as int) - double::units(lo as int)
            } else {
                double::units(hi as int) + double::units(lo as int)
            },
            1,
        ),
        mag <= INF_BITS,
{
    let (e, m) = Double::unpack(hi);
    let (f, k) = Double::unpack(lo);
    let ghost n: int = if subtract {
        double::units(hi as int) - double::units(lo as int)
    } else {
        double::units(hi as int) + double::units(lo as int)
    };
    proof {
        lemma_units_order(lo as int, hi as int);
        lemma_units_order(hi as int, lo as int);
        lemma_round_range(n, 1);
        lemma_round_zero(1);
    }
    let gap: i32 = e - f;
    if gap <= 64 {
        let factor: u128 = rounding::power_of_two(gap as u32);
        proof {
            lemma2_to64();
            lemma2_to64_rest();
            if gap < 64 {
                lemma_pow2_strictly_increases(gap as nat, 64);
            }
            lemma_pow2_pos(gap as nat);
            assert(0 <= m * factor <= m * pow2(64)) by (nonlinear_arith)
                requires
                    0 < factor <= pow2(64),
                    m >= 0,
            ;
            assert(m * factor >= k) by {
                if gap == 0 {
                    assert(m * factor == m) by (nonlinear_arith)
                        requires
                            factor == 1,
                    ;
                } else {
                    lemma_pow2_unfold(gap as nat);
                    lemma_pow2_pos((gap - 1) as nat);
                    assert(m * factor >= m * 2) by (nonlinear_arith)
                        requires
                            factor >= 2,
                            m >= 0,
                    ;
                }
            }
        }
        let big: u128 = (m as u128) * factor;
        let total: u128 = if subtract { big - k as u128 } else { big + k as u128 };
        proof {
            lemma_pow2_adds(gap as nat, f as nat);
            lemma_pow2_adds(f as nat, 4000);
            let b = pow2(f as nat) as int;
            assert(m * pow2(e as nat) == (m * factor) * b) by (nonlinear_arith)
                requires
                    pow2(e as nat) == factor * b,
            ;
            assert((m * factor) * b + k * b == (m * factor + k) * b) by (nonlinear_arith);
            assert((m * factor) * b - k * b == (m * factor - k) * b) by (nonlinear_arith);
            assert(n == total * b);
            lemma_pow2_pos(f as nat);
            lemma_pow2_pos(4000);
            assert(total * (pow2((f + 4000) as nat) * 1) == n * pow2(4000)) by (nonlinear_arith)
                requires
                    n == total * b,
                    pow2((f + 4000) as nat) == b * pow2(4000),
            ;
            lemma_pow2_pos((f + 4000) as nat);
            assert((total + 1) * (pow2((f + 4000) as nat) * 1) > total * (pow2((f + 4000) as nat)
                * 1)) by (nonlinear_arith)
                requires
                    pow2((f + 4000) as nat) > 0,
            ;
        }
        if total == 0 {
            assert(n == 0) by (nonlinear_arith)
                requires
                    n == total * pow2(f as nat),
                    total == 0,
            ;
            return 0;
        }
        rounding::round_parts(total, f, false, Ghost(n), Ghost(1))
    } else {
        let drop: i32 = gap - 64;
        let part: u64 = if drop >= 64 {
            0
        } else {
            k >> (drop as u64)
        };
        proof {
            lemma2_to64();
            lemma2_to64_rest();
            lemma_pow2_pos(drop as nat);
            if drop >= 64 {
                if drop > 64 {
                    lemma_pow2_strictly_increases(64, drop as nat);
                }
                lemma_basic_div(k as int, pow2(drop as nat) as int);
            } else {
                lemma_u64_shr_is_div(k, drop as u64);
            }
            lemma_fundamental_div_mod(k as int, pow2(drop as nat) as int);
            lemma_mod_bound(k as int, pow2(drop as nat) as int);
            lemma_mul_is_commutative(part as int, pow2(drop as nat) as int);
        }
        let ghost rest: int = k as int - part * pow2(drop as nat);
        let lost: bool = if drop >= 64 {
            k != 0
        } else {
            let back: u128 = rounding::power_of_two(drop as u32);
            assert(part * back <= k) by (nonlinear_arith)
                requires
                    rest >= 0,
                    rest == k as int - part * back,
            ;
            (part as u128) * back != k as u128
        };
        assert(lost <==> rest > 0);
        let big: u128 = (m as u128) * WORD;
        let total: u128 = if subtract {
            big - part as u128 - (if lost { 1u128 } else { 0u128 })
        } else {
            big + part as u128
        };
        proof {
            lemma_sandwich(m as int, k as int, e as int, f as int, part as int, rest, lost, subtract, n);
        }
        rounding::round_parts(total, e - 64, lost, Ghost(n), Ghost(1))
    }
}

/// Aligning a much smaller operand cuts it off below the last kept place.
proof fn lemma_sandwich(
    m: int,
    k: int,
    e: int,
    f: int,
    part: int,
    rest: int,
    lost: bool,
    subtract: bool,
    n: int,
)
    requires
        0 <= f,
        e - f > 64,
        e <= 2045,
        0 <= rest < pow2((e - f - 64) as nat),
        k == part * pow2((e - f - 64) as nat) + rest,
        lost <==> rest > 0,
        n == if subtract {
            m * pow2(e as nat) - k * pow2(f as nat)
        } else {
            m * pow2(e as nat) + k * pow2(f as nat)
        },
    ensures
        rounding::truncation_of(
            if subtract {
                m * WORD - part - (if lost {
                    1int
                } else {
                    0int
                })
            } else {
                m * WORD + part
            },
            e - 64,
            lost,
            n,
            1,
        ),
{
    let drop = (e - f - 64) as nat;
    let a = pow2((e - 64 + 4000) as nat) as int;
    let b = pow2((f + 4000) as nat) as int;
    let p = pow2(4000) as int;
    let h = pow2(drop) as int;
    lemma2_to64();
    lemma_pow2_adds(64, (e - 64 + 4000) as nat);
    lemma_pow2_adds(drop, (f + 4000) as nat);
    lemma_pow2_adds(e as nat, 4000);
    lemma_pow2_adds(f as nat, 4000);
    lemma_pow2_pos((f + 4000) as nat);
    assert(a == h * b);
    assert(pow2(e as nat) * p == WORD * a);
    assert(pow2(f as nat) * p == b);
    let x = m * pow2(e as nat);
    let y = k * pow2(f as nat);
    assert(x * p == (m * WORD) * a) by (nonlinear_arith)
        requires
            x == m * pow2(e as nat),
            pow2(e as nat) * p == WORD * a,
    ;
    assert(y * p == k * b) by (nonlinear_arith)
        requires
            y == k * pow2(f as nat),
            pow2(f as nat) * p == b,
    ;
    assert(k * b == part * a + rest * b) by (nonlinear_arith)
        requires
            k == part * h + rest,
            a == h * b,
    ;
    assert(0 <= rest * b < a) by (nonlinear_arith)
        requires
            0 <= rest < h,
            a == h * b,
            b > 0,
    ;
    assert(rest > 0 ==> rest * b > 0) by (nonlinear_arith)
        requires
            b > 0,
    ;
    let t = m * WORD;
    if subtract {
        assert((x - y) * p == x * p - y * p) by (nonlinear_arith);
        let c: int = if lost { 1 } else { 0 };
        assert((t - part - c) * a == t * a - part * a - c * a) by (nonlinear_arith);
        assert((t - part - c + 1) * a == t * a - part * a - c * a + a) by (nonlinear_arith);
        if lost {
            assert(c * a == a);
        } else {
            assert(rest * b == 0);
            assert(c * a == 0);
        }
    } else {
        assert((x + y) * p == x * p + y * p) by (nonlinear_arith);
        assert((t + part) * a == t * a + part * a) by (nonlinear_arith);
        assert((t + part + 1) * a == t * a + part * a + a) by (nonlinear_arith);
        if !lost {
            assert(rest * b == 0);
        }
    }
    assert(rounding::lift(e - 64) == (e - 64 + 4000) as nat);
}

/// Product of two finite magnitudes, rounded.
fn multiply(a: u64, b: u64) -> (mag: u64)
    requires
        a < INF_BITS,
        b < INF_BITS,
    ensures
        mag == rounding::round(
            double::units(a as int) * double::units(b as int),
            pow2(1074) as int,
        ),
        mag <= INF_BITS,
{
    let (e, m) = Double::unpack(a);
    let (f, k) = Double::unpack(b);
    let ghost n: int = double::units(a as int) * double::units(b as int);
    proof {
        lemma_pow2_pos(1074);
        lemma_units_order(a as int, a as int);
        lemma_units_order(b as int, b as int);
        assert(n >= 0) by (nonlinear_arith)
            requires
                n == double::units(a as int) * double::units(b as int),
                double::units(a as int) >= 0,
                double::units(b as int) >= 0,
        ;
        lemma_round_range(n, pow2(1074) as int);
        lemma_round_zero(pow2(1074) as int);
        assert(m * k <= (2 * HIDDEN_BIT) * (2 * HIDDEN_BIT)) by (nonlinear_arith)
            requires
                0 <= m <= 2 * HIDDEN_BIT,
                0 <= k <= 2 * HIDDEN_BIT,
        ;
        assert(m * k >= 0) by (nonlinear_arith)
            requires
                m >= 0,
                k >= 0,
        ;
    }
    let total: u128 = (m as u128) * (k as u128);
    let x: i32 = e + f - 1074;
    proof {
        let d = pow2(1074) as int;
        let p = pow2(4000) as int;
        lemma_pow2_adds(e as nat, f as nat);
        lemma_pow2_adds((e + f) as nat, 4000);
        lemma_pow2_adds(rounding::lift(x as int), 1074);
        assert(rounding::lift(x as int) + 1074 == (e + f) as nat + 4000);
        let ef = pow2((e + f) as nat) as int;
        assert(n == total * ef) by (nonlinear_arith)
            requires
                n == (m * pow2(e as nat)) * (k * pow2(f as nat)),
                total == m * k,
                ef == pow2(e as nat) * pow2(f as nat),
        ;
        assert(n * p == total * (pow2(rounding::lift(x as int)) * d)) by (nonlinear_arith)
            requires
                n == total * ef,
                ef * p == pow2(rounding::lift(x as int)) * d,
        ;
        let step = pow2(rounding::lift(x as int)) * d;
        lemma_pow2_pos(rounding::lift(x as int));
        assert(step > 0) by (nonlinear_arith)
            requires
                d > 0,
                pow2(rounding::lift(x as int)) > 0,
                step == pow2(rounding::lift(x as int)) * d,
        ;
        assert((total + 1) * step > total * step) by (nonlinear_arith)
            requires
                step > 0,
        ;
    }
    if total == 0 {
        assert(n == 0) by (nonlinear_arith)
            requires
                n == total * pow2((e + f) as nat),
                total == 0,
        ;
        return 0;
    }
    rounding::round_parts(total, x, false, Ghost(n), Ghost(pow2(1074) as int))
}

/// Quotient of two finite magnitudes, rounded.
fn divide(a: u64, b: u64) -> (mag: u64)
    requires
        a < INF_BITS,
        0 < b < INF_BITS,
    ensures
        mag == rounding::round(
            double::units(a as int) * pow2(1074),
            double::units(b as int),
        ),
        mag <= INF_BITS,
{
    let (e, m) = Double::unpack(a);
    let (f, k) = Double::unpack(b);
    let ghost n: int = double::units(a as int) * pow2(1074);
    let ghost d: int = double::units(b as int);
    proof {
        lemma_pow2_pos(1074);
        lemma_units_order(a as int, a as int);
        lemma_units_order(b as int, b as int);
        assert(n >= 0) by (nonlinear_arith)
            requires
                n == double::units(a as int) * pow2(1074),
                double::units(a as int) >= 0,
                pow2(1074) > 0,
        ;
        lemma_round_range(n, d);
        lemma_round_zero(d);
    }
    if m == 0 {
        assert(n == 0) by (nonlinear_arith)
            requires
                n == (m * pow2(e as nat)) * pow2(1074),
                m == 0,
        ;
        return 0;
    }
    let len: u32 = rounding::bit_length(m as u128);
    proof {
        lemma2_to64();
        lemma2_to64_rest();
        if len > 53 {
            if len > 54 {
                lemma_pow2_strictly_increases(53, (len - 1) as nat);
            }
            assert(false);
        }
    }
    let up: u32 = 126 - len;
    let factor: u128 = rounding::power_of_two(up);
    proof {
        lemma_pow2_pos(up as nat);
        lemma_pow2_adds(len as nat, up as nat);
        lemma_pow2_adds((len - 1) as nat, up as nat);
        lemma_pow2_adds(64, 62);
        lemma_pow2_adds(64, 61);
        assert(m * factor < pow2(len as nat) * factor) by (nonlinear_arith)
            requires
                m < pow2(len as nat),
                factor > 0,
        ;
        assert(m * factor >= pow2((len - 1) as nat) * factor) by (nonlinear_arith)
            requires
                m >= pow2((len - 1) as nat),
                factor > 0,
        ;
    }
    let num: u128 = (m as u128) * factor;
    let q: u128 = num / (k as u128);
    let lost: bool = num % (k as u128) != 0;
    let x: i32 = e - f + 1074 - up as i32;
    proof {
        lemma_fundamental_div_mod(num as int, k as int);
        lemma_mod_bound(num as int, k as int);
        let c = pow2((x + 4000 + f) as nat) as int;
        let p = pow2(4000) as int;
        lemma_pow2_pos((x + 4000 + f) as nat);
        lemma_pow2_adds(rounding::lift(x as int), f as nat);
        assert(rounding::lift(x as int) + f as nat == (x + 4000 + f) as nat);
        lemma_pow2_adds(up as nat, (x + 4000 + f) as nat);
        lemma_pow2_adds(e as nat, 1074);
        lemma_pow2_adds((e + 1074) as nat, 4000);
        assert(up as nat + (x + 4000 + f) as nat == (e + 1074) as nat + 4000);
        assert(n * p == num * c) by (nonlinear_arith)
            requires
                n == (m * pow2(e as nat)) * pow2(1074),
                num == m * factor,
                pow2(e as nat) * pow2(1074) * p == factor * c,
        ;
        let step = pow2(rounding::lift(x as int)) * d;
        assert(step == k * c) by (nonlinear_arith)
            requires
                step == pow2(rounding::lift(x as int)) * (k * pow2(f as nat)),
                c == pow2(rounding::lift(x as int)) * pow2(f as nat),
        ;
        let r = num as int % k as int;
        assert(q * step == (k * q) * c) by (nonlinear_arith)
            requires
                step == k * c,
        ;
        assert((q + 1) * step == (k * q + k) * c) by (nonlinear_arith)
            requires
                step == k * c,
        ;
        assert(num * c == (k * q) * c + r * c) by (nonlinear_arith)
            requires
                num == k * q + r,
        ;
        assert((k * q + k) * c == (k * q) * c + k * c) by (nonlinear_arith);
        assert(0 <= r * c < k * c && (r > 0 ==> r * c > 0)) by (nonlinear_arith)
            requires
                0 <= r < k,
                c > 0,
        ;
        if !lost {
            assert(r * c == 0);
        }
        assert(q >= 0x40_0000_0000_0000) by (nonlinear_arith)
            requires
                num >= 0x2000_0000_0000_0000 * 0x1_0000_0000_0000_0000,
                num < k * q + k,
                0 < k < 0x20_0000_0000_0000,
        ;
        assert(q <= num) by (nonlinear_arith)
            requires
                k * q <= num,
                k >= 1,
                q >= 0,
        ;
    }
    rounding::round_parts(q, x, lost, Ghost(n), Ghost(d))
}

} // verus!
