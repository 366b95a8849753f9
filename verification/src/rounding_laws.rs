//! What correct rounding guarantees: exact results are kept, order is kept,
//! and no double is nearer than the one chosen.

use crate::double;
use crate::double::{HIDDEN_BIT, INF_BITS};
use crate::rounding;
use vstd::arithmetic::div_mod::*;
use vstd::arithmetic::mul::*;
use vstd::arithmetic::power2::*;
use vstd::prelude::*;

verus! {

/// A quotient that is a double already is not changed by rounding.
pub proof fn lemma_round_exact(mag: int, d: int)
    requires
        0 <= mag <= INF_BITS,
        d > 0,
    ensures
        rounding::round(double::units(mag) * d, d) == mag,
{
    let e = double::exponent(mag);
    let m = double::significand(mag);
    let b = pow2(e as nat) as int;
    let n = double::units(mag) * d;
    lemma2_to64();
    lemma2_to64_rest();
    lemma_pow2_pos(e as nat);
    lemma_pow2_adds(53, e as nat);
    assert(n == m * (d * b)) by (nonlinear_arith)
        requires
            n == (m * b) * d,
    ;
    assert(d * b > 0) by (nonlinear_arith)
        requires
            d > 0,
            b > 0,
    ;
    assert(m * (d * b) < pow2(53) * (d * b)) by (nonlinear_arith)
        requires
            m < pow2(53),
            d * b > 0,
    ;
    assert(pow2(53) * (d * b) == d * (pow2(53) * b)) by (nonlinear_arith);
    if e > 0 {
        lemma_pow2_adds(52, e as nat);
        assert(m * (d * b) >= pow2(52) * (d * b)) by (nonlinear_arith)
            requires
                m >= pow2(52),
                d * b > 0,
        ;
        assert(pow2(52) * (d * b) == d * (pow2(52) * b)) by (nonlinear_arith);
    }
    rounding::lemma_scale_unique(n, d, e as nat);
    lemma_fundamental_div_mod_converse(n, d * b, m, 0);
}

/// The nearest integer is within half a unit, and a tie goes to an even one.
pub proof fn lemma_half_even(n: int, d: int)
    requires
        d > 0,
    ensures
        (2 * rounding::half_even(n, d) - 1) * d <= 2 * n <= (2 * rounding::half_even(n, d) + 1) * d,
        2 * n == (2 * rounding::half_even(n, d) - 1) * d ==> rounding::half_even(n, d) % 2 == 0,
        2 * n == (2 * rounding::half_even(n, d) + 1) * d ==> rounding::half_even(n, d) % 2 == 0,
        n >= 0 ==> rounding::half_even(n, d) >= 0,
{
    let q = n / d;
    let rem = n % d;
    lemma_fundamental_div_mod(n, d);
    lemma_mod_bound(n, d);
    if n >= 0 {
        lemma_div_pos_is_pos(n, d);
    }
    assert((2 * q + 1) * d == 2 * (d * q) + d) by (nonlinear_arith);
    assert((2 * q - 1) * d == 2 * (d * q) - d) by (nonlinear_arith);
    assert((2 * (q + 1) - 1) * d == 2 * (d * q) + d) by (nonlinear_arith);
    assert((2 * (q + 1) + 1) * d == 2 * (d * q) + 3 * d) by (nonlinear_arith);
}

proof fn lemma_half_even_order(a: int, b: int, d: int)
    requires
        d > 0,
        a <= b,
    ensures
        rounding::half_even(a, d) <= rounding::half_even(b, d),
{
    lemma_half_even(a, d);
    lemma_half_even(b, d);
    let r = rounding::half_even(a, d);
    let s = rounding::half_even(b, d);
    if r > s {
        assert((2 * r - 1) * d >= (2 * s + 1) * d) by (nonlinear_arith)
            requires
                r >= s + 1,
                d > 0,
        ;
        assert(2 * a == 2 * b);
    }
}

/// Rounding never turns two quotients round.
pub proof fn lemma_round_order(a: int, b: int, d: int)
    requires
        d > 0,
        0 <= a <= b,
    ensures
        rounding::round(a, d) <= rounding::round(b, d),
{
    let e = rounding::scale(a, d);
    let f = rounding::scale(b, d);
    rounding::lemma_scale_window(a, d);
    rounding::lemma_scale_window(b, d);
    lemma2_to64();
    lemma2_to64_rest();
    lemma_pow2_pos(e);
    lemma_pow2_pos(f);
    if e > f {
        if 52 + e > 53 + f {
            lemma_pow2_strictly_increases(53 + f, (52 + e) as nat);
        }
        assert(d * pow2((52 + e) as nat) >= d * pow2(53 + f)) by (nonlinear_arith)
            requires
                d > 0,
                pow2((52 + e) as nat) >= pow2(53 + f),
        ;
        assert(false);
    }
    let de = d * pow2(e);
    let df = d * pow2(f);
    assert(de > 0 && df > 0) by (nonlinear_arith)
        requires
            d > 0,
            pow2(e) > 0,
            pow2(f) > 0,
            de == d * pow2(e),
            df == d * pow2(f),
    ;
    if e == f {
        lemma_half_even_order(a, b, de);
    } else {
        lemma_significand_range(a, d);
        lemma_significand_range(b, d);
        assert(e * HIDDEN_BIT + 2 * HIDDEN_BIT <= f * HIDDEN_BIT + HIDDEN_BIT);
    }
}

/// A rounded significand has at most 53 bits, or is the carry out of them.
pub proof fn lemma_significand_range(n: int, d: int)
    requires
        d > 0,
        n >= 0,
    ensures
        0 <= rounding::half_even(n, d * pow2(rounding::scale(n, d))) <= 2 * HIDDEN_BIT,
        rounding::scale(n, d) > 0 ==> rounding::half_even(n, d * pow2(rounding::scale(n, d)))
            >= HIDDEN_BIT,
{
    let e = rounding::scale(n, d);
    let dd = d * pow2(e);
    rounding::lemma_scale_window(n, d);
    lemma2_to64();
    lemma2_to64_rest();
    lemma_pow2_pos(e);
    lemma_pow2_adds(53, e);
    lemma_pow2_adds(52, e);
    assert(dd > 0) by (nonlinear_arith)
        requires
            d > 0,
            pow2(e) > 0,
            dd == d * pow2(e),
    ;
    let top = 2 * HIDDEN_BIT as int;
    assert(d * pow2(53 + e) == top * dd) by (nonlinear_arith)
        requires
            pow2(53 + e) == top * pow2(e),
            dd == d * pow2(e),
    ;
    lemma_half_even_order(n, top * dd, dd);
    lemma_fundamental_div_mod_converse(top * dd, dd, top, 0);
    lemma_half_even(n, dd);
    if e > 0 {
        let low = HIDDEN_BIT as int;
        assert(d * pow2((52 + e) as nat) == low * dd) by (nonlinear_arith)
            requires
                pow2((52 + e) as nat) == low * pow2(e),
                dd == d * pow2(e),
        ;
        lemma_half_even_order(low * dd, n, dd);
        lemma_fundamental_div_mod_converse(low * dd, dd, low, 0);
    }
}

/// A quotient of at least the smallest double does not round to zero.
pub proof fn lemma_round_positive(n: int, d: int)
    requires
        d > 0,
        n >= d,
    ensures
        rounding::round(n, d) >= 1,
{
    lemma2_to64();
    assert(double::significand(1) == 1 && pow2(double::exponent(1) as nat) == 1);
    lemma_round_exact(1, d);
    assert(double::units(1) * d == d) by (nonlinear_arith)
        requires
            double::units(1) == double::significand(1) * pow2(double::exponent(1) as nat),
            double::significand(1) == 1,
            pow2(double::exponent(1) as nat) == 1,
    ;
    lemma_round_order(d, n, d);
}

/// Magnitude bits of a significand at an exponent stand for that many units.
pub proof fn lemma_units_of_parts(sig: int, e: nat)
    requires
        0 <= sig <= 2 * HIDDEN_BIT,
        e > 0 ==> sig >= HIDDEN_BIT,
    ensures
        double::units(e * HIDDEN_BIT + sig) == sig * pow2(e),
{
    let b = e * HIDDEN_BIT + sig;
    if sig == 2 * HIDDEN_BIT {
        assert(double::exponent(b) == e + 1);
        assert(double::significand(b) == HIDDEN_BIT);
        lemma_pow2_unfold(e + 1);
        assert(HIDDEN_BIT * (2 * pow2(e)) == (2 * HIDDEN_BIT) * pow2(e)) by (nonlinear_arith);
    } else {
        assert(double::exponent(b) == e);
        assert(double::significand(b) == sig);
    }
}

/// No double is nearer to a quotient than the one it rounds to.
pub proof fn law_round_is_nearest(n: int, d: int, mag: int)
    requires
        n >= 0,
        d > 0,
        0 <= mag < INF_BITS,
        rounding::round(n, d) < INF_BITS,
    ensures
        distance(double::units(rounding::round(n, d)) * d, n) <= distance(
            double::units(mag) * d,
            n,
        ),
{
    let e = rounding::scale(n, d);
    let dd = d * pow2(e);
    let sig = rounding::half_even(n, dd);
    let r = rounding::round(n, d);
    lemma_significand_range(n, d);
    rounding::lemma_scale_window(n, d);
    lemma_units_of_parts(sig, e);
    lemma_pow2_pos(e);
    assert(dd > 0) by (nonlinear_arith)
        requires
            d > 0,
            pow2(e) > 0,
            dd == d * pow2(e),
    ;
    lemma_half_even(n, dd);
    assert((sig * pow2(e)) * d == sig * dd) by (nonlinear_arith)
        requires
            dd == d * pow2(e),
    ;
    let f = double::exponent(mag);
    let k = double::significand(mag);
    if f >= e {
        lemma_pow2_adds(e, (f - e) as nat);
        let j = k * pow2((f - e) as nat);
        assert((k * pow2(f as nat)) * d == j * dd) by (nonlinear_arith)
            requires
                pow2(f as nat) == pow2(e) * pow2((f - e) as nat),
                j == k * pow2((f - e) as nat),
                dd == d * pow2(e),
        ;
        lemma_nearest_multiple(n, dd, sig, j);
    } else {
        let low = HIDDEN_BIT as int;
        lemma2_to64();
        lemma2_to64_rest();
        lemma_pow2_adds(52, e);
        assert(d * pow2((52 + e) as nat) == low * dd) by (nonlinear_arith)
            requires
                pow2((52 + e) as nat) == low * pow2(e),
                dd == d * pow2(e),
        ;
        lemma_nearest_multiple(n, dd, sig, low);
        lemma_pow2_adds(f as nat, (e - f) as nat);
        lemma_pow2_unfold((e - f) as nat);
        lemma_pow2_pos((e - f - 1) as nat);
        lemma_pow2_pos(f as nat);
        assert(k * pow2(f as nat) <= low * pow2(e)) by (nonlinear_arith)
            requires
                k <= 2 * low,
                low > 0,
                pow2(e) == pow2(f as nat) * pow2((e - f) as nat),
                pow2((e - f) as nat) >= 2,
                pow2(f as nat) > 0,
        ;
        assert((k * pow2(f as nat)) * d <= low * dd) by (nonlinear_arith)
            requires
                k * pow2(f as nat) <= low * pow2(e),
                d > 0,
                dd == d * pow2(e),
        ;
    }
}

pub open spec fn distance(a: int, b: int) -> int {
    if a < b {
        b - a
    } else {
        a - b
    }
}

proof fn lemma_nearest_multiple(n: int, d: int, r: int, k: int)
    requires
        d > 0,
        (2 * r - 1) * d <= 2 * n <= (2 * r + 1) * d,
    ensures
        distance(r * d, n) <= distance(k * d, n),
{
    assert((2 * r - 1) * d == 2 * (r * d) - d) by (nonlinear_arith);
    assert((2 * r + 1) * d == 2 * (r * d) + d) by (nonlinear_arith);
    if k > r {
        assert(k * d >= r * d + d) by (nonlinear_arith)
            requires
                k >= r + 1,
                d > 0,
        ;
    } else if k < r {
        assert(k * d <= r * d - d) by (nonlinear_arith)
            requires
                k <= r - 1,
                d > 0,
        ;
    }
}

} // verus!
