//! Arithmetic is exact up to one rounding, and comparison is that of values.

use crate::arithmetic;
use crate::date_laws;
use crate::double;
use crate::double::{Double, HIDDEN_BIT, INF_BITS};
use crate::growth;
use crate::integers;
use crate::optimize::bracket_laws;
use crate::rounding;
use crate::rounding_laws;
use vstd::arithmetic::div_mod::*;
use vstd::arithmetic::power2::*;
use vstd::prelude::*;

verus! {

/// How far `v` is from `w`.
pub open spec fn apart(v: int, w: int) -> int {
    if v < w {
        w - v
    } else {
        v - w
    }
}

/// The largest finite magnitude, in units.
pub open spec fn largest() -> int {
    double::units(0x7fef_ffff_ffff_ffff)
}

/// Between two numbers as near, rounding goes to the one whose last bit is zero.
proof fn lemma_ties_go_to_even(n: int, d: int, mag: int)
    requires
        n >= 0,
        d > 0,
        0 <= mag < INF_BITS,
        rounding::round(n, d) < INF_BITS,
        mag != rounding::round(n, d),
        apart(double::units(mag) * d, n) == apart(double::units(rounding::round(n, d)) * d, n),
    ensures
        rounding::round(n, d) % 2 == 0,
{
    let e = rounding::scale(n, d);
    let b = pow2(e) as int;
    let dd = d * b;
    let sig = rounding::half_even(n, dd);
    let r = rounding::round(n, d);
    let (u, v) = (double::units(r), double::units(mag));
    lemma2_to64();
    lemma2_to64_rest();
    lemma_pow2_pos(e);
    assert(dd > 0) by (nonlinear_arith)
        requires
            dd == d * b,
            d > 0,
            b > 0,
    ;
    rounding::lemma_scale_window(n, d);
    rounding_laws::lemma_half_even(n, dd);
    rounding_laws::lemma_significand_range(n, d);
    rounding_laws::lemma_units_of_parts(sig, e);
    arithmetic::lemma_units_order(r, mag);
    arithmetic::lemma_units_order(mag, r);
    assert(r == e * HIDDEN_BIT + sig && u == sig * b);
    assert(u * d == sig * dd) by (nonlinear_arith)
        requires
            u == sig * b,
            dd == d * b,
    ;
    assert(u < v ==> u * d < v * d) by (nonlinear_arith)
        requires
            d > 0,
    ;
    assert(v < u ==> v * d < u * d) by (nonlinear_arith)
        requires
            d > 0,
    ;
    assert(2 * n == u * d + v * d);
    assert((2 * sig + 1) * dd == 2 * (sig * dd) + dd && (2 * sig - 1) * dd == 2 * (sig * dd) - dd)
        by (nonlinear_arith);
    if mag > r {
        growth::lemma_gap(r);
        arithmetic::lemma_units_order(r + 1, mag);
        lemma_pow2_from(e, double::exponent(r) as nat);
        assert(v * d >= u * d + dd) by (nonlinear_arith)
            requires
                v >= u + b,
                dd == d * b,
                d > 0,
        ;
    } else {
        growth::lemma_gap(r - 1);
        arithmetic::lemma_units_order(mag, r - 1);
        if e > 0 && sig == HIDDEN_BIT {
            lemma_pow2_adds(52, e);
            assert(d * pow2(52 + e) == HIDDEN_BIT * dd) by (nonlinear_arith)
                requires
                    pow2(52 + e) == HIDDEN_BIT * b,
                    dd == d * b,
            ;
            assert(false);
        }
        lemma_pow2_from(e, double::exponent(r - 1) as nat);
        assert(v * d <= u * d - dd) by (nonlinear_arith)
            requires
                v <= u - b,
                dd == d * b,
                d > 0,
        ;
    }
    assert(sig % 2 == 0);
    assert((e * HIDDEN_BIT) % 2 == 0) by (nonlinear_arith)
        requires
            HIDDEN_BIT == 2 * 0x8_0000_0000_0000,
    ;
}

/// Larger powers of two are larger.
proof fn lemma_pow2_from(a: nat, b: nat)
    requires
        a <= b,
    ensures
        pow2(a) <= pow2(b),
{
    if a < b {
        lemma_pow2_strictly_increases(a, b);
    }
}

/// A sum of finite numbers is the finite number nearest the exact sum; it is zero
/// exactly where that is, and overflows only where that is beyond every finite
/// number, to its side. Of two as near it is the one whose last bit is zero.
pub proof fn law_a_sum_is_the_nearest_number(a: Double, b: Double, x: Double)
    requires
        a.finite(),
        b.finite(),
        x.finite(),
    ensures
        !a.sum(b).nan(),
        a.sum(b).finite() ==> apart(a.sum(b).value(), a.value() + b.value()) <= apart(
            x.value(),
            a.value() + b.value(),
        ),
        a.sum(b).finite() && x.value() != a.sum(b).value() && apart(
            a.sum(b).value(),
            a.value() + b.value(),
        ) == apart(x.value(), a.value() + b.value()) ==> a.sum(b).mag() % 2 == 0,
        a.sum(b).zero() <==> a.value() + b.value() == 0,
        a.value() + b.value() > 0 ==> !a.sum(b).negative(),
        a.value() + b.value() < 0 ==> a.sum(b).negative(),
        a.sum(b).infinite() ==> a.value() + b.value() > largest() || a.value() + b.value()
            < -largest(),
        a.difference(b) == a.sum(b.opposite()),
{
    let exact = a.value() + b.value();
    let size = if exact < 0 {
        -exact
    } else {
        exact
    };
    arithmetic::lemma_round_range(size, 1);
    arithmetic::lemma_round_zero(1);
    arithmetic::lemma_units_order(0, 0);
    arithmetic::lemma_units_order(x.mag(), x.mag());
    lemma_overflow(size, 1);
    if size > 0 {
        rounding_laws::lemma_round_positive(size, 1);
    }
    let r = rounding::round(size, 1);
    arithmetic::lemma_units_order(r, r);
    if r < INF_BITS {
        rounding_laws::law_round_is_nearest(size, 1, x.mag());
        rounding_laws::law_round_is_nearest(size, 1, 0);
        if x.mag() != r && apart(double::units(x.mag()), size) == apart(double::units(r), size) {
            lemma_ties_go_to_even(size, 1, x.mag());
        }
        if r != 0 && apart(0, size) == apart(double::units(r), size) {
            lemma_ties_go_to_even(size, 1, 0);
        }
    }
}

/// A product of finite numbers has the sign of the two, and is the finite number
/// nearest the exact product, unless that is beyond every finite number. Of two as
/// near it is the one whose last bit is zero.
pub proof fn law_a_product_is_the_nearest_number(a: Double, b: Double, x: Double)
    requires
        a.finite(),
        b.finite(),
        x.finite(),
    ensures
        !a.product(b).nan(),
        a.product(b).negative() == (a.negative() != b.negative()),
        a.product(b).finite() ==> apart(a.product(b).value() * pow2(1074), a.value() * b.value())
            <= apart(x.value() * pow2(1074), a.value() * b.value()),
        a.product(b).finite() && x.mag() != a.product(b).mag() && apart(
            double::units(x.mag()) * pow2(1074),
            double::units(a.mag()) * double::units(b.mag()),
        ) == apart(
            double::units(a.product(b).mag()) * pow2(1074),
            double::units(a.mag()) * double::units(b.mag()),
        ) ==> a.product(b).mag() % 2 == 0,
        a.product(b).infinite() ==> double::units(a.mag()) * double::units(b.mag()) > largest()
            * pow2(1074),
{
    let t = pow2(1074) as int;
    let (u, v) = (double::units(a.mag()), double::units(b.mag()));
    let size = u * v;
    lemma_pow2_pos(1074);
    arithmetic::lemma_units_order(a.mag(), a.mag());
    arithmetic::lemma_units_order(b.mag(), b.mag());
    arithmetic::lemma_units_order(0, 0);
    assert(size >= 0) by (nonlinear_arith)
        requires
            size == u * v,
            u >= 0,
            v >= 0,
    ;
    arithmetic::lemma_round_range(size, t);
    lemma_overflow(size, t);
    let r = rounding::round(size, t);
    if r < INF_BITS {
        assert((-u) * v == -size && u * (-v) == -size && (-u) * (-v) == size) by (nonlinear_arith)
            requires
                size == u * v,
        ;
        lemma_nearest_signed(size, t, x, a.negative() != b.negative());
        if x.mag() != r && apart(double::units(x.mag()) * t, size) == apart(
            double::units(r) * t,
            size,
        ) {
            lemma_ties_go_to_even(size, t, x.mag());
        }
    }
}

/// A quotient of finite numbers, the second not zero, has the sign of the two, and
/// is the finite number nearest the exact quotient, unless that is beyond every
/// finite number. Of two as near it is the one whose last bit is zero.
pub proof fn law_a_quotient_is_the_nearest_number(a: Double, b: Double, x: Double)
    requires
        a.finite(),
        b.finite(),
        !b.zero(),
        x.finite(),
    ensures
        !a.quotient(b).nan(),
        a.quotient(b).negative() == (a.negative() != b.negative()),
        a.quotient(b).finite() ==> apart(
            a.quotient(b).magnitude().value() * double::units(b.mag()),
            double::units(a.mag()) * pow2(1074),
        ) <= apart(
            x.magnitude().value() * double::units(b.mag()),
            double::units(a.mag()) * pow2(1074),
        ),
        a.quotient(b).finite() && x.mag() != a.quotient(b).mag() && apart(
            double::units(x.mag()) * double::units(b.mag()),
            double::units(a.mag()) * pow2(1074),
        ) == apart(
            double::units(a.quotient(b).mag()) * double::units(b.mag()),
            double::units(a.mag()) * pow2(1074),
        ) ==> a.quotient(b).mag() % 2 == 0,
        a.quotient(b).infinite() ==> double::units(a.mag()) * pow2(1074) > largest()
            * double::units(b.mag()),
{
    let (u, v) = (double::units(a.mag()), double::units(b.mag()));
    let size = u * pow2(1074);
    lemma_pow2_pos(1074);
    arithmetic::lemma_units_order(a.mag(), a.mag());
    arithmetic::lemma_units_order(b.mag(), b.mag());
    arithmetic::lemma_units_order(0, 0);
    assert(size >= 0) by (nonlinear_arith)
        requires
            size == u * pow2(1074),
            u >= 0,
    ;
    arithmetic::lemma_round_range(size, v);
    lemma_overflow(size, v);
    let r = rounding::round(size, v);
    if r < INF_BITS {
        rounding_laws::law_round_is_nearest(size, v, x.mag());
        if x.mag() != r && apart(double::units(x.mag()) * v, size) == apart(
            double::units(r) * v,
            size,
        ) {
            lemma_ties_go_to_even(size, v, x.mag());
        }
    }
}

/// What rounds to infinity lies beyond the largest finite number.
proof fn lemma_overflow(n: int, d: int)
    requires
        n >= 0,
        d > 0,
    ensures
        rounding::round(n, d) == INF_BITS ==> n > largest() * d,
{
    if n <= largest() * d {
        rounding_laws::lemma_round_exact(0x7fef_ffff_ffff_ffff, d);
        rounding_laws::lemma_round_order(n, largest() * d, d);
    }
}

/// Nearest among magnitudes is nearest among signed numbers.
proof fn lemma_nearest_signed(n: int, d: int, x: Double, negative: bool)
    requires
        n >= 0,
        d > 0,
        x.finite(),
        0 <= rounding::round(n, d) < INF_BITS,
    ensures
        ({
            let r = double::units(rounding::round(n, d));
            let (value, exact) = if negative {
                (-r, -n)
            } else {
                (r, n)
            };
            apart(value * d, exact) <= apart(x.value() * d, exact)
        }),
{
    let r = double::units(rounding::round(n, d));
    let u = double::units(x.mag());
    rounding_laws::law_round_is_nearest(n, d, x.mag());
    rounding_laws::law_round_is_nearest(n, d, 0);
    arithmetic::lemma_units_order(0, 0);
    arithmetic::lemma_units_order(x.mag(), x.mag());
    assert(u * d >= 0 && (-u) * d == -(u * d) && (-r) * d == -(r * d) && 0 * d == 0)
        by (nonlinear_arith)
        requires
            u >= 0,
            d > 0,
    ;
}

/// Numbers that are not numbers make none: what is computed with one is one.
pub proof fn law_what_is_no_number_makes_none(a: Double, b: Double)
    requires
        a.nan() || b.nan(),
    ensures
        a.sum(b).nan(),
        a.difference(b).nan(),
        a.product(b).nan(),
        a.quotient(b).nan(),
        !a.lt(b),
        !a.le(b),
        !a.same(b),
{
}

/// Comparison of finite numbers is that of their values, and the two zeros are the
/// same. Everything finite lies between the infinities.
pub proof fn law_comparison_is_that_of_values(a: Double, b: Double)
    requires
        a.finite(),
        b.finite(),
    ensures
        a.lt(b) <==> a.value() < b.value(),
        a.le(b) <==> a.value() <= b.value(),
        a.same(b) <==> a.value() == b.value(),
        a.zero() <==> a.value() == 0,
        a.positive() <==> a.value() > 0,
        a.opposite().value() == -a.value(),
        a.magnitude().value() == apart(a.value(), 0),
        a.lt(Double::from_bits(INF_BITS)),
        Double::from_bits(INF_BITS).opposite().lt(a),
{
    bracket_laws::lemma_value_order(a, b);
    bracket_laws::lemma_value_order(b, a);
    arithmetic::lemma_units_order(a.mag(), a.mag());
    arithmetic::lemma_units_order(0, 0);
}

/// Integers below `2^53` are numbers.
pub proof fn law_small_integers_are_numbers(n: int)
    requires
        -0x20_0000_0000_0000 < n < 0x20_0000_0000_0000,
    ensures
        integers::whole(n).finite(),
        integers::whole(n).value() == n * pow2(1074),
{
    let t = pow2(1074) as int;
    lemma2_to64_rest();
    if n > 0 {
        let mag = date_laws::lemma_small_integer(n);
    } else if n < 0 {
        let mag = date_laws::lemma_small_integer(-n);
        assert(-((-n) * t) == n * t) by (nonlinear_arith);
    } else {
        assert(0 * t == 0);
        arithmetic::lemma_round_zero(1);
        arithmetic::lemma_units_order(0, 0);
    }
}

/// Infinities absorb what is finite, and cancel or compare as they should.
pub proof fn law_infinities_absorb(a: Double, b: Double)
    requires
        a.infinite(),
        !b.nan(),
    ensures
        b.finite() || b.negative() == a.negative() ==> a.sum(b) == a && b.sum(a) == a,
        b.infinite() && b.negative() != a.negative() ==> a.sum(b).nan(),
        !b.zero() ==> a.product(b).infinite() && b.product(a).infinite() && a.product(b).negative()
            == (a.negative() != b.negative()),
        b.zero() ==> a.product(b).nan() && b.product(a).nan(),
        b.finite() ==> a.quotient(b).infinite() && b.quotient(a).zero(),
        b.infinite() ==> a.quotient(b).nan(),
{
}

/// Dividing by zero is infinite, of the sign of the two, unless zero is divided.
pub proof fn law_division_by_zero_is_infinite(a: Double, b: Double)
    requires
        a.finite(),
        b.zero(),
    ensures
        a.zero() ==> a.quotient(b).nan(),
        !a.zero() ==> a.quotient(b).infinite() && a.quotient(b).negative() == (a.negative()
            != b.negative()),
{
}

/// Rounding down gives the integer at or below a number and within one of it, for
/// numbers of the size of dates.
pub proof fn law_rounding_down_goes_to_the_integer_below(x: Double, n: int)
    requires
        x.finite(),
        -0x20_0000_0000_0000 < n < 0x20_0000_0000_0000,
        n * pow2(1074) <= x.value() < (n + 1) * pow2(1074),
    ensures
        x.floored().value() == n * pow2(1074),
        x.floored().finite(),
{
    let t = pow2(1074) as int;
    lemma_pow2_pos(1074);
    law_small_integers_are_numbers(n);
    assert((n + 1) * t == n * t + t) by (nonlinear_arith);
    lemma_fundamental_div_mod_converse(x.value(), t, n, x.value() - n * t);
    if x.zero() {
        arithmetic::lemma_units_order(0, 0);
        assert(x.value() == 0);
        assert(n == 0) by (nonlinear_arith)
            requires
                n * t <= 0,
                0 < (n + 1) * t,
                t > 0,
        ;
        assert(0 * t == 0);
    }
}

} // verus!
