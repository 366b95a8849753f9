//! Steps and factors large enough to move a number on to the next double.

use crate::double;
use crate::double::{Double, HIDDEN_BIT, INF_BITS};
use crate::rounding_laws;
use vstd::arithmetic::mul::*;
use vstd::arithmetic::power2::*;
use vstd::prelude::*;

verus! {

/// Neighbouring magnitudes are one last place apart.
pub proof fn lemma_gap(mag: int)
    requires
        0 <= mag < INF_BITS,
    ensures
        double::units(mag + 1) == double::units(mag) + pow2(double::exponent(mag) as nat),
{
    let e = double::exponent(mag);
    let m = double::significand(mag);
    rounding_laws::lemma_units_of_parts(m, e as nat);
    rounding_laws::lemma_units_of_parts(m + 1, e as nat);
    assert((m + 1) * pow2(e as nat) == m * pow2(e as nat) + pow2(e as nat)) by (nonlinear_arith);
}

/// Adding at least one last place moves a number up.
pub proof fn lemma_sum_grows(x: Double, step: Double)
    requires
        x.finite(),
        step.finite(),
        !step.negative(),
        double::units(step.mag()) >= pow2(double::exponent(x.mag()) as nat),
    ensures
        x.key() < x.sum(step).key(),
{
    let mag = x.mag();
    let s = double::units(step.mag());
    crate::arithmetic::lemma_units_order(mag, mag);
    crate::arithmetic::lemma_units_order(step.mag(), step.mag());
    lemma_pow2_pos(double::exponent(mag) as nat);
    let exact = x.value() + step.value();
    if !x.negative() {
        lemma_gap(mag);
        rounding_laws::lemma_round_exact(mag + 1, 1);
        rounding_laws::lemma_round_order(double::units(mag + 1), exact, 1);
        crate::arithmetic::lemma_round_range(exact, 1);
    } else if mag == 0 {
        rounding_laws::lemma_round_positive(exact, 1);
        crate::arithmetic::lemma_round_range(exact, 1);
    } else {
        lemma_gap(mag - 1);
        crate::arithmetic::lemma_units_order(mag - 1, mag);
        if double::exponent(mag - 1) < double::exponent(mag) {
            lemma_pow2_strictly_increases(
                double::exponent(mag - 1) as nat,
                double::exponent(mag) as nat,
            );
        }
        if exact < 0 {
            rounding_laws::lemma_round_exact(mag - 1, 1);
            rounding_laws::lemma_round_order(-exact, double::units(mag - 1), 1);
            crate::arithmetic::lemma_round_range(-exact, 1);
        } else if exact > 0 {
            crate::arithmetic::lemma_round_range(exact, 1);
        }
    }
}

/// Multiplying a normal number by a factor that adds at least one part in
/// `2^52` moves it up.
pub proof fn lemma_product_grows(x: Double, factor: Double, excess: int)
    requires
        x.finite(),
        !x.negative(),
        x.mag() >= HIDDEN_BIT,
        factor.finite(),
        !factor.negative(),
        excess >= 1,
        double::units(factor.mag()) == pow2(1074) + excess * pow2(1022),
    ensures
        x.key() < x.product(factor).key(),
{
    let mag = x.mag();
    let e = double::exponent(mag);
    let m = double::significand(mag);
    let a = pow2(e as nat) as int;
    let d = pow2(1074) as int;
    let g = double::units(factor.mag());
    let exact = double::units(mag) * g;
    lemma_gap(mag);
    lemma_pow2_pos(e as nat);
    lemma_pow2_pos(1022);
    lemma_pow2_adds(52, 1022);
    lemma2_to64_rest();
    assert(m >= HIDDEN_BIT);
    assert((m * a) * (excess * pow2(1022)) >= a * d) by (nonlinear_arith)
        requires
            m >= HIDDEN_BIT,
            excess >= 1,
            a > 0,
            pow2(1022) > 0,
            d == HIDDEN_BIT * pow2(1022),
    ;
    assert(exact == (m * a) * d + (m * a) * (excess * pow2(1022))) by (nonlinear_arith)
        requires
            exact == (m * a) * g,
            g == d + excess * pow2(1022),
    ;
    assert((m * a + a) * d == (m * a) * d + a * d) by (nonlinear_arith);
    lemma_pow2_pos(1074);
    rounding_laws::lemma_round_exact(mag + 1, d);
    crate::arithmetic::lemma_units_order(mag + 1, mag + 1);
    assert(double::units(mag + 1) * d >= 0) by (nonlinear_arith)
        requires
            double::units(mag + 1) >= 0,
            d > 0,
    ;
    rounding_laws::lemma_round_order(double::units(mag + 1) * d, exact, d);
    crate::arithmetic::lemma_round_range(exact, d);
}

} // verus!
