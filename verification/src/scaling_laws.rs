//! Denomination: multiplying every amount by a power of two multiplies present
//! values by it and leaves Newton's steps alone, as long as nothing underflows
//! or overflows.

use crate::arithmetic;
use crate::double;
use crate::double::{Double, HIDDEN_BIT, INF_BITS, MINUS_ONE, ONE};
use crate::flow;
use crate::flow::{Flow, RootPolicy};
use crate::host::Call;
use crate::netted;
use crate::optimize::laws;
use crate::optimize::newton;
use crate::rounding;
use crate::rounding_laws;
use vstd::arithmetic::div_mod::*;
use vstd::arithmetic::mul::*;
use vstd::arithmetic::power2::*;
use vstd::prelude::*;

verus! {

/// `y` is `x` times `2^k`, exactly.
pub open spec fn scales(x: Double, y: Double, k: nat) -> bool {
    &&& x.finite()
    &&& y.finite()
    &&& x.negative() == y.negative()
    &&& double::units(y.mag()) == double::units(x.mag()) * pow2(k)
}

/// The product is zero, or not so small that digits are lost.
pub open spec fn product_kept(x: Double, y: Double) -> bool {
    let exact = double::units(x.mag()) * double::units(y.mag());
    exact == 0 || exact >= HIDDEN_BIT * pow2(1074)
}

/// The quotient is zero, or not so small that digits are lost.
pub open spec fn quotient_kept(x: Double, y: Double) -> bool {
    x.zero() || double::units(x.mag()) * pow2(1074) >= HIDDEN_BIT * double::units(y.mag())
}

// ---------------------------------------------------------------------------
// Rounding
// ---------------------------------------------------------------------------

/// Multiplying both parts of a fraction changes nothing about it.
proof fn lemma_half_even_cancels(n: int, d: int, c: int)
    requires
        d > 0,
        c > 0,
    ensures
        rounding::half_even(n * c, d * c) == rounding::half_even(n, d),
{
    let q = n / d;
    let r = n % d;
    lemma_fundamental_div_mod(n, d);
    lemma_mod_bound(n, d);
    assert(d * c > 0 && n * c == q * (d * c) + r * c && 0 <= r * c < d * c) by (nonlinear_arith)
        requires
            n == d * q + r,
            0 <= r < d,
            c > 0,
            d > 0,
    ;
    lemma_fundamental_div_mod_converse(n * c, d * c, q, r * c);
    assert((2 * r > d <==> 2 * (r * c) > d * c) && (2 * r == d <==> 2 * (r * c) == d * c))
        by (nonlinear_arith)
        requires
            c > 0,
    ;
}

/// A fraction that is not below the smallest normal double is rounded alike
/// after multiplication by a power of two.
pub proof fn lemma_round_shifts(n: int, d: int, k: nat)
    requires
        d > 0,
        n >= HIDDEN_BIT * d,
        rounding::round(n * pow2(k), d) < INF_BITS,
    ensures
        rounding::round(n, d) < INF_BITS,
        double::units(rounding::round(n * pow2(k), d)) == double::units(rounding::round(n, d))
            * pow2(k),
{
    let e = rounding::scale(n, d);
    let c = pow2(k) as int;
    lemma2_to64();
    lemma2_to64_rest();
    lemma_pow2_pos(k);
    lemma_pow2_pos(e);
    rounding::lemma_scale_window(n, d);
    lemma_pow2_adds(53 + e, k);
    lemma_pow2_adds((52 + e) as nat, k);
    assert(n * c < d * pow2(53 + e + k)) by (nonlinear_arith)
        requires
            n < d * pow2(53 + e),
            pow2(53 + e + k) == pow2(53 + e) * c,
            c > 0,
    ;
    assert(n >= d * pow2((52 + e) as nat)) by {
        if e == 0 {
            lemma_mul_is_commutative(d, pow2(52) as int);
        }
    }
    assert(n * c >= d * pow2((52 + e + k) as nat)) by (nonlinear_arith)
        requires
            n >= d * pow2((52 + e) as nat),
            pow2((52 + e + k) as nat) == pow2((52 + e) as nat) * c,
            c > 0,
    ;
    assert(53 + e + k == 53 + (e + k) && 52 + e + k == 52 + (e + k));
    rounding::lemma_scale_unique(n * c, d, e + k);
    lemma_pow2_adds(e, k);
    let dd = d * pow2(e);
    assert(dd > 0 && d * pow2(e + k) == dd * c) by (nonlinear_arith)
        requires
            dd == d * pow2(e),
            pow2(e + k) == pow2(e) * c,
            d > 0,
            pow2(e) > 0,
    ;
    lemma_half_even_cancels(n, dd, c);
    rounding_laws::lemma_significand_range(n, d);
    let q = rounding::half_even(n, dd);
    assert(q >= HIDDEN_BIT) by {
        if e == 0 {
            assert(dd == d) by {
                lemma_mul_basics(d);
            }
            rounding_laws::lemma_half_even(n, d);
            assert((2 * q + 1) * d >= 2 * (HIDDEN_BIT * d));
            assert(2 * q + 1 >= 2 * HIDDEN_BIT) by (nonlinear_arith)
                requires
                    (2 * q + 1) * d >= 2 * (HIDDEN_BIT * d),
                    d > 0,
            ;
        }
    }
    rounding_laws::lemma_units_of_parts(q, e);
    rounding_laws::lemma_units_of_parts(q, e + k);
    assert(q * pow2(e + k) == (q * pow2(e)) * c) by (nonlinear_arith)
        requires
            pow2(e + k) == pow2(e) * c,
    ;
    assert((e + k) * HIDDEN_BIT == e * HIDDEN_BIT + k * HIDDEN_BIT) by (nonlinear_arith);
    assert(k * HIDDEN_BIT >= 0) by (nonlinear_arith);
}

/// Integers below `2^53` are doubles, and so is each times a power of two.
proof fn lemma_small_shifts(n: int, k: nat)
    requires
        0 <= n < HIDDEN_BIT,
        rounding::round(n * pow2(k), 1) < INF_BITS,
    ensures
        rounding::round(n, 1) < INF_BITS,
        double::units(rounding::round(n * pow2(k), 1)) == double::units(rounding::round(n, 1))
            * pow2(k),
{
    let c = pow2(k) as int;
    let e = rounding::scale(n * c, 1);
    lemma2_to64();
    lemma2_to64_rest();
    lemma_pow2_pos(k);
    rounding_laws::lemma_units_of_parts(n, 0);
    assert(n * pow2(0) == n) by (nonlinear_arith)
        requires
            pow2(0) == 1,
    ;
    rounding_laws::lemma_round_exact(n, 1);
    assert(n * c >= 0) by (nonlinear_arith)
        requires
            n >= 0,
            c > 0,
    ;
    rounding::lemma_scale_window(n * c, 1);
    rounding_laws::lemma_significand_range(n * c, 1);
    lemma_pow2_adds(52, k);
    assert(n * c < pow2((52 + k) as nat)) by (nonlinear_arith)
        requires
            n < HIDDEN_BIT,
            pow2((52 + k) as nat) == HIDDEN_BIT * c,
            c > 0,
    ;
    if e > k {
        if 52 + k < 52 + e {
            lemma_pow2_strictly_increases((52 + k) as nat, (52 + e) as nat);
        }
    }
    assert(e <= k);
    lemma_pow2_adds((k - e) as nat, e);
    lemma_pow2_pos(e);
    let q = n * pow2((k - e) as nat);
    assert(n * c == q * pow2(e)) by (nonlinear_arith)
        requires
            q == n * pow2((k - e) as nat),
            c == pow2((k - e) as nat) * pow2(e),
    ;
    lemma_fundamental_div_mod_converse(n * c, pow2(e) as int, q, 0);
    lemma_mul_basics(pow2(e) as int);
    assert(rounding::half_even(n * c, pow2(e) as int) == q);
    rounding_laws::lemma_units_of_parts(q, e);
}

/// Multiplying both parts of a fraction changes nothing about its rounding.
pub proof fn lemma_round_cancels(n: int, d: int, c: int)
    requires
        n >= 0,
        d > 0,
        c > 0,
    ensures
        rounding::round(n * c, d * c) == rounding::round(n, d),
{
    let e = rounding::scale(n, d);
    rounding::lemma_scale_window(n, d);
    lemma_pow2_pos(e);
    assert(d * c > 0) by (nonlinear_arith)
        requires
            d > 0,
            c > 0,
    ;
    let (a, b) = (pow2(53 + e) as int, pow2((52 + e) as nat) as int);
    assert(n < d * a ==> n * c < (d * c) * a) by (nonlinear_arith)
        requires
            c > 0,
    ;
    assert(n >= d * b ==> n * c >= (d * c) * b) by (nonlinear_arith)
        requires
            c > 0,
    ;
    rounding::lemma_scale_unique(n * c, d * c, e);
    let dd = d * pow2(e);
    assert((d * c) * pow2(e) == dd * c && dd > 0) by (nonlinear_arith)
        requires
            dd == d * pow2(e),
            d > 0,
            pow2(e) > 0,
    ;
    lemma_half_even_cancels(n, dd, c);
}

// ---------------------------------------------------------------------------
// Arithmetic
// ---------------------------------------------------------------------------

/// Sums of scaled numbers are scaled, unless they overflow.
pub proof fn lemma_sum_scales(x: Double, y: Double, a: Double, b: Double, k: nat)
    requires
        scales(x, a, k),
        scales(y, b, k),
        a.sum(b).finite(),
    ensures
        scales(x.sum(y), a.sum(b), k),
{
    let c = pow2(k) as int;
    let exact = x.value() + y.value();
    let size = if exact < 0 { -exact } else { exact };
    lemma_pow2_pos(k);
    let (p, q) = (double::units(x.mag()), double::units(y.mag()));
    assert((-p) * c == -(p * c) && (-q) * c == -(q * c) && (-exact) * c == -(exact * c))
        by (nonlinear_arith);
    assert(x.value() * c + y.value() * c == exact * c) by (nonlinear_arith)
        requires
            exact == x.value() + y.value(),
    ;
    assert(a.value() + b.value() == exact * c);
    assert((exact > 0 ==> exact * c > 0) && (exact < 0 ==> exact * c < 0) && (exact == 0 ==> exact
        * c == 0)) by (nonlinear_arith)
        requires
            c > 0,
    ;
    arithmetic::lemma_round_range(size, 1);
    assert(size * c >= 0) by (nonlinear_arith)
        requires
            size >= 0,
            c > 0,
    ;
    arithmetic::lemma_round_range(size * c, 1);
    arithmetic::lemma_round_zero(1);
    arithmetic::lemma_units_order(0, 0);
    if exact == 0 {
        lemma_mul_basics(c);
    } else if size < HIDDEN_BIT {
        lemma_small_shifts(size, k);
    } else {
        lemma_round_shifts(size, 1, k);
    }
}

/// A scaled number times one that is not is scaled, unless digits are lost.
pub proof fn lemma_product_scales(x: Double, a: Double, w: Double, k: nat)
    requires
        scales(x, a, k),
        w.finite(),
        product_kept(x, w),
        a.product(w).finite(),
    ensures
        scales(x.product(w), a.product(w), k),
{
    let c = pow2(k) as int;
    let p = pow2(1074) as int;
    lemma_pow2_pos(k);
    lemma_pow2_pos(1074);
    let (u, v) = (double::units(x.mag()), double::units(w.mag()));
    arithmetic::lemma_units_order(x.mag(), x.mag());
    arithmetic::lemma_units_order(w.mag(), w.mag());
    let exact = u * v;
    assert((u * c) * v == exact * c && exact >= 0 && exact * c >= 0) by (nonlinear_arith)
        requires
            exact == u * v,
            u >= 0,
            v >= 0,
            c > 0,
    ;
    arithmetic::lemma_round_range(exact, p);
    arithmetic::lemma_round_range(exact * c, p);
    arithmetic::lemma_round_zero(p);
    arithmetic::lemma_units_order(0, 0);
    if exact == 0 {
        lemma_mul_basics(c);
    } else {
        lemma_round_shifts(exact, p, k);
    }
}

/// A scaled number over one that is not is scaled, unless digits are lost.
pub proof fn lemma_quotient_scales(x: Double, a: Double, w: Double, k: nat)
    requires
        scales(x, a, k),
        w.finite(),
        !w.zero(),
        quotient_kept(x, w),
        a.quotient(w).finite(),
    ensures
        scales(x.quotient(w), a.quotient(w), k),
{
    let c = pow2(k) as int;
    let p = pow2(1074) as int;
    lemma_pow2_pos(k);
    lemma_pow2_pos(1074);
    let (u, v) = (double::units(x.mag()), double::units(w.mag()));
    arithmetic::lemma_units_order(x.mag(), x.mag());
    arithmetic::lemma_units_order(w.mag(), w.mag());
    let exact = u * p;
    assert((u * c) * p == exact * c && exact >= 0 && exact * c >= 0) by (nonlinear_arith)
        requires
            exact == u * p,
            u >= 0,
            p > 0,
            c > 0,
    ;
    arithmetic::lemma_round_range(exact, v);
    arithmetic::lemma_round_range(exact * c, v);
    arithmetic::lemma_round_zero(v);
    arithmetic::lemma_units_order(0, 0);
    if x.zero() {
        lemma_mul_basics(p);
        lemma_mul_basics(c);
    } else {
        lemma_round_shifts(exact, v, k);
    }
}

/// The quotient of two numbers is that of the two scaled alike.
pub proof fn lemma_quotient_unmoved(x: Double, y: Double, a: Double, b: Double, k: nat)
    requires
        scales(x, a, k),
        scales(y, b, k),
    ensures
        x.quotient(y) == a.quotient(b),
{
    let c = pow2(k) as int;
    let p = pow2(1074) as int;
    lemma_pow2_pos(k);
    lemma_pow2_pos(1074);
    let (u, v) = (double::units(x.mag()), double::units(y.mag()));
    arithmetic::lemma_units_order(x.mag(), a.mag());
    arithmetic::lemma_units_order(y.mag(), b.mag());
    arithmetic::lemma_units_order(a.mag(), x.mag());
    arithmetic::lemma_units_order(b.mag(), y.mag());
    assert((u > 0 <==> u * c > 0) && (v > 0 <==> v * c > 0)) by (nonlinear_arith)
        requires
            u >= 0,
            v >= 0,
            c > 0,
    ;
    if v > 0 {
        assert(u * p >= 0 && (u * c) * p == (u * p) * c) by (nonlinear_arith)
            requires
                u >= 0,
                p > 0,
        ;
        lemma_round_cancels(u * p, v, c);
    }
}

// ---------------------------------------------------------------------------
// Cash flows
// ---------------------------------------------------------------------------

/// The flows differ in the amounts alone, and there by a factor of `2^k`.
pub open spec fn redenominated(a: Flow, b: Flow, k: nat) -> bool {
    &&& a.deltas == b.deltas
    &&& a.amounts.len() == b.amounts.len()
    &&& forall|i: int| 0 <= i < a.amounts.len() ==> scales(#[trigger] a.amounts[i], b.amounts[i], k)
}

/// Payment `i` is discounted by `base` without loss: its discount factor is
/// finite, no digits of its term or of the derivative of that are lost, and the
/// larger ones, of `b`, do not overflow.
pub open spec fn payment_kept(
    a: Flow,
    b: Flow,
    m: spec_fn(Call) -> Double,
    base: Double,
    i: int,
) -> bool {
    let exponent = a.deltas[i].opposite();
    let w = m(Call::Powf(base, exponent));
    let term = a.amounts[i].product(w);
    let big = b.amounts[i].product(w);
    &&& exponent.finite() && w.finite()
    &&& product_kept(a.amounts[i], w) && big.finite()
    &&& product_kept(term, exponent) && big.product(exponent).finite()
    &&& quotient_kept(term.product(exponent), base)
    &&& big.product(exponent).quotient(base).finite()
}

/// Nothing is lost at `rate`: every payment is discounted without loss, no
/// partial sum of `b` overflows, and the present values are on the same side of
/// the spreadsheet's tolerance. Outside the domain there is nothing to lose.
pub open spec fn kept_at(a: Flow, b: Flow, m: spec_fn(Call) -> Double, rate: Double) -> bool {
    let base = Double::from_bits(ONE).sum(rate);
    let eps = Double::from_bits(newton::EXCEL_EPS);
    let n = netted::paired(a.deltas, a.amounts);
    rate.le(Double::from_bits(MINUS_ONE)) || {
        &&& base.finite() && !base.zero()
        &&& forall|i: int| 0 <= i < n ==> #[trigger] payment_kept(a, b, m, base, i)
        &&& forall|i: int|
            0 <= i <= n ==> (#[trigger] flow::discounted(
                m,
                b.amounts,
                b.deltas,
                base,
                i,
            )).finite() && flow::discounted_deriv(m, b.amounts, b.deltas, base, i).finite()
        &&& eps.lt(a.npv(m, rate).0.magnitude()) == eps.lt(b.npv(m, rate).0.magnitude())
    }
}

proof fn lemma_npv_scales(
    a: Flow,
    b: Flow,
    m: spec_fn(Call) -> Double,
    base: Double,
    k: nat,
    n: int,
)
    requires
        redenominated(a, b, k),
        0 <= n <= netted::paired(a.deltas, a.amounts),
        base.finite(),
        !base.zero(),
        forall|i: int| 0 <= i < n ==> #[trigger] payment_kept(a, b, m, base, i),
        forall|i: int|
            0 <= i <= n ==> (#[trigger] flow::discounted(m, b.amounts, b.deltas, base, i)).finite()
                && flow::discounted_deriv(m, b.amounts, b.deltas, base, i).finite(),
    ensures
        scales(
            flow::discounted(m, a.amounts, a.deltas, base, n),
            flow::discounted(m, b.amounts, b.deltas, base, n),
            k,
        ),
        scales(
            flow::discounted_deriv(m, a.amounts, a.deltas, base, n),
            flow::discounted_deriv(m, b.amounts, b.deltas, base, n),
            k,
        ),
    decreases n,
{
    if n == 0 {
        lemma_pow2_pos(k);
        arithmetic::lemma_units_order(0, 0);
        lemma_mul_basics(pow2(k) as int);
    } else {
        let i = n - 1;
        lemma_npv_scales(a, b, m, base, k, i);
        assert(payment_kept(a, b, m, base, i));
        assert(scales(a.amounts[i], b.amounts[i], k));
        let exponent = a.deltas[i].opposite();
        let w = m(Call::Powf(base, exponent));
        let (term, big) = (a.amounts[i].product(w), b.amounts[i].product(w));
        lemma_product_scales(a.amounts[i], b.amounts[i], w, k);
        lemma_product_scales(term, big, exponent, k);
        lemma_quotient_scales(term.product(exponent), big.product(exponent), base, k);
        assert(flow::discounted(m, b.amounts, b.deltas, base, n).finite());
        lemma_sum_scales(
            flow::discounted(m, a.amounts, a.deltas, base, i),
            term,
            flow::discounted(m, b.amounts, b.deltas, base, i),
            big,
            k,
        );
        lemma_sum_scales(
            flow::discounted_deriv(m, a.amounts, a.deltas, base, i),
            term.product(exponent).quotient(base),
            flow::discounted_deriv(m, b.amounts, b.deltas, base, i),
            big.product(exponent).quotient(base),
            k,
        );
    }
}

/// Multiplying every amount by a power of two does not move the spreadsheet's
/// rate by a bit, as long as nothing is lost at the rates the search comes by.
/// Neither does it move the default policy's rate, where the spreadsheet has one.
pub proof fn law_denomination_does_not_move_the_rate(
    a: Flow,
    b: Flow,
    m: spec_fn(Call) -> Double,
    guess: Double,
    k: nat,
)
    requires
        redenominated(a, b, k),
        forall|rate: Double| #[trigger]
            laws::excel_visits(a.npv_fn(m), guess, rate) ==> kept_at(a, b, m, rate),
    ensures
        a.spreadsheet_rate(m, guess) == b.spreadsheet_rate(m, guess),
        a.spreadsheet_rate(m, guess).finite() ==> a.rate(
            m,
            guess,
            RootPolicy::SpreadsheetThenRobust,
        ) == b.rate(m, guess, RootPolicy::SpreadsheetThenRobust),
{
    let (f, g) = (a.npv_fn(m), b.npv_fn(m));
    assert forall|rate: Double| #[trigger] laws::excel_visits(f, guess, rate) implies laws::steps_alike(
        f,
        g,
        rate,
    ) by {
        assert(kept_at(a, b, m, rate));
        if !rate.le(Double::from_bits(MINUS_ONE)) {
            let base = Double::from_bits(ONE).sum(rate);
            let n = netted::paired(a.deltas, a.amounts);
            lemma_npv_scales(a, b, m, base, k, n);
            let (x, y) = (a.npv(m, rate), b.npv(m, rate));
            lemma_quotient_unmoved(x.0, x.1, y.0, y.1, k);
        }
    }
    laws::law_excel_order_depends_on_steps_alone(f, g, guess);
}

} // verus!
