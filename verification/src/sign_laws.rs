//! What the signs of a netted cash flow prove about its roots.

use crate::arithmetic;
use crate::double;
use crate::double::{Double, MINUS_ONE, ONE};
use crate::flow;
use crate::flow::Flow;
use crate::host::Call;
use crate::log_rate;
use crate::netted;
use crate::netted::Term;
use crate::rounding;
use crate::rounding_laws;
use vstd::arithmetic::mul::*;
use vstd::arithmetic::power2::*;
use vstd::prelude::*;

verus! {

// ---------------------------------------------------------------------------
// Counting sign changes
// ---------------------------------------------------------------------------

/// The number of sign changes is odd exactly if the first and the last amount
/// differ in sign: the limits of the objective at the two ends of the domain.
pub proof fn law_parity_of_sign_changes(terms: Seq<Term>)
    requires
        terms.len() > 0,
    ensures
        netted::changes(terms, terms.len() as int) % 2 == 1 <==> terms[0].amount.positive()
            != terms.last().amount.positive(),
{
    lemma_parity(terms, terms.len() as int);
}

proof fn lemma_parity(terms: Seq<Term>, n: int)
    requires
        0 < n <= terms.len(),
    ensures
        netted::changes(terms, n) % 2 == 1 <==> terms[0].amount.positive() != terms[n
            - 1].amount.positive(),
    decreases n,
{
    if n > 1 {
        lemma_parity(terms, n - 1);
    }
}

/// Without a sign change all amounts are positive, or none is.
pub proof fn law_no_sign_change_means_one_sign(terms: Seq<Term>, i: int)
    requires
        0 <= i < terms.len(),
        netted::changes(terms, terms.len() as int) == 0,
    ensures
        terms[i].amount.positive() == terms[0].amount.positive(),
{
    lemma_changes_grow(terms, i + 1, terms.len() as int);
    lemma_one_sign(terms, i + 1);
}

proof fn lemma_changes_grow(terms: Seq<Term>, n: int, m: int)
    requires
        0 <= n <= m,
    ensures
        netted::changes(terms, n) <= netted::changes(terms, m),
    decreases m,
{
    if n < m {
        lemma_changes_grow(terms, n, m - 1);
    }
}

proof fn lemma_one_sign(terms: Seq<Term>, n: int)
    requires
        0 < n,
        netted::changes(terms, n) == 0,
    ensures
        terms[n - 1].amount.positive() == terms[0].amount.positive(),
    decreases n,
{
    if n > 1 {
        lemma_one_sign(terms, n - 1);
    }
}

// ---------------------------------------------------------------------------
// Exact sums
// ---------------------------------------------------------------------------

/// The exact sum of the first `n` amounts, each with a weight of its own.
pub open spec fn weighted_sum(terms: Seq<Term>, weights: Seq<int>, n: int) -> int
    decreases n,
{
    if n <= 0 {
        0
    } else {
        weighted_sum(terms, weights, n - 1) + terms[n - 1].amount.value() * weights[n - 1]
    }
}

/// One positive weight per term.
pub open spec fn weights_ok(terms: Seq<Term>, weights: Seq<int>) -> bool {
    &&& weights.len() == terms.len()
    &&& forall|i: int| 0 <= i < weights.len() ==> #[trigger] weights[i] > 0
}

/// Every amount is finite and not zero.
pub open spec fn amounts_ok(terms: Seq<Term>) -> bool {
    forall|i: int|
        0 <= i < terms.len() ==> (#[trigger] terms[i]).amount.finite() && !terms[i].amount.zero()
}

/// A flow without a sign change has no root: whatever the discount factors, as
/// long as they are positive, the exact present value has the sign of the
/// amounts and is not zero.
pub proof fn law_no_sign_change_means_no_root(terms: Seq<Term>, weights: Seq<int>)
    requires
        terms.len() > 0,
        amounts_ok(terms),
        weights_ok(terms, weights),
        netted::changes(terms, terms.len() as int) == 0,
    ensures
        weighted_sum(terms, weights, terms.len() as int) != 0,
        weighted_sum(terms, weights, terms.len() as int) > 0 <==> terms[0].amount.positive(),
{
    lemma_one_signed_sum(terms, weights, terms.len() as int);
}

pub proof fn lemma_value_sign(x: Double)
    requires
        x.finite(),
        !x.zero(),
    ensures
        x.positive() <==> x.value() > 0,
        x.value() != 0,
{
    arithmetic::lemma_units_order(x.mag(), x.mag());
}

proof fn lemma_one_signed_sum(terms: Seq<Term>, weights: Seq<int>, n: int)
    requires
        0 < n <= terms.len(),
        amounts_ok(terms),
        weights_ok(terms, weights),
        netted::changes(terms, terms.len() as int) == 0,
    ensures
        terms[0].amount.positive() ==> weighted_sum(terms, weights, n) > 0,
        !terms[0].amount.positive() ==> weighted_sum(terms, weights, n) < 0,
    decreases n,
{
    law_no_sign_change_means_one_sign(terms, n - 1);
    lemma_value_sign(terms[n - 1].amount);
    let a = terms[n - 1].amount.value();
    let w = weights[n - 1];
    assert((a > 0 ==> a * w > 0) && (a < 0 ==> a * w < 0)) by (nonlinear_arith)
        requires
            w > 0,
    ;
    if n > 1 {
        lemma_one_signed_sum(terms, weights, n - 1);
    } else {
        assert(weighted_sum(terms, weights, 0) == 0);
    }
}

/// The sum of the sizes of the first `n` weighted amounts other than term `r`.
pub open spec fn other_sizes(terms: Seq<Term>, weights: Seq<int>, r: int, n: int) -> int
    decreases n,
{
    if n <= 0 {
        0
    } else if n - 1 == r {
        other_sizes(terms, weights, r, n - 1)
    } else {
        other_sizes(terms, weights, r, n - 1) + double::units(terms[n - 1].amount.mag())
            * weights[n - 1]
    }
}

/// A term that outweighs all the others together decides the sign of the exact
/// present value: the first term does at large rates, the last one near `-1`.
pub proof fn law_a_dominant_term_decides_the_sign(terms: Seq<Term>, weights: Seq<int>, r: int)
    requires
        amounts_ok(terms),
        weights_ok(terms, weights),
        0 <= r < terms.len(),
        double::units(terms[r].amount.mag()) * weights[r] > other_sizes(
            terms,
            weights,
            r,
            terms.len() as int,
        ),
    ensures
        weighted_sum(terms, weights, terms.len() as int) != 0,
        weighted_sum(terms, weights, terms.len() as int) > 0 <==> terms[r].amount.positive(),
{
    lemma_value_sign(terms[r].amount);
    lemma_sum_near_term(terms, weights, r, terms.len() as int);
    let a = terms[r].amount.value();
    let u = double::units(terms[r].amount.mag());
    let w = weights[r];
    assert((a == u || a == -u) ==> (a * w == u * w || a * w == -(u * w))) by (nonlinear_arith);
    assert((a > 0 ==> a * w > 0) && (a < 0 ==> a * w < 0)) by (nonlinear_arith)
        requires
            w > 0,
    ;
    assert(a == u ==> a * w == u * w);
    assert(a == -u ==> a * w == -(u * w)) by (nonlinear_arith);
}

proof fn lemma_sum_near_term(terms: Seq<Term>, weights: Seq<int>, r: int, n: int)
    requires
        amounts_ok(terms),
        weights_ok(terms, weights),
        0 <= n <= terms.len(),
        0 <= r < terms.len(),
    ensures
        ({
            let own = if r < n {
                terms[r].amount.value() * weights[r]
            } else {
                0
            };
            let rest = other_sizes(terms, weights, r, n);
            own - rest <= weighted_sum(terms, weights, n) <= own + rest
        }),
    decreases n,
{
    if n > 0 {
        lemma_sum_near_term(terms, weights, r, n - 1);
        let a = terms[n - 1].amount.value();
        let u = double::units(terms[n - 1].amount.mag());
        let w = weights[n - 1];
        arithmetic::lemma_units_order(terms[n - 1].amount.mag(), terms[n - 1].amount.mag());
        assert(-(u * w) <= a * w <= u * w) by (nonlinear_arith)
            requires
                -u <= a <= u,
                w > 0,
        ;
    }
}

/// A flow with one sign change has at most one root. The discount factors at
/// two different rates are weights of which, the later a term is due, the
/// second ones are the smaller next to the first; and if the exact present
/// value vanishes with the first ones, it does not with the second.
pub proof fn law_one_sign_change_means_at_most_one_root(
    terms: Seq<Term>,
    first: Seq<int>,
    second: Seq<int>,
)
    requires
        amounts_ok(terms),
        weights_ok(terms, first),
        weights_ok(terms, second),
        forall|i: int, j: int|
            0 <= i < j < terms.len() ==> #[trigger] second[i] * #[trigger] first[j] > second[j]
                * first[i],
        netted::changes(terms, terms.len() as int) == 1,
        weighted_sum(terms, first, terms.len() as int) == 0,
    ensures
        weighted_sum(terms, second, terms.len() as int) != 0,
{
    let n = terms.len() as int;
    let k = lemma_split(terms, n);
    let p = k - 1;
    lemma_tilted_sign(terms, first, second, k, n);
    lemma_tilted(terms, first, second, p, n);
    assert(first[p] * weighted_sum(terms, second, n) - second[p] * weighted_sum(terms, first, n)
        != 0);
    lemma_mul_basics(second[p]);
    lemma_mul_basics(first[p]);
}

/// Where the one sign change is.
proof fn lemma_split(terms: Seq<Term>, n: int) -> (k: int)
    requires
        0 < n <= terms.len(),
        netted::changes(terms, n) == 1,
    ensures
        0 < k < n,
        forall|i: int|
            0 <= i < k ==> (#[trigger] terms[i]).amount.positive() == terms[0].amount.positive(),
        forall|i: int|
            k <= i < n ==> (#[trigger] terms[i]).amount.positive() != terms[0].amount.positive(),
    decreases n,
{
    if terms[n - 2].amount.positive() != terms[n - 1].amount.positive() {
        assert forall|i: int| 0 <= i < n - 1 implies (#[trigger] terms[i]).amount.positive()
            == terms[0].amount.positive() by {
            lemma_changes_grow(terms, i + 1, n - 1);
            lemma_one_sign(terms, i + 1);
        }
        n - 1
    } else {
        lemma_split(terms, n - 1)
    }
}

/// The amounts weighted by how far the ratio of the weights is above that of
/// term `p`.
pub open spec fn tilted_sum(
    terms: Seq<Term>,
    first: Seq<int>,
    second: Seq<int>,
    p: int,
    n: int,
) -> int
    decreases n,
{
    if n <= 0 {
        0
    } else {
        tilted_sum(terms, first, second, p, n - 1) + terms[n - 1].amount.value() * (second[n - 1]
            * first[p] - first[n - 1] * second[p])
    }
}

proof fn lemma_tilted(terms: Seq<Term>, first: Seq<int>, second: Seq<int>, p: int, n: int)
    ensures
        tilted_sum(terms, first, second, p, n) == first[p] * weighted_sum(terms, second, n)
            - second[p] * weighted_sum(terms, first, n),
    decreases n,
{
    if n <= 0 {
        lemma_mul_basics(first[p]);
        lemma_mul_basics(second[p]);
    } else {
        lemma_tilted(terms, first, second, p, n - 1);
        let a = terms[n - 1].amount.value();
        let (x, y) = (weighted_sum(terms, second, n - 1), weighted_sum(terms, first, n - 1));
        let (f, s) = (first[n - 1], second[n - 1]);
        let (g, t) = (first[p], second[p]);
        assert(g * x - t * y + a * (s * g - f * t) == g * (x + a * s) - t * (y + a * f))
            by (nonlinear_arith);
    }
}

proof fn lemma_tilted_sign(terms: Seq<Term>, first: Seq<int>, second: Seq<int>, k: int, n: int)
    requires
        0 < k <= n <= terms.len(),
        amounts_ok(terms),
        weights_ok(terms, first),
        weights_ok(terms, second),
        forall|i: int, j: int|
            0 <= i < j < terms.len() ==> #[trigger] second[i] * #[trigger] first[j] > second[j]
                * first[i],
        forall|i: int|
            0 <= i < k ==> (#[trigger] terms[i]).amount.positive() == terms[0].amount.positive(),
        forall|i: int|
            k <= i < n ==> (#[trigger] terms[i]).amount.positive() != terms[0].amount.positive(),
    ensures
        terms[0].amount.positive() ==> tilted_sum(terms, first, second, k - 1, n) >= 0 && (k < n
            ==> tilted_sum(terms, first, second, k - 1, n) > 0),
        !terms[0].amount.positive() ==> tilted_sum(terms, first, second, k - 1, n) <= 0 && (k < n
            ==> tilted_sum(terms, first, second, k - 1, n) < 0),
    decreases n,
{
    let p = k - 1;
    if n == k {
        lemma_tilted_low(terms, first, second, k, k);
    } else {
        lemma_tilted_sign(terms, first, second, k, n - 1);
        lemma_value_sign(terms[n - 1].amount);
        assert(terms[n - 1].amount.positive() != terms[0].amount.positive());
        let a = terms[n - 1].amount.value();
        let c = second[n - 1] * first[p] - first[n - 1] * second[p];
        assert(second[p] * first[n - 1] > second[n - 1] * first[p]);
        lemma_mul_is_commutative(second[p], first[n - 1]);
        assert((a > 0 ==> a * c < 0) && (a < 0 ==> a * c > 0)) by (nonlinear_arith)
            requires
                c < 0,
        ;
    }
}

/// Up to the sign change, every term of the tilted sum has the first sign.
proof fn lemma_tilted_low(terms: Seq<Term>, first: Seq<int>, second: Seq<int>, k: int, n: int)
    requires
        0 < k <= terms.len(),
        0 <= n <= k,
        amounts_ok(terms),
        weights_ok(terms, first),
        weights_ok(terms, second),
        forall|i: int, j: int|
            0 <= i < j < terms.len() ==> #[trigger] second[i] * #[trigger] first[j] > second[j]
                * first[i],
        forall|i: int|
            0 <= i < k ==> (#[trigger] terms[i]).amount.positive() == terms[0].amount.positive(),
    ensures
        terms[0].amount.positive() ==> tilted_sum(terms, first, second, k - 1, n) >= 0,
        !terms[0].amount.positive() ==> tilted_sum(terms, first, second, k - 1, n) <= 0,
    decreases n,
{
    if n > 0 {
        let p = k - 1;
        lemma_tilted_low(terms, first, second, k, n - 1);
        lemma_value_sign(terms[n - 1].amount);
        assert(terms[n - 1].amount.positive() == terms[0].amount.positive());
        let a = terms[n - 1].amount.value();
        let c = second[n - 1] * first[p] - first[n - 1] * second[p];
        if n - 1 < p {
            assert(second[n - 1] * first[p] > second[p] * first[n - 1]);
        }
        lemma_mul_is_commutative(second[p], first[n - 1]);
        assert((a > 0 ==> a * c >= 0) && (a < 0 ==> a * c <= 0)) by (nonlinear_arith)
            requires
                c >= 0,
        ;
    }
}

// ---------------------------------------------------------------------------
// Rounded sums
// ---------------------------------------------------------------------------

/// No difference of two year fractions overflows.
pub open spec fn spans_finitely(terms: Seq<Term>) -> bool {
    forall|i: int, j: int|
        0 <= i < terms.len() && 0 <= j < terms.len() ==> (#[trigger] terms[i]).delta.difference(
            (#[trigger] terms[j]).delta,
        ).finite()
}

/// The elementary functions have the signs they have on paper: powers of `e`
/// with exponents up to zero are not negative and finite, the zeroth is one,
/// and rates above `-1` have finite logarithms.
pub open spec fn elementary(m: spec_fn(Call) -> Double) -> bool {
    &&& forall|x: Double|
        !x.positive() && !x.nan() ==> (#[trigger] m(Call::Exp(x))).finite() && !m(
            Call::Exp(x),
        ).negative()
    &&& forall|x: Double| x.zero() ==> #[trigger] m(Call::Exp(x)) == Double::from_bits(ONE)
    &&& forall|rate: Double|
        rate.finite() && !rate.le(Double::from_bits(MINUS_ONE)) ==> (#[trigger] m(
            Call::Ln1p(rate),
        )).finite()
}

/// Scaling makes every exponent at most zero, at every log-rate, and that of
/// the reference term zero: no discount factor overflows, and one of them is
/// exactly one.
pub proof fn law_scaled_exponents_are_not_positive(terms: Seq<Term>, u: Double, i: int)
    requires
        netted::well_netted(terms),
        spans_finitely(terms),
        u.finite(),
        0 <= i < terms.len(),
    ensures
        !netted::scaled_exponent(terms, u, i).nan(),
        !netted::scaled_exponent(terms, u, i).positive(),
        Double::from_bits(0).le(u) ==> netted::scaled_exponent(terms, u, 0).zero(),
        !Double::from_bits(0).le(u) ==> netted::scaled_exponent(terms, u, terms.len() - 1).zero(),
{
    let last = terms.len() - 1;
    assert(terms[i].delta.finite() && terms[0].delta.finite() && terms[last].delta.finite());
    if Double::from_bits(0).le(u) {
        let gap = terms[i].delta.difference(terms[0].delta);
        assert(gap.finite());
        if i > 0 {
            assert(terms[0].delta.key() < terms[i].delta.key());
        }
        lemma_difference_order(terms[i].delta, terms[0].delta);
        lemma_difference_order(terms[0].delta, terms[0].delta);
        lemma_product_sign(u.opposite(), gap);
        lemma_product_sign(u.opposite(), terms[0].delta.difference(terms[0].delta));
    } else {
        let gap = terms[i].delta.difference(terms[last].delta);
        assert(gap.finite());
        if i < last {
            assert(terms[i].delta.key() < terms[last].delta.key());
        }
        lemma_difference_order(terms[i].delta, terms[last].delta);
        lemma_difference_order(terms[last].delta, terms[last].delta);
        lemma_product_sign(u.opposite(), gap);
        lemma_product_sign(u.opposite(), terms[last].delta.difference(terms[last].delta));
    }
}

/// A difference has the sign of the comparison.
proof fn lemma_difference_order(a: Double, b: Double)
    requires
        a.finite(),
        b.finite(),
    ensures
        a.key() >= b.key() ==> a.difference(b).key() >= 0,
        a.key() <= b.key() ==> a.difference(b).key() <= 0,
        !a.difference(b).nan(),
{
    arithmetic::lemma_units_order(a.mag(), b.mag());
    arithmetic::lemma_units_order(b.mag(), a.mag());
    let exact = a.value() - b.value();
    assert(b.opposite().value() == -b.value());
    assert(a.key() >= b.key() ==> exact >= 0);
    assert(a.key() <= b.key() ==> exact <= 0);
    if exact > 0 {
        arithmetic::lemma_round_range(exact, 1);
    } else if exact < 0 {
        arithmetic::lemma_round_range(-exact, 1);
    }
}

/// A product of finite numbers is a number, and has the sign it should.
pub proof fn lemma_product_sign(a: Double, b: Double)
    requires
        a.finite(),
        b.finite(),
    ensures
        !a.product(b).nan(),
        a.product(b).negative() == (a.negative() != b.negative()),
        a.zero() || b.zero() ==> a.product(b).zero(),
        a.product(b).mag() == rounding::round(
            double::units(a.mag()) * double::units(b.mag()),
            pow2(1074) as int,
        ),
{
    let exact = double::units(a.mag()) * double::units(b.mag());
    arithmetic::lemma_units_order(a.mag(), a.mag());
    arithmetic::lemma_units_order(b.mag(), b.mag());
    lemma_pow2_pos(1074);
    assert(exact >= 0 && (double::units(a.mag()) == 0 || double::units(b.mag()) == 0 ==> exact
        == 0)) by (nonlinear_arith)
        requires
            exact == double::units(a.mag()) * double::units(b.mag()),
            double::units(a.mag()) >= 0,
            double::units(b.mag()) >= 0,
    ;
    arithmetic::lemma_round_range(exact, pow2(1074) as int);
    arithmetic::lemma_round_zero(pow2(1074) as int);
}

/// The sign changes that prove a flow rootless prove it of the rounded search
/// too: no rate passes as a root.
pub proof fn law_no_sign_change_means_no_rate_passes(
    flow: Flow,
    m: spec_fn(Call) -> Double,
    rate: Double,
)
    requires
        elementary(m),
        netted::well_netted(flow.terms()),
        spans_finitely(flow.terms()),
        amounts_ok(flow.terms()),
        flow.change_count() == 0,
    ensures
        !flow.is_root(m, rate),
{
    let terms = flow.terms();
    let n = terms.len() as int;
    if flow.is_root(m, rate) {
        let u = log_rate::log_rate(m, rate);
        let value = flow.g(m, u).0;
        let size = flow.gross(m, u);
        assert(u.finite());
        lemma_mirrored(m, terms, u, n);
        if n > 0 {
            let r = if Double::from_bits(0).le(u) {
                0
            } else {
                n - 1
            };
            law_scaled_exponents_are_not_positive(terms, u, r);
            lemma_gross_above(m, terms, u, r, n);
            lemma_times_one(terms[r].amount.magnitude());
        }
        assert(value.magnitude().key() == size.key());
        lemma_not_within_tolerance(size);
    }
}

/// The term's amount times a weight that is finite and not negative.
pub proof fn lemma_term(m: spec_fn(Call) -> Double, terms: Seq<Term>, u: Double, i: int)
    requires
        elementary(m),
        netted::well_netted(terms),
        spans_finitely(terms),
        amounts_ok(terms),
        u.finite(),
        0 <= i < terms.len(),
    ensures
        ({
            let w = netted::weight(m, terms, u, i);
            let a = terms[i].amount;
            &&& !a.magnitude().product(w).nan()
            &&& a.magnitude().product(w).key() >= 0
            &&& a.positive() ==> a.product(w).key() == a.magnitude().product(w).key()
            &&& !a.positive() ==> a.product(w).key() == -a.magnitude().product(w).key()
            &&& !a.product(w).nan()
        }),
{
    law_scaled_exponents_are_not_positive(terms, u, i);
    let w = netted::weight(m, terms, u, i);
    let a = terms[i].amount;
    assert(w.finite() && !w.negative());
    lemma_product_sign(a, w);
    lemma_product_sign(a.magnitude(), w);
}

/// Without a sign change, the value is the gross size or its opposite.
pub proof fn lemma_mirrored(m: spec_fn(Call) -> Double, terms: Seq<Term>, u: Double, n: int)
    requires
        elementary(m),
        netted::well_netted(terms),
        spans_finitely(terms),
        amounts_ok(terms),
        u.finite(),
        0 <= n <= terms.len(),
        netted::changes(terms, terms.len() as int) == 0,
    ensures
        ({
            let v = netted::g_value(m, terms, u, n);
            let g = netted::g_gross(m, terms, u, n);
            &&& !v.nan() && !g.nan()
            &&& g.key() >= 0
            &&& terms.len() > 0 && terms[0].amount.positive() ==> v.key() == g.key()
            &&& terms.len() > 0 && !terms[0].amount.positive() ==> v.key() == -g.key()
            &&& terms.len() == 0 ==> v.key() == 0 && g.key() == 0
        }),
    decreases n,
{
    if n > 0 {
        lemma_mirrored(m, terms, u, n - 1);
        lemma_term(m, terms, u, n - 1);
        law_no_sign_change_means_one_sign(terms, n - 1);
        let w = netted::weight(m, terms, u, n - 1);
        let a = terms[n - 1].amount;
        let v = netted::g_value(m, terms, u, n - 1);
        let g = netted::g_gross(m, terms, u, n - 1);
        lemma_sum_mirror(g, a.magnitude().product(w), v, a.product(w));
        lemma_sum_above(g, a.magnitude().product(w));
    }
}

/// Sums of numbers with the same keys, or with opposite keys, have the same or
/// opposite keys.
proof fn lemma_sum_mirror(x: Double, y: Double, a: Double, b: Double)
    requires
        !x.nan() && !y.nan() && !a.nan() && !b.nan(),
        x.key() >= 0,
        y.key() >= 0,
        (a.key() == x.key() && b.key() == y.key()) || (a.key() == -x.key() && b.key() == -y.key()),
    ensures
        !x.sum(y).nan(),
        !a.sum(b).nan(),
        a.key() == x.key() && b.key() == y.key() ==> a.sum(b).key() == x.sum(y).key(),
        a.key() == -x.key() && b.key() == -y.key() ==> a.sum(b).key() == -x.sum(y).key(),
{
    if x.finite() && y.finite() {
        arithmetic::lemma_units_order(x.mag(), y.mag());
        arithmetic::lemma_units_order(y.mag(), x.mag());
        arithmetic::lemma_units_order(0, 0);
        let exact = x.value() + y.value();
        arithmetic::lemma_round_range(exact, 1);
        arithmetic::lemma_round_zero(1);
    }
}

/// A sum of numbers that are not negative is at least each of them.
pub proof fn lemma_sum_above(x: Double, y: Double)
    requires
        !x.nan() && !y.nan(),
        x.key() >= 0,
        y.key() >= 0,
    ensures
        x.sum(y).key() >= x.key(),
        x.sum(y).key() >= y.key(),
        !x.sum(y).nan(),
{
    if x.finite() && y.finite() {
        arithmetic::lemma_units_order(x.mag(), y.mag());
        arithmetic::lemma_units_order(y.mag(), x.mag());
        arithmetic::lemma_units_order(0, 0);
        let exact = x.value() + y.value();
        rounding_laws::lemma_round_exact(x.mag(), 1);
        rounding_laws::lemma_round_exact(y.mag(), 1);
        rounding_laws::lemma_round_order(double::units(x.mag()), exact, 1);
        rounding_laws::lemma_round_order(double::units(y.mag()), exact, 1);
        arithmetic::lemma_round_range(exact, 1);
        arithmetic::lemma_round_zero(1);
    }
}

/// The gross size is a number, and at least the size of each term.
pub proof fn lemma_gross_above(
    m: spec_fn(Call) -> Double,
    terms: Seq<Term>,
    u: Double,
    i: int,
    n: int,
)
    requires
        elementary(m),
        netted::well_netted(terms),
        spans_finitely(terms),
        amounts_ok(terms),
        u.finite(),
        0 <= n <= terms.len(),
    ensures
        !netted::g_gross(m, terms, u, n).nan(),
        netted::g_gross(m, terms, u, n).key() >= 0,
        0 <= i < n ==> netted::g_gross(m, terms, u, n).key()
            >= terms[i].amount.magnitude().product(netted::weight(m, terms, u, i)).key(),
    decreases n,
{
    if n > 0 {
        lemma_gross_above(m, terms, u, i, n - 1);
        lemma_term(m, terms, u, n - 1);
        let w = netted::weight(m, terms, u, n - 1);
        lemma_sum_above(
            netted::g_gross(m, terms, u, n - 1),
            terms[n - 1].amount.magnitude().product(w),
        );
    }
}

/// Multiplying by one changes nothing.
pub proof fn lemma_times_one(x: Double)
    requires
        x.finite(),
        !x.negative(),
    ensures
        x.product(Double::from_bits(ONE)) == x,
{
    lemma2_to64_rest();
    lemma_pow2_pos(1074);
    lemma_pow2_adds(52, 1022);
    assert(double::exponent(ONE as int) == 1022);
    assert(double::significand(ONE as int) == double::HIDDEN_BIT);
    rounding_laws::lemma_round_exact(x.mag(), pow2(1074) as int);
}

/// A positive number is not within a small part of itself.
proof fn lemma_not_within_tolerance(g: Double)
    requires
        g.finite(),
        g.positive(),
    ensures
        !g.le(Double::from_bits(flow::RESIDUAL_REL_TOL).product(g)),
{
    let tol = Double::from_bits(flow::RESIDUAL_REL_TOL);
    let t = double::units(tol.mag());
    let v = double::units(g.mag());
    let d = pow2(1074) as int;
    let exact = t * v;
    lemma2_to64_rest();
    lemma_pow2_pos(992);
    lemma_pow2_pos(1074);
    lemma_pow2_adds(53, 992);
    lemma_pow2_adds(1045, 29);
    lemma2_to64();
    lemma_pow2_pos(1045);
    assert(double::exponent(tol.mag()) == 992);
    assert(double::significand(tol.mag()) < pow2(53));
    assert(t < pow2(1045)) by (nonlinear_arith)
        requires
            t == double::significand(tol.mag()) * pow2(992),
            double::significand(tol.mag()) < pow2(53),
            pow2(1045) == pow2(53) * pow2(992),
            pow2(992) > 0,
    ;
    arithmetic::lemma_units_order(tol.mag(), tol.mag());
    arithmetic::lemma_units_order(g.mag(), g.mag());
    assert(0 <= 2 * exact < v * d) by (nonlinear_arith)
        requires
            exact == t * v,
            0 <= t < pow2(1045),
            d == pow2(1045) * 0x2000_0000,
            v > 0,
            pow2(1045) > 0,
    ;
    rounding_laws::lemma_round_exact(g.mag(), d);
    rounding_laws::lemma_round_order(exact, v * d, d);
    let r = rounding::round(exact, d);
    arithmetic::lemma_round_range(exact, d);
    rounding_laws::law_round_is_nearest(exact, d, 0);
    arithmetic::lemma_units_order(r, g.mag());
    arithmetic::lemma_units_order(g.mag(), r);
    arithmetic::lemma_units_order(0, 0);
    assert(double::units(r) * d <= 2 * exact) by {
        lemma_mul_basics(d);
    }
    assert(double::units(r) < v) by (nonlinear_arith)
        requires
            double::units(r) * d < v * d,
            d > 0,
    ;
}

} // verus!
