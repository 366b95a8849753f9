//! What conventions guarantee. Under the default one, year fractions order days,
//! so that netting by year fraction is netting by date.

use crate::arithmetic;
use crate::double;
use crate::double::{Double, HIDDEN_BIT, INF_BITS, ONE, SIGN_BIT};
use crate::flow;
use crate::flow::RootPolicy;
use crate::host::{Call, DayCount};
use crate::integers;
use crate::netted;
use crate::netted::Term;
use crate::netted_laws;
use crate::payments;
use crate::payments::{DateLike, DAYS_PER_YEAR};
use crate::root_bound;
use crate::rounding;
use crate::rounding_laws;
use crate::sign_laws;
use crate::size_laws;
use crate::xirr;
use crate::xirr::Outcome;
use crate::xirr_laws;
use vstd::arithmetic::mul::*;
use vstd::arithmetic::power2::*;
use vstd::prelude::*;

verus! {

/// Magnitude bits of `2^33`, which no number of years between dates reaches.
pub const MANY_YEARS: u64 = 0x4200_0000_0000_0000;

/// The year fraction of a number of days.
pub open spec fn years(days: int) -> Double {
    integers::whole(days).quotient(Double::from_bits(DAYS_PER_YEAR))
}

/// The power of two below a positive integer.
proof fn lemma_binade(a: int, top: nat) -> (k: nat)
    requires
        0 < a < pow2(top),
    ensures
        k < top,
        pow2(k) <= a < 2 * pow2(k),
    decreases top,
{
    if top == 0 {
        lemma2_to64();
        0
    } else {
        lemma_pow2_unfold(top);
        let half = (top - 1) as nat;
        if a < pow2(half) {
            lemma_binade(a, half)
        } else {
            half
        }
    }
}

/// An integer below `2^53` is a double.
pub proof fn lemma_small_integer(a: int) -> (mag: int)
    requires
        0 < a < pow2(53),
    ensures
        0 < mag < INF_BITS,
        double::units(mag) == a * pow2(1074),
        integers::whole(a) == double::signed(false, mag),
        integers::whole(-a) == double::signed(true, mag),
{
    lemma2_to64();
    lemma2_to64_rest();
    let k = lemma_binade(a, 53);
    let shift = (52 - k) as nat;
    let e = (1022 + k) as nat;
    let sig = a * pow2(shift);
    lemma_pow2_pos(shift);
    lemma_pow2_adds(k, shift);
    assert(HIDDEN_BIT <= sig < 2 * HIDDEN_BIT) by (nonlinear_arith)
        requires
            sig == a * pow2(shift),
            pow2(k) <= a < 2 * pow2(k),
            pow2(k) * pow2(shift) == HIDDEN_BIT,
            pow2(shift) > 0,
    ;
    rounding_laws::lemma_units_of_parts(sig, e);
    let mag = e * HIDDEN_BIT + sig;
    lemma_pow2_adds(shift, e);
    assert(sig * pow2(e) == a * pow2(1074)) by (nonlinear_arith)
        requires
            sig == a * pow2(shift),
            pow2(1074) == pow2(shift) * pow2(e),
    ;
    rounding_laws::lemma_round_exact(mag, 1);
    mag
}

/// How far a rounded quotient is off: at most half a unit in the last place,
/// which is at most one part in `2^53`, or half the smallest double.
pub proof fn lemma_round_error(n: int, d: int)
    requires
        n >= 0,
        d > 0,
        rounding::round(n, d) < INF_BITS,
    ensures
        ({
            let gap = d * pow2(rounding::scale(n, d));
            let off = double::units(rounding::round(n, d)) * d - n;
            &&& -gap <= 2 * off <= gap
            &&& rounding::scale(n, d) > 0 ==> HIDDEN_BIT * gap <= n
            &&& rounding::scale(n, d) == 0 ==> gap == d
        }),
{
    let e = rounding::scale(n, d);
    let b = pow2(e) as int;
    let gap = d * b;
    lemma2_to64();
    lemma2_to64_rest();
    lemma_pow2_pos(e);
    assert(gap > 0) by (nonlinear_arith)
        requires
            gap == d * b,
            d > 0,
            b > 0,
    ;
    rounding::lemma_scale_window(n, d);
    rounding_laws::lemma_half_even(n, gap);
    rounding_laws::lemma_significand_range(n, d);
    let q = rounding::half_even(n, gap);
    rounding_laws::lemma_units_of_parts(q, e);
    assert(double::units(rounding::round(n, d)) == q * b);
    assert((2 * q - 1) * gap == 2 * ((q * b) * d) - gap && (2 * q + 1) * gap == 2 * ((q * b) * d)
        + gap) by (nonlinear_arith)
        requires
            gap == d * b,
    ;
    if e > 0 {
        lemma_pow2_adds(52, e);
        assert(HIDDEN_BIT * gap == d * pow2(52 + e)) by (nonlinear_arith)
            requires
                gap == d * b,
                pow2(52 + e) == HIDDEN_BIT * b,
        ;
    } else {
        lemma_mul_basics(d);
    }
}

/// More days are more years, strictly.
proof fn lemma_quotients_apart(a: int, b: int)
    requires
        0 <= a < b < pow2(33),
    ensures
        ({
            let u = pow2(1074) as int * pow2(1074) as int;
            let d = 365 * (pow2(1074) as int);
            &&& rounding::round(a * u, d) < rounding::round(b * u, d) <= MANY_YEARS
            &&& rounding::round(a * u, d) >= 0
        }),
{
    let p = pow2(1074) as int;
    let u = p * p;
    let d = 365 * p;
    lemma_pow2_pos(1074);
    lemma2_to64();
    lemma2_to64_rest();
    assert(u > 0) by (nonlinear_arith)
        requires
            u == p * p,
            p > 0,
    ;
    let n = a * u;
    let m = b * u;
    assert(0 <= n && n + u <= m && m <= pow2(33) * u) by (nonlinear_arith)
        requires
            n == a * u,
            m == b * u,
            0 <= a,
            a + 1 <= b,
            b <= pow2(33),
            u > 0,
    ;
    rounding_laws::lemma_round_order(n, m, d);
    arithmetic::lemma_round_range(n, d);
    // The upper bound is a double itself.
    assert(double::exponent(MANY_YEARS as int) == 1055);
    assert(double::significand(MANY_YEARS as int) == HIDDEN_BIT);
    lemma_pow2_adds(52, 1055);
    lemma_pow2_adds(33, 1074);
    assert(double::units(MANY_YEARS as int) == pow2(33) * p);
    rounding_laws::lemma_round_exact(MANY_YEARS as int, d);
    assert(pow2(33) * u <= (pow2(33) * p) * d) by (nonlinear_arith)
        requires
            u == p * p,
            d == 365 * p,
            p > 0,
            pow2(33) > 0,
    ;
    rounding_laws::lemma_round_order(m, (pow2(33) * p) * d, d);
    if rounding::round(n, d) == rounding::round(m, d) {
        lemma_round_error(n, d);
        lemma_round_error(m, d);
        let r = double::units(rounding::round(n, d)) * d;
        let g = d * pow2(rounding::scale(n, d));
        let h = d * pow2(rounding::scale(m, d));
        assert(2 * (m - n) <= g + h);
        // Each gap is far below one day.
        lemma_pow2_adds(9, 1065);
        lemma_pow2_pos(1065);
        assert(d < u) by (nonlinear_arith)
            requires
                u == p * p,
                d == 365 * p,
                p == 512 * pow2(1065),
                pow2(1065) > 0,
        ;
        assert(HIDDEN_BIT * u > pow2(33) * u) by (nonlinear_arith)
            requires
                HIDDEN_BIT > pow2(33),
                u > 0,
        ;
        assert(g < u);
        assert(h < u);
    }
}

/// Year fractions of day counts: their order is that of the days, they are
/// finite and small, and none is a negative zero.
pub proof fn law_years_order_days(a: int, b: int)
    requires
        -pow2(33) < a < pow2(33),
        -pow2(33) < b < pow2(33),
    ensures
        years(a).key() < years(b).key() <==> a < b,
        years(a).key() == years(b).key() <==> a == b,
        years(a).finite(),
        years(a).mag() <= MANY_YEARS,
        years(a).bits != SIGN_BIT,
{
    lemma_years(a);
    lemma_years(b);
    let x = if a < 0 { -a } else { a };
    let y = if b < 0 { -b } else { b };
    if x < y {
        lemma_quotients_apart(x, y);
    } else if y < x {
        lemma_quotients_apart(y, x);
    }
}

proof fn lemma_years(a: int)
    requires
        -pow2(33) < a < pow2(33),
    ensures
        ({
            let x = if a < 0 { -a } else { a };
            let u = pow2(1074) as int * pow2(1074) as int;
            let d = 365 * (pow2(1074) as int);
            let r = rounding::round(x * u, d);
            &&& 0 <= r <= MANY_YEARS
            &&& x > 0 ==> r > 0
            &&& x == 0 ==> r == 0
            &&& years(a) == double::signed(a < 0, r)
        }),
{
    let x = if a < 0 { -a } else { a };
    let p = pow2(1074) as int;
    let u = p * p;
    let d = 365 * p;
    lemma_pow2_pos(1074);
    lemma2_to64();
    lemma2_to64_rest();
    assert(double::exponent(DAYS_PER_YEAR as int) == 1030);
    assert(double::significand(DAYS_PER_YEAR as int) == 365 * pow2(44));
    lemma_pow2_adds(44, 1030);
    assert((365 * pow2(44)) * pow2(1030) == 365 * (pow2(44) * pow2(1030))) by (nonlinear_arith);
    assert(double::units(DAYS_PER_YEAR as int) == d);
    arithmetic::lemma_round_zero(1);
    arithmetic::lemma_round_zero(d);
    if x == 0 {
        lemma_mul_basics(p);
        lemma_mul_basics(u);
        arithmetic::lemma_units_order(0, 0);
        lemma_quotients_apart(0, 1);
    } else {
        let mag = lemma_small_integer(x);
        assert((x * p) * p == x * u) by (nonlinear_arith)
            requires
                u == p * p,
        ;
        lemma_mul_basics(u);
        lemma_quotients_apart(0, x);
    }
}

/// Under the default convention two dates have the same year fraction exactly
/// if they are the same day, and later days have larger ones.
pub proof fn law_default_convention_separates_days(
    m: spec_fn(Call) -> Double,
    first: DateLike,
    a: DateLike,
    b: DateLike,
)
    ensures
        ({
            let x = payments::year_fraction(m, first, a, DayCount::ACT_365F);
            let y = payments::year_fraction(m, first, b, DayCount::ACT_365F);
            &&& x.same(y) <==> a == b
            &&& x.lt(y) <==> a.day < b.day
        }),
{
    lemma2_to64();
    lemma2_to64_rest();
    law_years_order_days(a.day - first.day, b.day - first.day);
    law_years_order_days(b.day - first.day, a.day - first.day);
}

/// The terms of dated payments under the default convention, before netting:
/// year fractions are finite, none is a negative zero, and amounts are finite.
pub proof fn law_dated_terms_are_unsummed(
    m: spec_fn(Call) -> Double,
    dates: Seq<DateLike>,
    amounts: Seq<Double>,
    n: int,
)
    requires
        n <= dates.len(),
    ensures
        netted_laws::unsummed(
            netted::finite_terms(
                payments::year_fraction_seq(m, dates, None),
                amounts,
                n,
            ),
        ),
        forall|i: int|
            #![trigger netted::finite_terms(payments::year_fraction_seq(m, dates, None), amounts, n)[i]]
            0 <= i < netted::finite_terms(
                payments::year_fraction_seq(m, dates, None),
                amounts,
                n,
            ).len() ==> netted::finite_terms(
                payments::year_fraction_seq(m, dates, None),
                amounts,
                n,
            )[i].delta.mag() <= MANY_YEARS,
    decreases n,
{
    let deltas = payments::year_fraction_seq(m, dates, None);
    if n > 0 {
        law_dated_terms_are_unsummed(m, dates, amounts, n - 1);
        lemma2_to64();
        lemma2_to64_rest();
        let days = dates[n - 1].day - dates[0].day;
        law_years_order_days(days, days);
        assert(deltas[n - 1] == years(days));
    }
}

/// Netted payments under the default convention have strictly ascending year
/// fractions whose differences do not overflow.
pub proof fn law_dated_flows_net_well(
    m: spec_fn(Call) -> Double,
    dates: Seq<DateLike>,
    amounts: Seq<Double>,
)
    ensures
        ({
            let terms = flow::flow_of(m, dates, amounts, None).terms();
            &&& netted::well_netted(terms)
            &&& sign_laws::spans_finitely(terms)
        }),
{
    let flow = flow::flow_of(m, dates, amounts, None);
    let n = netted::paired(flow.deltas, flow.amounts);
    let s = netted::finite_terms(flow.deltas, flow.amounts, n);
    law_dated_terms_are_unsummed(m, dates, amounts, n);
    netted_laws::law_netted_terms_ascend(s);
    let terms = flow.terms();
    assert forall|i: int, j: int| 0 <= i < terms.len() && 0 <= j < terms.len() implies (
    #[trigger] terms[i]).delta.difference((#[trigger] terms[j]).delta).finite() by {
        netted_laws::lemma_netted_delta(s, i);
        netted_laws::lemma_netted_delta(s, j);
        lemma_difference_finite(terms[i].delta, terms[j].delta);
    }
}

proof fn lemma_difference_finite(a: Double, b: Double)
    requires
        a.mag() <= MANY_YEARS,
        b.mag() <= MANY_YEARS,
    ensures
        a.difference(b).finite(),
{
    let top: int = MANY_YEARS + HIDDEN_BIT;
    lemma2_to64();
    assert(double::exponent(MANY_YEARS as int) == 1055);
    assert(double::significand(MANY_YEARS as int) == HIDDEN_BIT);
    assert(double::exponent(top) == 1056);
    assert(double::significand(top) == HIDDEN_BIT);
    lemma_pow2_unfold(1056);
    assert(HIDDEN_BIT * (2 * pow2(1055)) == 2 * (HIDDEN_BIT * pow2(1055))) by (nonlinear_arith);
    arithmetic::lemma_units_order(a.mag(), MANY_YEARS as int);
    arithmetic::lemma_units_order(b.mag(), MANY_YEARS as int);
    rounding_laws::lemma_round_exact(top, 1);
    let exact = a.value() - b.value();
    assert(b.opposite().value() == -b.value());
    let size = if exact < 0 { -exact } else { exact };
    assert(size <= double::units(top));
    rounding_laws::lemma_round_order(size, double::units(top), 1);
    arithmetic::lemma_round_range(size, 1);
}

// ---------------------------------------------------------------------------
// Flows of dated payments
// ---------------------------------------------------------------------------

/// Two neighbouring payments after the first may change places if they are due
/// on different days: the netted terms stay the same, and with them the roots.
pub proof fn law_later_payments_may_change_places(
    m: spec_fn(Call) -> Double,
    dates: Seq<DateLike>,
    amounts: Seq<Double>,
    i: int,
)
    requires
        dates.len() == amounts.len(),
        1 <= i < dates.len() - 1,
        dates[i] != dates[i + 1],
    ensures
        ({
            let a = flow::flow_of(m, dates, amounts, None);
            let b = flow::flow_of(m, exchanged(dates, i), exchanged(amounts, i), None);
            &&& a.terms() == b.terms()
            &&& a.poisoned() == b.poisoned()
            &&& a.change_count() == b.change_count()
            &&& a.roots(m) == b.roots(m)
        }),
{
    let a = flow::flow_of(m, dates, amounts, None);
    let b = flow::flow_of(m, exchanged(dates, i), exchanged(amounts, i), None);
    let n = dates.len() as int;
    let s = netted::finite_terms(a.deltas, a.amounts, n);
    let t = netted::finite_terms(b.deltas, b.amounts, n);
    law_dated_terms_are_unsummed(m, dates, amounts, n);
    law_dated_terms_are_unsummed(m, exchanged(dates, i), exchanged(amounts, i), n);
    assert(b.deltas =~= exchanged(a.deltas, i));
    law_default_convention_separates_days(m, dates[0], dates[i], dates[i + 1]);
    lemma2_to64();
    lemma2_to64_rest();
    law_years_order_days(dates[i].day - dates[0].day, dates[i + 1].day - dates[0].day);
    assert forall|k: int| #[trigger]
        netted_laws::net_amount(s, k) == netted_laws::net_amount(t, k) by {
        lemma_exchanged_groups(a.deltas, a.amounts, i, n, k);
    }
    netted_laws::law_netting_depends_on_net_amounts_alone(s, t);
    lemma_exchanged_finite(a.deltas, i);
    lemma_exchanged_finite(a.amounts, i);
    xirr_laws::law_roots_depend_on_netted_terms_alone(a, b, m, Double::from_bits(0));
}

/// `s` with the elements `i` and `i + 1` in each other's place.
pub open spec fn exchanged<T>(s: Seq<T>, i: int) -> Seq<T> {
    s.update(i, s[i + 1]).update(i + 1, s[i])
}

proof fn lemma_exchanged_finite(s: Seq<Double>, i: int)
    requires
        0 <= i < s.len() - 1,
    ensures
        netted::all_finite(s) == netted::all_finite(exchanged(s, i)),
{
    let t = exchanged(s, i);
    if netted::all_finite(t) {
        assert forall|j: int| 0 <= j < s.len() implies (#[trigger] s[j]).finite() by {
            assert(t[i].finite() && t[i + 1].finite());
            if j != i && j != i + 1 {
                assert(t[j] == s[j]);
            }
        }
    }
    if netted::all_finite(s) {
        assert forall|j: int| 0 <= j < t.len() implies (#[trigger] t[j]).finite() by {
            assert(s[i].finite() && s[i + 1].finite());
            if j != i && j != i + 1 {
                assert(t[j] == s[j]);
            }
        }
    }
}

/// Exchanging neighbours with different year fractions changes no group.
proof fn lemma_exchanged_groups(
    deltas: Seq<Double>,
    amounts: Seq<Double>,
    i: int,
    n: int,
    k: int,
)
    requires
        deltas.len() == amounts.len(),
        0 <= i < i + 2 <= n <= deltas.len(),
        deltas[i].key() != deltas[i + 1].key(),
    ensures
        netted_laws::group_sum(netted::finite_terms(deltas, amounts, n), k)
            == netted_laws::group_sum(
            netted::finite_terms(exchanged(deltas, i), exchanged(amounts, i), n),
            k,
        ),
    decreases n,
{
    let d = exchanged(deltas, i);
    let a = exchanged(amounts, i);
    if n > i + 2 {
        lemma_exchanged_groups(deltas, amounts, i, n - 1, k);
        lemma_group_of_last(deltas, amounts, n, k);
        lemma_group_of_last(d, a, n, k);
    } else {
        lemma_same_prefix(deltas, amounts, d, a, i);
        lemma_group_of_last(deltas, amounts, n, k);
        lemma_group_of_last(deltas, amounts, n - 1, k);
        lemma_group_of_last(d, a, n, k);
        lemma_group_of_last(d, a, n - 1, k);
    }
}

/// What the last of `n` payments adds to a group.
proof fn lemma_group_of_last(deltas: Seq<Double>, amounts: Seq<Double>, n: int, k: int)
    requires
        n > 0,
    ensures
        ({
            let rest = netted_laws::group_sum(netted::finite_terms(deltas, amounts, n - 1), k);
            let all = netted_laws::group_sum(netted::finite_terms(deltas, amounts, n), k);
            let (d, a) = (deltas[n - 1], amounts[n - 1]);
            if d.finite() && a.finite() && d.key() == k {
                all == match rest {
                    None => Some(a),
                    Some(x) => Some(x.sum(a)),
                }
            } else {
                all == rest
            }
        }),
{
    let rest = netted::finite_terms(deltas, amounts, n - 1);
    let t = netted::Term { delta: deltas[n - 1], amount: amounts[n - 1] };
    assert(rest.push(t).drop_last() =~= rest);
}

proof fn lemma_same_prefix(
    deltas: Seq<Double>,
    amounts: Seq<Double>,
    d: Seq<Double>,
    a: Seq<Double>,
    n: int,
)
    requires
        forall|j: int| 0 <= j < n ==> #[trigger] deltas[j] == d[j],
        forall|j: int| 0 <= j < n ==> #[trigger] amounts[j] == a[j],
    ensures
        netted::finite_terms(deltas, amounts, n) == netted::finite_terms(d, a, n),
    decreases n,
{
    if n > 0 {
        lemma_same_prefix(deltas, amounts, d, a, n - 1);
        assert(deltas[n - 1] == d[n - 1]);
        assert(amounts[n - 1] == a[n - 1]);
    }
}

/// Dated payments that net to one sign have no root: no rate passes, whatever
/// the elementary functions round to.
pub proof fn law_one_sided_payments_have_no_root(
    m: spec_fn(Call) -> Double,
    dates: Seq<DateLike>,
    amounts: Seq<Double>,
    rate: Double,
)
    requires
        sign_laws::elementary(m),
        flow::flow_of(m, dates, amounts, None).change_count() == 0,
        sign_laws::amounts_ok(flow::flow_of(m, dates, amounts, None).terms()),
    ensures
        !flow::flow_of(m, dates, amounts, None).is_root(m, rate),
{
    law_dated_flows_net_well(m, dates, amounts);
    sign_laws::law_no_sign_change_means_no_rate_passes(
        flow::flow_of(m, dates, amounts, None),
        m,
        rate,
    );
}

/// Dated payments whose netted amounts have a finite total size neither overflow
/// nor vanish, at any log-rate: value and gross size are finite, the value is at
/// most the gross size, and the gross size is zero exactly without terms.
pub proof fn law_payments_cancel_within_their_size(
    m: spec_fn(Call) -> Double,
    dates: Seq<DateLike>,
    amounts: Seq<Double>,
    u: Double,
)
    requires
        size_laws::discounting(m),
        ({
            let terms = flow::flow_of(m, dates, amounts, None).terms();
            size_laws::total_size(terms, terms.len() as int).finite()
        }),
        u.finite(),
    ensures
        ({
            let flow = flow::flow_of(m, dates, amounts, None);
            &&& flow.g(m, u).0.finite() && flow.gross(m, u).finite()
            &&& flow.g(m, u).0.magnitude().le(flow.gross(m, u))
            &&& flow.gross(m, u).zero() <==> flow.terms().len() == 0
        }),
{
    law_dated_flows_net_well(m, dates, amounts);
    size_laws::law_cancellation_ratio_is_at_most_one(
        m,
        flow::flow_of(m, dates, amounts, None).terms(),
        u,
    );
}

/// The number of days that a year fraction stands for.
pub open spec fn days_of(delta: Double) -> int {
    choose|days: int| 0 <= days < pow2(33) && #[trigger] years(days) == delta
}

/// The numbers of days after which terms are due.
pub open spec fn term_days(terms: Seq<Term>) -> Seq<nat> {
    Seq::new(terms.len(), |i: int| days_of(terms[i].delta) as nat)
}

/// Dated payments have no more roots than sign changes. The netted terms are due
/// after whole numbers of days, later and later ones, and no more daily
/// discount factors than there are sign changes make their exact present value
/// vanish.
pub proof fn law_sign_changes_bound_the_roots_of_payments(
    m: spec_fn(Call) -> Double,
    dates: Seq<DateLike>,
    amounts: Seq<Double>,
    roots: Seq<real>,
)
    requires
        !payments::some_before_first(dates),
        flow::flow_of(m, dates, amounts, None).terms().len() > 0,
        sign_laws::amounts_ok(flow::flow_of(m, dates, amounts, None).terms()),
        forall|i: int| 0 <= i < roots.len() ==> #[trigger] roots[i] > 0 as real,
        forall|i: int, j: int|
            0 <= i < j < roots.len() ==> #[trigger] roots[i] != #[trigger] roots[j],
        forall|i: int|
            0 <= i < roots.len() ==> root_bound::present_value(
                flow::flow_of(m, dates, amounts, None).terms(),
                term_days(flow::flow_of(m, dates, amounts, None).terms()),
                #[trigger] roots[i],
            ) == 0 as real,
    ensures
        roots.len() <= flow::flow_of(m, dates, amounts, None).change_count(),
        forall|i: int|
            #![trigger flow::flow_of(m, dates, amounts, None).terms()[i]]
            0 <= i < flow::flow_of(m, dates, amounts, None).terms().len() ==> years(
                term_days(flow::flow_of(m, dates, amounts, None).terms())[i] as int,
            ) == flow::flow_of(m, dates, amounts, None).terms()[i].delta,
{
    let flow = flow::flow_of(m, dates, amounts, None);
    let n = netted::paired(flow.deltas, flow.amounts);
    let s = netted::finite_terms(flow.deltas, flow.amounts, n);
    let terms = flow.terms();
    let days = term_days(terms);
    law_dated_terms_are_unsummed(m, dates, amounts, n);
    law_dated_flows_net_well(m, dates, amounts);
    lemma2_to64();
    lemma2_to64_rest();
    assert forall|i: int| 0 <= i < terms.len() implies 0 <= days_of((#[trigger] terms[i]).delta)
        < pow2(33) && years(days_of(terms[i].delta)) == terms[i].delta by {
        netted_laws::lemma_netted_delta(s, i);
        let j = choose|j: int| 0 <= j < s.len() && (#[trigger] s[j]).delta == terms[i].delta;
        lemma_delta_is_years(m, dates, amounts, n, j);
    }
    assert forall|i: int, j: int| 0 <= i < j < days.len() implies #[trigger] days[i]
        < #[trigger] days[j] by {
        assert(terms[i].delta.key() < terms[j].delta.key());
        law_years_order_days(days_of(terms[i].delta), days_of(terms[j].delta));
    }
    root_bound::law_sign_changes_bound_the_roots(terms, days, roots);
}

proof fn lemma_delta_is_years(
    m: spec_fn(Call) -> Double,
    dates: Seq<DateLike>,
    amounts: Seq<Double>,
    n: int,
    j: int,
)
    requires
        !payments::some_before_first(dates),
        0 <= n <= dates.len(),
        0 <= j < netted::finite_terms(
            payments::year_fraction_seq(m, dates, None),
            amounts,
            n,
        ).len(),
    ensures
        exists|days: int|
            0 <= days < pow2(33) && #[trigger] years(days) == netted::finite_terms(
                payments::year_fraction_seq(m, dates, None),
                amounts,
                n,
            )[j].delta,
    decreases n,
{
    let deltas = payments::year_fraction_seq(m, dates, None);
    if n > 0 {
        let rest = netted::finite_terms(deltas, amounts, n - 1);
        if j < rest.len() {
            lemma_delta_is_years(m, dates, amounts, n - 1, j);
        } else {
            lemma2_to64();
            lemma2_to64_rest();
            let days = dates[n - 1].day - dates[0].day;
            assert(!(dates[n - 1].day < dates[0].day));
            assert(years(days) == deltas[n - 1]);
        }
    }
}

// ---------------------------------------------------------------------------
// Outcomes
// ---------------------------------------------------------------------------

/// Conventions that divide days by a fixed number have finite year fractions.
pub proof fn law_fixed_years_are_finite(
    m: spec_fn(Call) -> Double,
    first: DateLike,
    date: DateLike,
    convention: DayCount,
)
    requires
        payments::fixed_year(convention) is Some,
    ensures
        payments::year_fraction(m, first, date, convention).finite(),
{
    let year = payments::fixed_year(convention)->0;
    let days = date.day - first.day;
    let a = if days < 0 { -days } else { days };
    let t = pow2(1074) as int;
    let y = double::units(year.mag());
    lemma2_to64();
    lemma2_to64_rest();
    lemma_pow2_pos(1074);
    assert(double::exponent(ONE as int) == 1022);
    assert(double::significand(ONE as int) == HIDDEN_BIT);
    lemma_pow2_adds(52, 1022);
    arithmetic::lemma_units_order(ONE as int, year.mag());
    arithmetic::lemma_round_zero(1);
    arithmetic::lemma_round_zero(y);
    arithmetic::lemma_units_order(0, 0);
    assert(0 * t == 0);
    if a > 0 {
        let mag = lemma_small_integer(a);
        let u = double::units(mag);
        arithmetic::lemma_units_order(mag, mag);
        assert(0 <= u * t <= u * y) by (nonlinear_arith)
            requires
                u >= 0,
                0 < t <= y,
        ;
        rounding_laws::lemma_round_exact(mag, y);
        rounding_laws::lemma_round_order(u * t, u * y, y);
        arithmetic::lemma_round_range(u * t, y);
    }
}

/// Where payments with finite amounts have no rate, the sign changes say why: the
/// flow is rootless exactly if it has none. Otherwise a spreadsheet shows an
/// error, under the policy that does as it does, and the search did not converge
/// under the others. Year fractions that come from outside must be finite.
pub proof fn law_a_missing_rate_is_explained(
    m: spec_fn(Call) -> Double,
    dates: Seq<DateLike>,
    amounts: Seq<Double>,
    day_count: Option<DayCount>,
    rate: Double,
    policy: RootPolicy,
)
    requires
        netted::all_finite(amounts),
        payments::fixed_year(payments::convention_or_default(day_count)) is None
            ==> netted::all_finite(payments::year_fraction_seq(m, dates, day_count)),
        !rate.finite(),
    ensures
        ({
            let flow = flow::flow_of(m, dates, amounts, day_count);
            xirr::outcome_of(flow, m, rate, policy) == if flow.change_count() == 0 {
                Outcome::NoRootExists
            } else if policy == RootPolicy::SpreadsheetCompat {
                Outcome::SpreadsheetNumError
            } else {
                Outcome::DidNotConverge
            }
        }),
{
    let convention = payments::convention_or_default(day_count);
    let deltas = payments::year_fraction_seq(m, dates, day_count);
    if payments::fixed_year(convention) is Some {
        assert forall|i: int| 0 <= i < deltas.len() implies (#[trigger] deltas[i]).finite() by {
            law_fixed_years_are_finite(m, dates[0], dates[i], convention);
        }
    }
    assert(netted::all_finite(deltas));
}

} // verus!
