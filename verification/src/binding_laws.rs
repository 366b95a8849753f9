//! What the outer surface promises of dates and results.

use crate::arithmetic;
use crate::binding;
use crate::binding::{BindingError, XirrResult};
use crate::date_laws;
use crate::double;
use crate::double::{Double, HIDDEN_BIT, INF_BITS};
use crate::flow::{Flow, RootPolicy};
use crate::host::Call;
use crate::integers;
use crate::rounding;
use crate::rounding_laws;
use crate::xirr;
use crate::xirr::Outcome;
use vstd::arithmetic::div_mod::*;
use vstd::arithmetic::mul::*;
use vstd::arithmetic::power2::*;
use vstd::prelude::*;

verus! {

/// Milliseconds per day.
pub const DAY_MS: i64 = 86_400_000;

/// The furthest instant from the epoch that a date of the scripting host can
/// hold, in milliseconds.
pub const FAR_MS: i64 = 8_640_000_000_000_000;

/// A whole number of milliseconds, as far from the epoch as a date can be,
/// falls on the UTC day that holds it: the day begins at or before the instant,
/// and the next one after it. It has a date exactly if that day lies in the years
/// from -9999 to 9999.
pub proof fn law_dates_are_utc_days(ms: Double, k: int)
    requires
        ms.finite(),
        ms.value() == k * pow2(1074),
        -FAR_MS <= k <= FAR_MS,
    ensures
        binding::day_start(ms) == (k / (DAY_MS as int)) * 86_400,
        binding::datable(ms) ==> binding::date_of(ms).day == k / (DAY_MS as int)
            + binding::EPOCH_JULIAN_DAY,
        binding::datable(ms) <==> -4_371_587 <= k / (DAY_MS as int) <= 2_932_896,
{
    let p = pow2(1074) as int;
    lemma_pow2_pos(1074);
    lemma2_to64();
    lemma2_to64_rest();
    let days = k / (DAY_MS as int);
    let q = ms.quotient(Double::from_bits(binding::MS_PER_DAY));
    lemma_quotient_floor(ms, k);
    if k == 0 {
        lemma_mul_basics(p);
        arithmetic::lemma_units_order(ms.mag(), ms.mag());
        arithmetic::lemma_units_order(0, 0);
    }
    let start = q.floored().product(Double::from_bits(binding::SECONDS_PER_DAY));
    if q.zero() {
        lemma_seconds_of_zero(q);
    } else {
        lemma_seconds_of_days(days);
    }
    assert((days * 86_400) / 86_400 == days);
}

/// Instants between two whole milliseconds of one day fall on that day too: a fraction
/// of a millisecond makes no other date.
pub proof fn law_fractions_of_a_millisecond_keep_the_day(
    ms: Double,
    from: Double,
    to: Double,
    j: int,
    k: int,
)
    requires
        ms.finite(),
        from.finite(),
        to.finite(),
        from.value() == j * pow2(1074),
        to.value() == k * pow2(1074),
        -FAR_MS <= j <= k <= FAR_MS,
        j / (DAY_MS as int) == k / (DAY_MS as int),
        from.value() <= ms.value() <= to.value(),
    ensures
        binding::day_start(ms) == (j / (DAY_MS as int)) * 86_400,
        binding::datable(ms) == binding::datable(from),
        binding::date_of(ms) == binding::date_of(from),
{
    let day = Double::from_bits(binding::MS_PER_DAY);
    let (p, q, r) = (from.quotient(day), ms.quotient(day), to.quotient(day));
    let t = pow2(1074) as int;
    let days = j / (DAY_MS as int);
    lemma_pow2_pos(1074);
    law_dates_are_utc_days(from, j);
    lemma_quotient_floor(from, j);
    lemma_quotient_floor(to, k);
    lemma_zero_floor(p);
    lemma_zero_floor(q);
    lemma_zero_floor(r);
    lemma_quotient_order(from, ms, day);
    lemma_quotient_order(ms, to, day);
    assert(p.zero() ==> days == 0);
    assert(r.zero() ==> days == 0);
    assert(p.floor_int() == days && r.floor_int() == days);
    lemma_div_is_ordered(p.value(), q.value(), t);
    lemma_div_is_ordered(q.value(), r.value(), t);
    assert(q.floor_int() == days);
    if q.zero() {
        lemma_seconds_of_zero(q);
    } else {
        lemma_seconds_of_days(days);
    }
}

/// Rounding zero down leaves zero.
proof fn lemma_zero_floor(q: Double)
    ensures
        q.zero() ==> q.value() == 0 && q.floor_int() == 0,
{
    lemma_pow2_pos(1074);
    arithmetic::lemma_units_order(0, 0);
    lemma_div_basics(pow2(1074) as int);
}

/// Quotients by one positive number are ordered as what is divided.
proof fn lemma_quotient_order(x: Double, y: Double, d: Double)
    requires
        x.finite(),
        y.finite(),
        d.finite(),
        d.positive(),
        x.value() <= y.value(),
        x.quotient(d).finite() || y.quotient(d).finite(),
    ensures
        x.quotient(d).finite() && y.quotient(d).finite() ==> x.quotient(d).value() <= y.quotient(
            d,
        ).value(),
        x.value() >= 0 && y.quotient(d).finite() ==> x.quotient(d).finite(),
        y.value() <= 0 && x.quotient(d).finite() ==> y.quotient(d).finite(),
{
    let t = pow2(1074) as int;
    let (u, v, w) = (double::units(x.mag()), double::units(y.mag()), double::units(d.mag()));
    lemma_pow2_pos(1074);
    arithmetic::lemma_units_order(x.mag(), x.mag());
    arithmetic::lemma_units_order(y.mag(), y.mag());
    arithmetic::lemma_units_order(d.mag(), d.mag());
    assert(u * t >= 0 && v * t >= 0) by (nonlinear_arith)
        requires
            u >= 0,
            v >= 0,
            t > 0,
    ;
    arithmetic::lemma_round_range(u * t, w);
    arithmetic::lemma_round_range(v * t, w);
    let (r, s) = (rounding::round(u * t, w), rounding::round(v * t, w));
    arithmetic::lemma_units_order(r, s);
    arithmetic::lemma_units_order(s, r);
    assert((u <= v ==> u * t <= v * t) && (v <= u ==> v * t <= u * t)) by (nonlinear_arith)
        requires
            t > 0,
    ;
    if u <= v {
        rounding_laws::lemma_round_order(u * t, v * t, w);
    }
    if v <= u {
        rounding_laws::lemma_round_order(v * t, u * t, w);
    }
    if u == 0 {
        lemma_mul_basics(t);
        arithmetic::lemma_round_zero(w);
        arithmetic::lemma_units_order(0, 0);
    }
    if v == 0 {
        lemma_mul_basics(t);
        arithmetic::lemma_round_zero(w);
        arithmetic::lemma_units_order(0, 0);
    }
}

/// The number of seconds at which the day begins, for a day count of zero.
proof fn lemma_seconds_of_zero(q: Double)
    requires
        q.zero(),
    ensures
        q.product(Double::from_bits(binding::SECONDS_PER_DAY)).truncated() == 0,
{
    lemma_pow2_pos(1074);
    arithmetic::lemma_units_order(0, 0);
    lemma_mul_basics(double::units(binding::SECONDS_PER_DAY as int));
    arithmetic::lemma_round_zero(pow2(1074) as int);
    lemma_div_basics(pow2(1074) as int);
}

/// The number of seconds at which a day begins is exact.
proof fn lemma_seconds_of_days(days: int)
    requires
        -0x1_0000_0000 < days < 0x1_0000_0000,
    ensures
        integers::whole(days).product(Double::from_bits(binding::SECONDS_PER_DAY)).truncated()
            == days * 86_400,
{
    let p = pow2(1074) as int;
    lemma_pow2_pos(1074);
    lemma2_to64();
    lemma2_to64_rest();
    let size = if days < 0 { -days } else { days };
    let per_day = double::units(binding::SECONDS_PER_DAY as int);
    assert(double::exponent(binding::SECONDS_PER_DAY as int) == 1038);
    assert(double::significand(binding::SECONDS_PER_DAY as int) == 86_400 * pow2(36));
    lemma_pow2_adds(36, 1038);
    assert((86_400 * pow2(36)) * pow2(1038) == 86_400 * (pow2(36) * pow2(1038)))
        by (nonlinear_arith);
    assert(per_day == 86_400 * p);
    if days == 0 {
        lemma_mul_basics(p);
        arithmetic::lemma_round_zero(1);
        assert(integers::whole(0) == Double::from_bits(0));
        lemma_seconds_of_zero(Double::from_bits(0));
    } else {
        let mag = date_laws::lemma_small_integer(size);
        let out = date_laws::lemma_small_integer(size * 86_400);
        assert((size * p) * per_day == ((size * 86_400) * p) * p) by (nonlinear_arith)
            requires
                per_day == 86_400 * p,
        ;
        rounding_laws::lemma_round_exact(out, p);
        lemma_div_multiples_vanish(size * 86_400, p);
        lemma_div_multiples_vanish(-(size * 86_400), p);
        lemma_mul_is_commutative(p, size * 86_400);
        lemma_mul_is_commutative(p, -(size * 86_400));
        assert(-((size * 86_400) * p) == (-(size * 86_400)) * p) by (nonlinear_arith);
    }
}

/// Dividing by the length of a day and rounding down gives the day number,
/// though the quotient is rounded first.
proof fn lemma_quotient_floor(ms: Double, k: int)
    requires
        ms.finite(),
        ms.value() == k * pow2(1074),
        -FAR_MS <= k <= FAR_MS,
    ensures
        ({
            let q = ms.quotient(Double::from_bits(binding::MS_PER_DAY));
            &&& q.finite()
            &&& !q.zero() ==> q.floor_int() == k / (DAY_MS as int)
            &&& q.zero() <==> k == 0
        }),
{
    let p = pow2(1074) as int;
    lemma_pow2_pos(1074);
    lemma2_to64();
    lemma2_to64_rest();
    assert(double::exponent(binding::MS_PER_DAY as int) == 1048);
    assert(double::significand(binding::MS_PER_DAY as int) == DAY_MS * pow2(26));
    lemma_pow2_adds(26, 1048);
    assert((DAY_MS * pow2(26)) * pow2(1048) == DAY_MS * (pow2(26) * pow2(1048)))
        by (nonlinear_arith);
    let d = double::units(binding::MS_PER_DAY as int);
    assert(d == DAY_MS * p);
    let j = if k < 0 { -k } else { k };
    arithmetic::lemma_units_order(ms.mag(), ms.mag());
    assert(k > 0 ==> k * p > 0) by (nonlinear_arith)
        requires
            p > 0,
    ;
    assert(k < 0 ==> k * p < 0) by (nonlinear_arith)
        requires
            p > 0,
    ;
    assert((-k) * p == -(k * p)) by (nonlinear_arith);
    assert(double::units(ms.mag()) == j * p);
    let n = (j * p) * p;
    let r = rounding::round(n, d);
    arithmetic::lemma_round_zero(d);
    if j == 0 {
        lemma_mul_basics(p);
    } else {
        lemma_day_quotient(j);
        let q = ms.quotient(Double::from_bits(binding::MS_PER_DAY));
        assert(q.mag() == r);
        arithmetic::lemma_units_order(r, r);
        if k > 0 {
            assert(!q.negative());
            lemma_floor_between(double::units(r), p, j / (DAY_MS as int));
        } else {
            assert(q.negative());
            let c = (j + DAY_MS - 1) / (DAY_MS as int);
            assert((-c) * p == -(c * p) && (-c + 1) * p == -((c - 1) * p)) by (nonlinear_arith);
            lemma_floor_between(-double::units(r), p, -c);
            assert(k / (DAY_MS as int) == -c);
        }
    }
}

/// The quotient lies between the day numbers around it, and touches one only if
/// it is exact.
proof fn lemma_day_quotient(j: int)
    requires
        0 < j <= FAR_MS,
    ensures
        ({
            let p = pow2(1074) as int;
            let r = rounding::round((j * p) * p, DAY_MS * p);
            let down = j / (DAY_MS as int);
            let up = (j + DAY_MS - 1) / (DAY_MS as int);
            &&& 0 < r < INF_BITS
            &&& down * p <= double::units(r) < (down + 1) * p
            &&& (up - 1) * p < double::units(r) <= up * p
        }),
{
    let p = pow2(1074) as int;
    lemma_pow2_pos(1074);
    lemma2_to64();
    lemma2_to64_rest();
    let d = DAY_MS * p;
    let n = (j * p) * p;
    let r = rounding::round(n, d);
    let down = j / (DAY_MS as int);
    let up = (j + DAY_MS - 1) / (DAY_MS as int);
    let u = p * p;
    assert(u > 0 && d > 0 && n == j * u && n > 0) by (nonlinear_arith)
        requires
            u == p * p,
            d == DAY_MS * p,
            n == (j * p) * p,
            p > 0,
            j > 0,
    ;
    // The day numbers are doubles, so the quotient does not pass them.
    let high = date_laws::lemma_small_integer(up);
    rounding_laws::lemma_round_exact(high, d);
    assert((up * p) * d == (up * DAY_MS) * u) by (nonlinear_arith)
        requires
            d == DAY_MS * p,
            u == p * p,
    ;
    assert(n <= (up * DAY_MS) * u) by (nonlinear_arith)
        requires
            n == j * u,
            j <= up * DAY_MS,
            u > 0,
    ;
    rounding_laws::lemma_round_order(n, (up * p) * d, d);
    arithmetic::lemma_round_range(n, d);
    arithmetic::lemma_units_order(r, high);
    if down > 0 {
        let low = date_laws::lemma_small_integer(down);
        rounding_laws::lemma_round_exact(low, d);
        assert((down * p) * d == (down * DAY_MS) * u) by (nonlinear_arith)
            requires
                d == DAY_MS * p,
                u == p * p,
        ;
        assert(0 <= (down * DAY_MS) * u <= n) by (nonlinear_arith)
            requires
                n == j * u,
                0 <= down * DAY_MS <= j,
                u > 0,
        ;
        rounding_laws::lemma_round_order((down * p) * d, n, d);
        arithmetic::lemma_units_order(low, r);
    } else {
        lemma_mul_basics(p);
        arithmetic::lemma_units_order(r, r);
    }
    // And it does not reach them by rounding: a millisecond is more than half a
    // unit in its last place.
    date_laws::lemma_round_error(n, d);
    let gap = d * pow2(rounding::scale(n, d));
    lemma_pow2_adds(27, 1047);
    lemma_pow2_pos(1047);
    assert(d < u) by (nonlinear_arith)
        requires
            u == p * p,
            d == DAY_MS * p,
            p == 0x800_0000 * pow2(1047),
            pow2(1047) > 0,
    ;
    assert(gap < 2 * u) by (nonlinear_arith)
        requires
            HIDDEN_BIT * gap <= j * u || gap < u,
            j <= FAR_MS,
            u > 0,
    ;
    let v = double::units(r);
    if v >= (down + 1) * p {
        assert(v * d - n >= u) by (nonlinear_arith)
            requires
                v >= (down + 1) * p,
                d == DAY_MS * p,
                u == p * p,
                n == j * u,
                (down + 1) * DAY_MS >= j + 1,
                p > 0,
        ;
    }
    if v <= (up - 1) * p {
        assert(n - v * d >= u) by (nonlinear_arith)
            requires
                v <= (up - 1) * p,
                d == DAY_MS * p,
                u == p * p,
                n == j * u,
                (up - 1) * DAY_MS <= j - 1,
                p > 0,
        ;
    }
    if r == 0 {
        arithmetic::lemma_units_order(0, 0);
        assert((up - 1) * p >= 0) by (nonlinear_arith)
            requires
                up >= 1,
                p > 0,
        ;
    }
}

/// The integer below a quotient.
proof fn lemma_floor_between(v: int, p: int, f: int)
    requires
        p > 0,
        f * p <= v < (f + 1) * p,
    ensures
        v / p == f,
{
    assert((f + 1) * p == f * p + p) by (nonlinear_arith);
    lemma_fundamental_div_mod_converse(v, p, f, v - f * p);
}

/// A result never holds a rate that is not a number: where it reports a solve,
/// it has a rate exactly if that is finite, and otherwise neither rate nor
/// roots.
pub proof fn law_results_hold_no_nan(
    result: XirrResult,
    flow: Flow,
    m: spec_fn(Call) -> Double,
    rate: Double,
    policy: RootPolicy,
)
    requires
        result.reports(xirr::outcome_of(flow, m, rate, policy)),
    ensures
        result.rate == if rate.finite() {
            Some(rate)
        } else {
            None
        },
        result.rate is None ==> result.roots@.len() == 0,
        result.rate matches Some(r) ==> r.finite(),
{
}

/// Dates are read one for one, and all of them can be read exactly if each can. What
/// is not finite has no date.
pub proof fn law_dates_are_read_one_for_one(ms: Seq<Double>, convention: Option<String>, i: int)
    requires
        0 <= i < ms.len(),
    ensures
        binding::dates_of(ms).len() == ms.len(),
        binding::dates_of(ms)[i] == binding::date_of(ms[i]),
        !ms[i].finite() ==> !binding::datable(ms[i]),
        binding::all_datable(ms) ==> binding::datable(ms[i]),
        binding::readable(ms, convention) ==> binding::datable(ms[i]),
        (forall|j: int| 0 <= j < ms.len() ==> binding::datable(#[trigger] ms[j]))
            && (convention is None || binding::chosen_convention(convention) is Some)
            ==> binding::readable(ms, convention),
        binding::readable(ms, convention) ==> convention is None || binding::chosen_convention(
            convention,
        ) is Some,
{
}

/// A result tells the outcome in full: its name, the rate that was produced, and the
/// roots, which are the one rate where there is one root.
pub proof fn law_a_result_tells_the_outcome(result: XirrResult, outcome: Outcome)
    requires
        result.reports(outcome),
    ensures
        match outcome {
            Outcome::Root(r) => {
                &&& result.status@ == "root"@
                &&& result.rate == Some(r)
                &&& result.roots@ == seq![r]
            },
            Outcome::MultipleRoots(r, all) => {
                &&& result.status@ == "multipleRoots"@
                &&& result.rate == Some(r)
                &&& result.roots@ == all
            },
            Outcome::UnverifiedRate(r, roots) => {
                &&& result.status@ == "unverifiedRate"@
                &&& result.rate == Some(r)
                &&& result.roots@ == roots
            },
            Outcome::NoRootExists => {
                &&& result.status@ == "noRootExists"@
                &&& result.rate is None
                &&& result.roots@.len() == 0
            },
            Outcome::DidNotConverge => {
                &&& result.status@ == "didNotConverge"@
                &&& result.rate is None
                &&& result.roots@.len() == 0
            },
            Outcome::SpreadsheetNumError => {
                &&& result.status@ == "spreadsheetNumError"@
                &&& result.rate is None
                &&& result.roots@.len() == 0
            },
        },
{
}

/// A date is refused as no number if it is not finite, and as no date if it is finite
/// and outside the calendar; the error holds it. Of several it is the first.
pub proof fn law_dates_are_refused_for_a_reason(ms: Seq<Double>, x: Double, e: BindingError)
    ensures
        binding::date_error(x, e) && !x.finite() ==> (e matches BindingError::DateNotFinite(y) && y
            == x),
        binding::date_error(x, e) && x.finite() ==> (e matches BindingError::InvalidDate(y, _) && y
            == x) && !binding::datable(x),
        binding::first_date_error(ms, e) ==> exists|i: int|
            0 <= i < ms.len() && !binding::datable(#[trigger] ms[i]) && binding::date_error(
                ms[i],
                e,
            ) && forall|j: int| 0 <= j < i ==> binding::datable(#[trigger] ms[j]),
{
    if binding::first_date_error(ms, e) {
        let i = choose|i: int|
            0 <= i < ms.len() && !binding::datable(#[trigger] ms[i]) && binding::date_error(
                ms[i],
                e,
            ) && binding::all_datable(ms.take(i));
        assert forall|j: int| 0 <= j < i implies binding::datable(#[trigger] ms[j]) by {
            assert(ms.take(i)[j] == ms[j]);
        }
    }
}

/// What cannot be read is refused for the first date that has none, or else for the
/// convention, and a policy for its own name.
pub proof fn law_arguments_are_refused_for_a_reason(
    ms: Seq<Double>,
    convention: Option<String>,
    policy: Option<String>,
    e: BindingError,
)
    ensures
        binding::read_error(ms, convention, e) && !binding::all_datable(ms)
            ==> binding::first_date_error(ms, e),
        binding::read_error(ms, convention, e) && binding::all_datable(ms) ==> convention is Some
            && binding::chosen_convention(convention) is None && (e matches
            BindingError::UnknownDayCount(x) && x@ == convention->0@),
        binding::policy_error(policy, e) ==> policy is Some && binding::chosen_policy(
            policy,
        ) is None && (e matches BindingError::UnknownRootPolicy(x) && x@ == policy->0@),
{
}

} // verus!
