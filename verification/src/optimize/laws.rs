//! What the root finders promise.

use crate::arithmetic;
use crate::double;
use crate::double::{Double, INF_BITS, MINUS_ONE, NAN_BITS, TWO};
use crate::optimize::brent;
use crate::optimize::brent::Brent;
use crate::optimize::crossings;
use crate::optimize::crossings::Crossing;
use crate::optimize::newton;
use crate::rounding;
use crate::rounding_laws;
use vstd::arithmetic::power2::*;
use vstd::prelude::*;

verus! {

// ---------------------------------------------------------------------------
// The spreadsheet's search
// ---------------------------------------------------------------------------

/// The spreadsheet's rate is that of the first attempt that yields one, counted
/// from the guess and then along the grid.
pub proof fn law_excel_order_takes_the_first_success(
    m: spec_fn(Double) -> (Double, Double),
    guess: Double,
    scan: int,
)
    requires
        guess.finite(),
        !guess.le(Double::from_bits(MINUS_ONE)),
        0 <= scan < newton::EXCEL_MAX_SCAN,
        newton::attempt(m, newton::scan_seed(guess, scan)) is Some,
        forall|k: int|
            0 <= k < scan ==> newton::attempt(m, #[trigger] newton::scan_seed(guess, k)) is None,
    ensures
        newton::attempt(m, newton::scan_seed(guess, scan)) == Some(newton::excel_order(m, guess)),
{
    lemma_first_attempt(m, guess, 0, scan);
}

/// The spreadsheet shows an error exactly where no attempt yields a rate.
pub proof fn law_excel_order_fails_when_every_attempt_fails(
    m: spec_fn(Double) -> (Double, Double),
    guess: Double,
)
    requires
        guess.finite(),
        !guess.le(Double::from_bits(MINUS_ONE)),
    ensures
        newton::excel_order(m, guess).nan() <==> forall|k: int|
            0 <= k < newton::EXCEL_MAX_SCAN ==> newton::attempt(
                m,
                #[trigger] newton::scan_seed(guess, k),
            ) is None,
{
    lemma_first_attempt_nan(m, guess, 0);
}

/// Where the spreadsheet shows a rate, it came by one Newton step from a rate
/// at which the value is finite and at which the step or the value is within
/// the tolerance: either is enough.
pub proof fn law_excel_order_converges_weakly(
    m: spec_fn(Double) -> (Double, Double),
    guess: Double,
)
    requires
        newton::excel_order(m, guess).finite(),
    ensures
        exists|x: Double|
            {
                &&& #[trigger] newton::newton_step(m, x) == newton::excel_order(m, guess)
                &&& m(x).0.finite()
                &&& !newton::unsettled(m, x)
            },
{
    lemma_first_attempt_settled(m, guess, 0);
}

proof fn lemma_first_attempt(
    m: spec_fn(Double) -> (Double, Double),
    guess: Double,
    from: int,
    scan: int,
)
    requires
        0 <= from <= scan < newton::EXCEL_MAX_SCAN,
        newton::attempt(m, newton::scan_seed(guess, scan)) is Some,
        forall|k: int|
            from <= k < scan ==> newton::attempt(m, #[trigger] newton::scan_seed(guess, k)) is None,
    ensures
        newton::attempt(m, newton::scan_seed(guess, scan)) == Some(
            newton::first_attempt(m, guess, from),
        ),
    decreases scan - from,
{
    if from < scan {
        assert(newton::attempt(m, newton::scan_seed(guess, from)) is None);
        lemma_first_attempt(m, guess, from + 1, scan);
    }
}

proof fn lemma_first_attempt_nan(
    m: spec_fn(Double) -> (Double, Double),
    guess: Double,
    from: int,
)
    requires
        0 <= from <= newton::EXCEL_MAX_SCAN,
    ensures
        newton::first_attempt(m, guess, from).nan() <==> forall|k: int|
            from <= k < newton::EXCEL_MAX_SCAN ==> newton::attempt(
                m,
                #[trigger] newton::scan_seed(guess, k),
            ) is None,
    decreases newton::EXCEL_MAX_SCAN - from,
{
    if from < newton::EXCEL_MAX_SCAN {
        lemma_first_attempt_nan(m, guess, from + 1);
    }
}

proof fn lemma_first_attempt_settled(
    m: spec_fn(Double) -> (Double, Double),
    guess: Double,
    from: int,
)
    requires
        0 <= from <= newton::EXCEL_MAX_SCAN,
        newton::first_attempt(m, guess, from).finite(),
    ensures
        exists|x: Double|
            {
                &&& #[trigger] newton::newton_step(m, x) == newton::first_attempt(m, guess, from)
                &&& m(x).0.finite()
                &&& !newton::unsettled(m, x)
            },
    decreases newton::EXCEL_MAX_SCAN - from,
{
    if from < newton::EXCEL_MAX_SCAN {
        let seed = newton::scan_seed(guess, from);
        match newton::attempt(m, seed) {
            Some(rate) => {
                let x = newton::last_rate(m, seed, newton::EXCEL_MAX_ITER as nat);
                assert(newton::newton_step(m, x) == rate);
            },
            None => {
                lemma_first_attempt_settled(m, guess, from + 1);
            },
        }
    }
}

/// An attempt from `rate` evaluates the function at `x` within `left` steps.
pub open spec fn attempt_visits(
    m: spec_fn(Double) -> (Double, Double),
    rate: Double,
    left: nat,
    x: Double,
) -> bool
    decreases left,
{
    ||| x == rate
    ||| left > 1 && newton::unsettled(m, rate) && attempt_visits(
        m,
        newton::newton_step(m, rate),
        (left - 1) as nat,
        x,
    )
}

/// The spreadsheet's search evaluates the function at `x`.
pub open spec fn excel_visits(
    m: spec_fn(Double) -> (Double, Double),
    guess: Double,
    x: Double,
) -> bool {
    exists|scan: int|
        {
            &&& 0 <= scan < newton::EXCEL_MAX_SCAN
            &&& attempt_visits(
                m,
                #[trigger] newton::scan_seed(guess, scan),
                newton::EXCEL_MAX_ITER as nat,
                x,
            )
            &&& forall|k: int|
                0 <= k < scan ==> newton::attempt(m, #[trigger] newton::scan_seed(guess, k)) is None
        }
}

/// At `x` the two functions give the same Newton step, and their values are on
/// the same side of the spreadsheet's tolerance.
pub open spec fn steps_alike(
    m: spec_fn(Double) -> (Double, Double),
    n: spec_fn(Double) -> (Double, Double),
    x: Double,
) -> bool {
    let eps = Double::from_bits(newton::EXCEL_EPS);
    &&& m(x).0.quotient(m(x).1) == n(x).0.quotient(n(x).1)
    &&& eps.lt(m(x).0.magnitude()) == eps.lt(n(x).0.magnitude())
    &&& m(x).0.finite() == n(x).0.finite()
}

/// The spreadsheet's rate depends on nothing but the Newton steps, and on which
/// values are within the tolerance, at the rates the search comes by.
pub proof fn law_excel_order_depends_on_steps_alone(
    m: spec_fn(Double) -> (Double, Double),
    n: spec_fn(Double) -> (Double, Double),
    guess: Double,
)
    requires
        forall|x: Double| #[trigger] excel_visits(m, guess, x) ==> steps_alike(m, n, x),
    ensures
        newton::excel_order(m, guess) == newton::excel_order(n, guess),
{
    lemma_same_attempts(m, n, guess, 0);
}

proof fn lemma_same_attempts(
    m: spec_fn(Double) -> (Double, Double),
    n: spec_fn(Double) -> (Double, Double),
    guess: Double,
    scan: int,
)
    requires
        0 <= scan <= newton::EXCEL_MAX_SCAN,
        forall|x: Double| #[trigger] excel_visits(m, guess, x) ==> steps_alike(m, n, x),
        forall|k: int|
            0 <= k < scan ==> newton::attempt(m, #[trigger] newton::scan_seed(guess, k)) is None,
    ensures
        newton::first_attempt(m, guess, scan) == newton::first_attempt(n, guess, scan),
    decreases newton::EXCEL_MAX_SCAN - scan,
{
    if scan < newton::EXCEL_MAX_SCAN {
        let seed = newton::scan_seed(guess, scan);
        let left = newton::EXCEL_MAX_ITER as nat;
        assert forall|x: Double| #[trigger] attempt_visits(m, seed, left, x) implies steps_alike(
            m,
            n,
            x,
        ) by {
            assert(excel_visits(m, guess, x));
        }
        lemma_same_last_rate(m, n, seed, left);
        if newton::attempt(m, seed) is None {
            lemma_same_attempts(m, n, guess, scan + 1);
        }
    }
}

proof fn lemma_same_last_rate(
    m: spec_fn(Double) -> (Double, Double),
    n: spec_fn(Double) -> (Double, Double),
    rate: Double,
    left: nat,
)
    requires
        forall|x: Double| #[trigger] attempt_visits(m, rate, left, x) ==> steps_alike(m, n, x),
    ensures
        newton::last_rate(m, rate, left) == newton::last_rate(n, rate, left),
        steps_alike(m, n, newton::last_rate(m, rate, left)),
    decreases left,
{
    assert(attempt_visits(m, rate, left, rate));
    if left > 1 && newton::unsettled(m, rate) {
        let next = newton::newton_step(m, rate);
        assert forall|x: Double| #[trigger]
            attempt_visits(m, next, (left - 1) as nat, x) implies steps_alike(m, n, x) by {
            assert(attempt_visits(m, rate, left, x));
        }
        lemma_same_last_rate(m, n, next, (left - 1) as nat);
    }
}

/// What Newton's method to a residual returns is NaN, or has a value within the
/// tolerance, or was reached by a step that had stopped moving.
pub proof fn law_residual_search_stops_for_a_reason(
    m: spec_fn(Double) -> (Double, Double),
    start: Double,
    tol: Double,
    left: nat,
)
    ensures
        ({
            let r = newton::residual_search(m, start, tol, left);
            ||| r.nan()
            ||| m(r).0.finite() && m(r).0.magnitude().le(tol)
            ||| exists|x: Double|
                r == #[trigger] newton::newton_step(m, x) && m(x).0.finite() && m(
                    x,
                ).0.quotient(m(x).1).magnitude().lt(newton::stalled_below(r))
        }),
    decreases left,
{
    let (value, deriv) = m(start);
    let step = value.quotient(deriv);
    let next = start.difference(step);
    if left == 0 || !value.finite() || deriv.zero() {
    } else if value.magnitude().le(tol) {
    } else if step.magnitude().lt(newton::stalled_below(next)) {
        assert(newton::newton_step(m, start) == next);
    } else {
        law_residual_search_stops_for_a_reason(m, next, tol, (left - 1) as nat);
    }
}

// ---------------------------------------------------------------------------
// Brent's method
// ---------------------------------------------------------------------------

/// The tolerance on a root at `r`: `2e-14 + 8.9e-16 * |r|`, as computed.
pub open spec fn tolerance(r: Double) -> Double {
    Double::from_bits(brent::XTOL).sum(Double::from_bits(brent::RTOL).product(r.magnitude()))
}

/// The function has opposite signs at `r` and `y`, which are finite and, taken
/// exactly, less than the tolerance apart.
pub open spec fn sign_change_nearby(m: spec_fn(Double) -> Double, r: Double, y: Double) -> bool {
    &&& !m(r).zero()
    &&& !m(y).zero()
    &&& m(r).negative() != m(y).negative()
    &&& r.finite()
    &&& y.finite()
    &&& -double::units(tolerance(r).mag()) < r.value() - y.value() < double::units(
        tolerance(r).mag(),
    )
}

/// The search from `s` evaluates the function at `x` within `left` steps.
pub open spec fn search_visits(
    m: spec_fn(Double) -> Double,
    s: Brent,
    left: nat,
    x: Double,
) -> bool
    decreases left,
{
    &&& left > 0
    &&& !s.prepared().done()
    &&& x == s.prepared().next_point() || search_visits(
        m,
        s.prepared().advanced(m),
        (left - 1) as nat,
        x,
    )
}

/// The values at the two ends are finite, not zero, and of opposite signs.
pub open spec fn searches(m: spec_fn(Double) -> Double, xa: Double, xb: Double) -> bool {
    &&& m(xa).finite() && !m(xa).zero()
    &&& m(xb).finite() && !m(xb).zero()
    &&& brent::signs_differ(m(xa), m(xb))
}

/// Brent's method between `xa` and `xb` evaluates the function at `x`.
pub open spec fn brent_visits(
    m: spec_fn(Double) -> Double,
    xa: Double,
    xb: Double,
    iter: nat,
    x: Double,
) -> bool {
    ||| x == xa
    ||| x == xb
    ||| searches(m, xa, xb) && search_visits(m, Brent::start(m, xa, xb), iter, x)
}

/// Where a function is NaN at none of the points it is evaluated at, Brent's
/// method returns NaN, an exact zero, or a point within tolerance of which the
/// function changes sign.
pub proof fn law_brent_finds_a_sign_change(
    m: spec_fn(Double) -> Double,
    xa: Double,
    xb: Double,
    iter: nat,
)
    requires
        forall|x: Double| #[trigger] brent_visits(m, xa, xb, iter, x) ==> !m(x).nan(),
    ensures
        ({
            let r = brent::brent(m, xa, xb, iter);
            ||| r == Double::from_bits(NAN_BITS)
            ||| m(r).zero()
            ||| exists|y: Double| sign_change_nearby(m, r, y)
        }),
{
    if searches(m, xa, xb) {
        let s = Brent::start(m, xa, xb);
        assert forall|x: Double| #[trigger] search_visits(m, s, iter, x) implies !m(x).nan() by {
            assert(brent_visits(m, xa, xb, iter, x));
        }
        lemma_search_brackets(m, s, iter);
    }
}

/// The values belong to their points, none is NaN, and the root is bracketed by
/// the current point and the previous one, or by the previous one and the one
/// across.
pub open spec fn brackets_root(m: spec_fn(Double) -> Double, s: Brent) -> bool {
    &&& s.fpre == m(s.xpre)
    &&& s.fcur == m(s.xcur)
    &&& !s.fpre.nan() && !s.fcur.nan() && !s.fblk.nan()
    &&& !s.fpre.zero()
    &&& {
        ||| !s.fcur.zero() && s.fpre.negative() != s.fcur.negative()
        ||| s.fblk == m(s.xblk) && !s.fblk.zero() && s.fblk.negative() != s.fpre.negative()
    }
}

proof fn lemma_search_brackets(m: spec_fn(Double) -> Double, s: Brent, left: nat)
    requires
        forall|x: Double| #[trigger] search_visits(m, s, left, x) ==> !m(x).nan(),
        brackets_root(m, s),
    ensures
        ({
            let r = brent::brent_search(m, s, left);
            ||| r == Double::from_bits(NAN_BITS)
            ||| m(r).zero()
            ||| exists|y: Double| sign_change_nearby(m, r, y)
        }),
    decreases left,
{
    if left > 0 {
        let p = s.prepared();
        assert(p.fcur == m(p.xcur));
        if p.done() {
            if !p.fcur.zero() {
                lemma_within_tolerance(p);
                assert(sign_change_nearby(m, p.xcur, p.xblk));
            }
        } else {
            let next = p.advanced(m);
            assert(search_visits(m, s, left, p.next_point()));
            assert forall|x: Double| #[trigger]
                search_visits(m, next, (left - 1) as nat, x) implies !m(x).nan() by {
                assert(search_visits(m, s, left, x));
            }
            lemma_search_brackets(m, next, (left - 1) as nat);
        }
    }
}

/// Half the bracket, as computed, being below half the tolerance puts its ends
/// less than the tolerance apart, exactly.
pub proof fn lemma_within_tolerance(s: Brent)
    requires
        s.sbis().magnitude().lt(s.delta()),
    ensures
        s.xcur.finite(),
        s.xblk.finite(),
        ({
            let t = double::units(tolerance(s.xcur).mag());
            -t < s.xcur.value() - s.xblk.value() < t
        }),
{
    let two = Double::from_bits(TWO);
    let t = tolerance(s.xcur);
    let d = s.xblk.difference(s.xcur);
    let p = pow2(1074) as int;
    let w = double::units(two.mag());
    let r = s.xcur;
    let y = s.xblk;
    assert(s.delta() == t.quotient(two));
    assert(s.sbis() == d.quotient(two));
    assert(r.finite());
    assert(y.finite());
    let exact = y.value() - r.value();
    let size = if exact < 0 { -exact } else { exact };
    assert(r.opposite().value() == -r.value());
    arithmetic::lemma_round_range(size, 1);
    arithmetic::lemma_round_zero(1);
    assert(d.mag() == rounding::round(size, 1));
    assert(d.finite());
    lemma_pow2_pos(1074);
    arithmetic::lemma_units_order(two.mag(), two.mag());
    arithmetic::lemma_units_order(t.mag(), d.mag());
    arithmetic::lemma_units_order(d.mag(), t.mag());
    let ud = double::units(d.mag());
    let ut = double::units(t.mag());
    assert(ud * p >= 0 && ut * p >= 0) by (nonlinear_arith)
        requires
            ud >= 0,
            ut >= 0,
            p > 0,
    ;
    arithmetic::lemma_round_range(ud * p, w);
    arithmetic::lemma_round_range(ut * p, w);
    if t.finite() && t.mag() <= d.mag() {
        assert(ut * p <= ud * p) by (nonlinear_arith)
            requires
                ut <= ud,
                p > 0,
        ;
        rounding_laws::lemma_round_order(ut * p, ud * p, w);
    }
    assert(!t.nan());
    assert(d.mag() < t.mag());
    if size >= ut {
        rounding_laws::lemma_round_exact(t.mag(), 1);
        rounding_laws::lemma_round_order(ut, size, 1);
    }
}

// ---------------------------------------------------------------------------
// Crossings
// ---------------------------------------------------------------------------

/// A scan reports exactly the crossings that are met at some node: every one of
/// them, and nothing else.
pub proof fn law_crossings_are_complete_and_sound(
    m: spec_fn(Double) -> Double,
    grid: Seq<Double>,
    c: Crossing,
)
    ensures
        crossings::crossings(m, grid, grid.len() as int).contains(c) <==> exists|i: int|
            0 <= i < grid.len() && #[trigger] crossings::crossing_at(m, grid, i) == Some(c),
{
    lemma_crossings(m, grid, grid.len() as int, c);
}

proof fn lemma_crossings(m: spec_fn(Double) -> Double, grid: Seq<Double>, n: int, c: Crossing)
    requires
        0 <= n <= grid.len(),
    ensures
        crossings::crossings(m, grid, n).contains(c) <==> exists|i: int|
            0 <= i < n && #[trigger] crossings::crossing_at(m, grid, i) == Some(c),
    decreases n,
{
    if n > 0 {
        lemma_crossings(m, grid, n - 1, c);
        let rest = crossings::crossings(m, grid, n - 1);
        match crossings::crossing_at(m, grid, n - 1) {
            Some(last) => {
                let all = rest.push(last);
                assert(all[rest.len() as int] == last);
                if rest.contains(c) {
                    let k = choose|k: int| 0 <= k < rest.len() && rest[k] == c;
                    assert(all[k] == c);
                }
                if all.contains(c) && c != last {
                    let k = choose|k: int| 0 <= k < all.len() && all[k] == c;
                    assert(rest[k] == c);
                }
            },
            None => {},
        }
    }
}

/// What a scan meets: every node at which the value is zero, every pair of
/// neighbours with finite values of opposite signs, and nothing else.
pub proof fn law_what_a_scan_meets(m: spec_fn(Double) -> Double, grid: Seq<Double>, i: int)
    requires
        0 <= i < grid.len(),
    ensures
        ({
            let here = m(grid[i]);
            let at = crossings::crossing_at(m, grid, i);
            let changed = i > 0 && m(grid[i - 1]).finite() && !m(grid[i - 1]).zero()
                && here.finite() && !here.zero() && m(grid[i - 1]).negative() != here.negative();
            &&& here.zero() ==> at == Some(Crossing::Exact(grid[i]))
            &&& changed ==> at == Some(Crossing::Bracket(grid[i - 1], grid[i]))
            &&& !here.zero() && !changed ==> at is None
            &&& at matches Some(c) ==> crossings::crossings(
                m,
                grid,
                grid.len() as int,
            ).contains(c)
        }),
{
    if let Some(c) = crossings::crossing_at(m, grid, i) {
        law_crossings_are_complete_and_sound(m, grid, c);
    }
}

/// Crossings are met in the order of the grid: what is met on its first nodes comes
/// first, and each node adds at most one.
pub proof fn law_crossings_are_met_in_order(
    m: spec_fn(Double) -> Double,
    grid: Seq<Double>,
    n: int,
)
    requires
        0 <= n <= grid.len(),
    ensures
        crossings::crossings(m, grid, n).len() <= n,
        crossings::crossings(m, grid, n).is_prefix_of(
            crossings::crossings(m, grid, grid.len() as int),
        ),
{
    lemma_crossings_prefix(m, grid, n, grid.len() as int);
    lemma_crossings_few(m, grid, n);
}

proof fn lemma_crossings_prefix(
    m: spec_fn(Double) -> Double,
    grid: Seq<Double>,
    n: int,
    len: int,
)
    requires
        0 <= n <= len,
    ensures
        crossings::crossings(m, grid, n).is_prefix_of(crossings::crossings(m, grid, len)),
    decreases len,
{
    if n < len {
        lemma_crossings_prefix(m, grid, n, len - 1);
    }
}

proof fn lemma_crossings_few(m: spec_fn(Double) -> Double, grid: Seq<Double>, n: int)
    requires
        0 <= n,
    ensures
        crossings::crossings(m, grid, n).len() <= n,
    decreases n,
{
    if n > 0 {
        lemma_crossings_few(m, grid, n - 1);
    }
}

/// If a function is finite on the whole grid and has opposite signs at its two
/// ends, the scan reports a crossing.
pub proof fn law_opposite_ends_are_crossed(m: spec_fn(Double) -> Double, grid: Seq<Double>)
    requires
        grid.len() > 0,
        forall|i: int| 0 <= i < grid.len() ==> m(#[trigger] grid[i]).finite(),
        !m(grid[0]).zero(),
        !m(grid.last()).zero(),
        m(grid[0]).negative() != m(grid.last()).negative(),
    ensures
        crossings::crossings(m, grid, grid.len() as int).len() > 0,
{
    lemma_crossed_before(m, grid, grid.len() as int);
}

proof fn lemma_crossed_before(m: spec_fn(Double) -> Double, grid: Seq<Double>, n: int)
    requires
        0 < n <= grid.len(),
        forall|i: int| 0 <= i < grid.len() ==> m(#[trigger] grid[i]).finite(),
        !m(grid[0]).zero(),
    ensures
        crossings::crossings(m, grid, n).len() > 0 || (!m(grid[n - 1]).zero() && m(
            grid[n - 1],
        ).negative() == m(grid[0]).negative()),
    decreases n,
{
    reveal_with_fuel(crossings::crossings, 2);
    if n > 1 {
        lemma_crossed_before(m, grid, n - 1);
        assert(m(grid[n - 2]).finite());
        assert(m(grid[n - 1]).finite());
    }
}

/// On the rate grid, the pairs reported are exactly the neighbours between
/// which the sign changes.
pub proof fn law_brackets_are_complete_and_sound(
    m: spec_fn(Double) -> Double,
    grid: Seq<Double>,
    pair: (Double, Double),
)
    ensures
        crossings::brackets(m, grid, grid.len() as int).contains(pair) <==> exists|i: int|
            1 <= i < grid.len() && #[trigger] crossings::brackets_at(m, grid, i) && pair == (
                grid[i - 1],
                grid[i],
            ),
{
    lemma_brackets(m, grid, grid.len() as int, pair);
}

proof fn lemma_brackets(
    m: spec_fn(Double) -> Double,
    grid: Seq<Double>,
    n: int,
    pair: (Double, Double),
)
    requires
        0 <= n <= grid.len(),
    ensures
        crossings::brackets(m, grid, n).contains(pair) <==> exists|i: int|
            1 <= i < n && #[trigger] crossings::brackets_at(m, grid, i) && pair == (
                grid[i - 1],
                grid[i],
            ),
    decreases n,
{
    if n > 1 {
        lemma_brackets(m, grid, n - 1, pair);
        let rest = crossings::brackets(m, grid, n - 1);
        if crossings::brackets_at(m, grid, n - 1) {
            let last = (grid[n - 2], grid[n - 1]);
            let all = rest.push(last);
            assert(all[rest.len() as int] == last);
            if rest.contains(pair) {
                let k = choose|k: int| 0 <= k < rest.len() && rest[k] == pair;
                assert(all[k] == pair);
            }
            if all.contains(pair) && pair != last {
                let k = choose|k: int| 0 <= k < all.len() && all[k] == pair;
                assert(rest[k] == pair);
            }
        }
    }
}

/// The pairs reported on the rate grid are the neighbours of which the first has a
/// finite value that is not zero, the second a finite one, and the sign bits differ.
pub proof fn law_what_counts_as_a_bracket(m: spec_fn(Double) -> Double, grid: Seq<Double>, i: int)
    requires
        1 <= i < grid.len(),
    ensures
        crossings::brackets_at(m, grid, i) <==> m(grid[i - 1]).finite() && !m(grid[i - 1]).zero()
            && m(grid[i]).finite() && m(grid[i - 1]).negative() != m(grid[i]).negative(),
        crossings::brackets_at(m, grid, i) ==> crossings::brackets(
            m,
            grid,
            grid.len() as int,
        ).contains((grid[i - 1], grid[i])),
{
    law_brackets_are_complete_and_sound(m, grid, (grid[i - 1], grid[i]));
}

// ---------------------------------------------------------------------------
// The rate grid
// ---------------------------------------------------------------------------

/// Node `i` is followed on the rate grid by one `0.005` above it, or by one and from
/// there on by a twentieth more each time, or by the largest rate.
pub open spec fn rate_grid_goes_on(grid: Seq<Double>, i: int, max_rate: Double) -> bool {
    let (x, y) = (grid[i], grid[i + 1]);
    let one = Double::from_bits(0x3ff0_0000_0000_0000);
    ||| x.le(one) && y == x.sum(Double::from_bits(0x3f74_7ae1_47ae_147b)) && y.le(one)
    ||| x.le(one) && one.lt(x.sum(Double::from_bits(0x3f74_7ae1_47ae_147b))) && (y == one || y
        == max_rate && !one.lt(max_rate))
    ||| one.le(x) && x.lt(max_rate) && y == x.product(Double::from_bits(0x3ff0_cccc_cccc_cccd))
        && y.lt(max_rate)
    ||| one.le(x) && x.lt(max_rate) && y == max_rate && !x.product(
        Double::from_bits(0x3ff0_cccc_cccc_cccd),
    ).lt(max_rate)
}

/// The rate grid begins at `-0.9999999999` and `-0.99`, goes on evenly up to one and
/// by a fixed factor above it, and ends at the largest rate.
pub proof fn law_the_rate_grid_goes_on_to_the_largest_rate(max_rate: Double)
    ensures
        ({
            let grid = crossings::rate_grid(max_rate);
            &&& grid.len() >= 3
            &&& grid[0] == Double::from_bits(0xbfef_ffff_fff2_4190)
            &&& grid[1] == Double::from_bits(0xbfef_ae14_7ae1_47ae)
            &&& grid.last() == max_rate
            &&& forall|i: int|
                1 <= i < grid.len() - 1 ==> #[trigger] rate_grid_goes_on(grid, i, max_rate)
        }),
{
    let start = Double::from_bits(crossings::BRACKET_FINE_START);
    let one = Double::from_bits(0x3ff0_0000_0000_0000);
    let fine = crossings::fine_nodes(start);
    let coarse = crossings::coarse_nodes(one, max_rate);
    let grid = crossings::rate_grid(max_rate);
    lemma_fine_nodes(start);
    lemma_coarse_nodes(one, max_rate);
    let n = fine.len() as int;
    assert forall|i: int| 1 <= i < grid.len() - 1 implies #[trigger] rate_grid_goes_on(
        grid,
        i,
        max_rate,
    ) by {
        if i < n {
            assert(grid[i] == fine[i - 1] && grid[i + 1] == fine[i - 1 + 1]);
            assert(fine_goes_on(fine, i - 1));
        } else if i == n {
            assert(grid[i] == fine[n - 1]);
            if coarse.len() > 0 {
                assert(grid[i + 1] == coarse[0]);
            } else {
                assert(grid[i + 1] == max_rate);
            }
        } else if i < n + coarse.len() {
            let k = i - n - 1;
            assert(grid[i] == coarse[k] && grid[i + 1] == coarse[k + 1]);
            assert(coarse_goes_on(coarse, k, max_rate));
        } else {
            assert(grid[i] == coarse[coarse.len() - 1]);
            assert(grid[i + 1] == max_rate);
        }
    }
}

spec fn fine_goes_on(s: Seq<Double>, i: int) -> bool {
    let one = Double::from_bits(0x3ff0_0000_0000_0000);
    s[i].le(one) && s[i + 1] == s[i].sum(Double::from_bits(0x3f74_7ae1_47ae_147b)) && s[i + 1].le(
        one,
    )
}

proof fn lemma_fine_nodes(x: Double)
    requires
        !x.nan(),
        Double::from_bits(MINUS_ONE).le(x),
        x.le(Double::from_bits(0x3ff0_0000_0000_0000)),
    ensures
        ({
            let s = crossings::fine_nodes(x);
            let one = Double::from_bits(0x3ff0_0000_0000_0000);
            &&& s.len() > 0 && s[0] == x
            &&& s.last().le(one) && one.lt(
                s.last().sum(Double::from_bits(0x3f74_7ae1_47ae_147b)),
            )
            &&& forall|i: int| 0 <= i < s.len() - 1 ==> #[trigger] fine_goes_on(s, i)
        }),
    decreases INF_BITS - x.key(),
{
    let next = x.sum(Double::from_bits(crossings::BRACKET_FINE_STEP));
    crossings::lemma_fine_step(x);
    let rest = crossings::fine_nodes(next);
    let s = crossings::fine_nodes(x);
    if next.le(Double::from_bits(0x3ff0_0000_0000_0000)) {
        lemma_fine_nodes(next);
        assert(s.last() == rest.last());
        assert forall|i: int| 0 <= i < s.len() - 1 implies #[trigger] fine_goes_on(s, i) by {
            if i > 0 {
                assert(fine_goes_on(rest, i - 1));
                assert(s[i] == rest[i - 1] && s[i + 1] == rest[i - 1 + 1]);
            } else {
                assert(s[1] == rest[0]);
            }
        }
    }
}

spec fn coarse_goes_on(s: Seq<Double>, i: int, max_rate: Double) -> bool {
    let one = Double::from_bits(0x3ff0_0000_0000_0000);
    &&& one.le(s[i]) && s[i].lt(max_rate)
    &&& s[i + 1] == s[i].product(Double::from_bits(0x3ff0_cccc_cccc_cccd))
    &&& s[i + 1].lt(max_rate)
}

proof fn lemma_coarse_nodes(x: Double, max_rate: Double)
    requires
        !x.nan(),
        Double::from_bits(0x3ff0_0000_0000_0000).le(x),
    ensures
        ({
            let s = crossings::coarse_nodes(x, max_rate);
            let one = Double::from_bits(0x3ff0_0000_0000_0000);
            &&& s.len() > 0 <==> x.lt(max_rate)
            &&& s.len() > 0 ==> s[0] == x && one.le(s.last()) && s.last().lt(max_rate)
                && !s.last().product(Double::from_bits(0x3ff0_cccc_cccc_cccd)).lt(max_rate)
            &&& forall|i: int| 0 <= i < s.len() - 1 ==> #[trigger] coarse_goes_on(s, i, max_rate)
        }),
    decreases INF_BITS - x.key(),
{
    if x.lt(max_rate) {
        let next = x.product(Double::from_bits(crossings::BRACKET_GROWTH));
        crossings::lemma_coarse_step(x);
        let rest = crossings::coarse_nodes(next, max_rate);
        let s = crossings::coarse_nodes(x, max_rate);
        lemma_coarse_nodes(next, max_rate);
        if rest.len() > 0 {
            assert(s.last() == rest.last());
        }
        assert forall|i: int| 0 <= i < s.len() - 1 implies #[trigger] coarse_goes_on(
            s,
            i,
            max_rate,
        ) by {
            if i > 0 {
                assert(coarse_goes_on(rest, i - 1, max_rate));
                assert(s[i] == rest[i - 1] && s[i + 1] == rest[i - 1 + 1]);
            } else {
                assert(s[1] == rest[0]);
            }
        }
    }
}

// ---------------------------------------------------------------------------
// Brent's method on runs of breakpoints
// ---------------------------------------------------------------------------

/// The search on runs of breakpoints keeps exactly the finite results of Brent's
/// method between neighbours of a run, with 100 evaluations each, at which the value
/// is below `0.001`.
pub proof fn law_a_grid_search_keeps_the_small_residuals(
    m: spec_fn(Double) -> Double,
    runs: Seq<Vec<Double>>,
    r: Double,
)
    ensures
        brent::grid_search(m, runs, runs.len() as int).contains(r) <==> exists|i: int, j: int|
            0 <= i < runs.len() && 1 <= j < runs[i]@.len() && #[trigger] found_between(
                m,
                runs[i]@,
                j,
                r,
            ),
{
    lemma_grid_search(m, runs, runs.len() as int, r);
}

/// `r` is what Brent's method finds between point `j` and the one before it, and the
/// value there is small.
pub open spec fn found_between(
    m: spec_fn(Double) -> Double,
    points: Seq<Double>,
    j: int,
    r: Double,
) -> bool {
    &&& r == brent::brent(m, points[j - 1], points[j], 100)
    &&& r.finite()
    &&& m(r).magnitude().lt(Double::from_bits(0x3f50_624d_d2f1_a9fc))
}

proof fn lemma_grid_search(
    m: spec_fn(Double) -> Double,
    runs: Seq<Vec<Double>>,
    n: int,
    r: Double,
)
    requires
        0 <= n <= runs.len(),
    ensures
        brent::grid_search(m, runs, n).contains(r) <==> exists|i: int, j: int|
            0 <= i < n && 1 <= j < runs[i]@.len() && #[trigger] found_between(m, runs[i]@, j, r),
    decreases n,
{
    if n > 0 {
        lemma_grid_search(m, runs, n - 1, r);
        let points = runs[n - 1]@;
        let rest = brent::grid_search(m, runs, n - 1);
        let more = brent::roots_between(m, points, points.len() - 1);
        let all = brent::grid_search(m, runs, n);
        lemma_roots_between(m, points, points.len() - 1, r);
        if all.contains(r) {
            let k = choose|k: int| 0 <= k < all.len() && all[k] == r;
            if k < rest.len() {
                assert(rest[k] == r);
            } else {
                assert(more[k - rest.len()] == r);
                let j = choose|j: int|
                    1 <= j < points.len() && #[trigger] found_between(m, points, j, r);
                assert(found_between(m, runs[n - 1]@, j, r));
            }
        }
        if rest.contains(r) {
            let k = choose|k: int| 0 <= k < rest.len() && rest[k] == r;
            assert(all[k] == r);
        }
        if more.contains(r) {
            let k = choose|k: int| 0 <= k < more.len() && more[k] == r;
            assert(all[rest.len() + k] == r);
        }
        assert forall|i: int, j: int|
            0 <= i < n && 1 <= j < runs[i]@.len() && #[trigger] found_between(
                m,
                runs[i]@,
                j,
                r,
            ) implies all.contains(r) by {
            if i == n - 1 {
                assert(found_between(m, points, j, r));
                assert(more.contains(r));
            } else {
                assert(rest.contains(r));
            }
        }
    }
}

proof fn lemma_roots_between(m: spec_fn(Double) -> Double, points: Seq<Double>, n: int, r: Double)
    requires
        n < points.len(),
    ensures
        brent::roots_between(m, points, n).contains(r) <==> exists|j: int|
            1 <= j <= n && #[trigger] found_between(m, points, j, r),
    decreases n,
{
    if n > 0 {
        lemma_roots_between(m, points, n - 1, r);
        let rest = brent::roots_between(m, points, n - 1);
        let all = brent::roots_between(m, points, n);
        let x = brent::brent(m, points[n - 1], points[n], 100);
        if all.contains(r) {
            let k = choose|k: int| 0 <= k < all.len() && all[k] == r;
            if k < rest.len() {
                assert(rest[k] == r);
            } else {
                assert(found_between(m, points, n, r));
            }
        }
        if rest.contains(r) {
            let k = choose|k: int| 0 <= k < rest.len() && rest[k] == r;
            assert(all[k] == r);
        }
        if found_between(m, points, n, r) {
            assert(all[rest.len() as int] == r);
        }
    }
}

} // verus!
