//! Where the root finders go, step by step: a path of iterates, and what is
//! returned at its end.

use crate::double::{Double, MINUS_ONE, NAN_BITS};
use crate::flow::Flow;
use crate::host::Call;
use crate::integers;
use crate::log_rate;
use crate::optimize::brent;
use crate::optimize::brent::Brent;
use crate::optimize::laws;
use crate::optimize::newton;
use vstd::prelude::*;

verus! {

// ---------------------------------------------------------------------------
// Newton's method as a spreadsheet performs it
// ---------------------------------------------------------------------------

/// Iterate `k + 1` is iterate `k` less the value over the derivative there.
pub open spec fn newton_steps(
    m: spec_fn(Double) -> (Double, Double),
    xs: Seq<Double>,
    k: int,
) -> bool {
    xs[k + 1] == xs[k].difference(m(xs[k]).0.quotient(m(xs[k]).1))
}

/// Each iterate comes of the one before it by a step of Newton's method.
pub open spec fn newton_path(m: spec_fn(Double) -> (Double, Double), xs: Seq<Double>) -> bool {
    forall|k: int| 0 <= k < xs.len() - 1 ==> #[trigger] newton_steps(m, xs, k)
}

/// Neither the step from iterate `k` nor the value there has come down to `1e-10`.
pub open spec fn goes_on(
    m: spec_fn(Double) -> (Double, Double),
    xs: Seq<Double>,
    k: int,
) -> bool {
    let eps = Double::from_bits(0x3ddb_7cdf_d9d7_bdbb);
    eps.lt(xs[k + 1].difference(xs[k]).magnitude()) && eps.lt(m(xs[k]).0.magnitude())
}

/// An attempt follows Newton's method from its seed to the first iterate at which
/// the step or the value has come down to `1e-10`, for at most 50 steps, and
/// yields the iterate after that, if it and the last value are finite.
pub proof fn law_an_attempt_follows_its_path(
    m: spec_fn(Double) -> (Double, Double),
    xs: Seq<Double>,
    j: int,
)
    requires
        0 <= j < 50,
        xs.len() == j + 2,
        newton_path(m, xs),
        forall|k: int| 0 <= k < j ==> #[trigger] goes_on(m, xs, k),
        j == 49 || !goes_on(m, xs, j),
    ensures
        newton::attempt(m, xs[0]) == if !goes_on(m, xs, j) && xs[j + 1].finite() && m(
            xs[j],
        ).0.finite() {
            Some(xs[j + 1])
        } else {
            None::<Double>
        },
{
    lemma_last_rate_of_path(m, xs, j, 0);
    assert(newton_steps(m, xs, j));
}

proof fn lemma_last_rate_of_path(
    m: spec_fn(Double) -> (Double, Double),
    xs: Seq<Double>,
    j: int,
    k: int,
)
    requires
        0 <= k <= j < 50,
        xs.len() == j + 2,
        newton_path(m, xs),
        forall|k: int| 0 <= k < j ==> #[trigger] goes_on(m, xs, k),
        j == 49 || !goes_on(m, xs, j),
    ensures
        newton::last_rate(m, xs[k], (50 - k) as nat) == xs[j],
    decreases j - k,
{
    assert(newton_steps(m, xs, k));
    assert(newton::unsettled(m, xs[k]) == goes_on(m, xs, k));
    if k < j {
        lemma_last_rate_of_path(m, xs, j, k + 1);
    }
}

/// The attempts of a spreadsheet start at the guess, and then at `-0.99` and every
/// `0.01` above it.
pub open spec fn start_of(guess: Double, k: int) -> Double {
    if k == 0 {
        guess
    } else {
        Double::from_bits(0xbfef_ae14_7ae1_47ae).sum(
            integers::whole(k).difference(Double::from_bits(0x3ff0_0000_0000_0000)).product(
                Double::from_bits(0x3f84_7ae1_47ae_147b),
            ),
        )
    }
}

/// The spreadsheet's rate of a flow is that of the first of 200 attempts on its
/// present value that yields one. There is none exactly if no attempt yields one,
/// or the guess is not a finite number above `-1`.
pub proof fn law_the_spreadsheet_rate_is_the_first_success(
    flow: Flow,
    m: spec_fn(Call) -> Double,
    guess: Double,
    k: int,
)
    requires
        0 <= k <= 200,
        ({
            let f = |rate: Double| flow.npv(m, rate);
            forall|i: int|
                0 <= i < k ==> newton::attempt(f, #[trigger] start_of(guess, i)) is None
        }),
    ensures
        ({
            let f = |rate: Double| flow.npv(m, rate);
            let rate = flow.spreadsheet_rate(m, guess);
            let usable = guess.finite() && Double::from_bits(MINUS_ONE).lt(guess);
            &&& !usable ==> rate == Double::from_bits(NAN_BITS)
            &&& usable && k == 200 ==> rate == Double::from_bits(NAN_BITS)
            &&& usable && k < 200 && newton::attempt(f, start_of(guess, k)) is Some
                ==> newton::attempt(f, start_of(guess, k)) == Some(rate)
        }),
{
    let f = |rate: Double| flow.npv(m, rate);
    let g = flow.npv_fn(m);
    assert(f =~= g);
    if guess.finite() && Double::from_bits(MINUS_ONE).lt(guess) {
        assert forall|i: int| 0 <= i < k implies newton::attempt(
            g,
            #[trigger] newton::scan_seed(guess, i),
        ) is None by {
            assert(newton::scan_seed(guess, i) == start_of(guess, i));
        }
        if k == 200 {
            laws::law_excel_order_fails_when_every_attempt_fails(g, guess);
            lemma_no_attempt(g, guess, 0);
        } else if newton::attempt(f, start_of(guess, k)) is Some {
            assert(newton::scan_seed(guess, k) == start_of(guess, k));
            laws::law_excel_order_takes_the_first_success(g, guess, k);
        }
    }
}

proof fn lemma_no_attempt(
    m: spec_fn(Double) -> (Double, Double),
    guess: Double,
    from: int,
)
    requires
        0 <= from <= newton::EXCEL_MAX_SCAN,
        forall|k: int|
            0 <= k < newton::EXCEL_MAX_SCAN ==> newton::attempt(
                m,
                #[trigger] newton::scan_seed(guess, k),
            ) is None,
    ensures
        newton::first_attempt(m, guess, from) == Double::from_bits(NAN_BITS),
    decreases newton::EXCEL_MAX_SCAN - from,
{
    if from < newton::EXCEL_MAX_SCAN {
        assert(newton::attempt(m, newton::scan_seed(guess, from)) is None);
        lemma_no_attempt(m, guess, from + 1);
    }
}

/// Where Newton's method on the present value settles from the guess, the
/// spreadsheet's rate is the iterate after that.
pub proof fn law_the_spreadsheet_rate_follows_the_guess(
    flow: Flow,
    m: spec_fn(Call) -> Double,
    xs: Seq<Double>,
    j: int,
)
    requires
        0 <= j < 50,
        xs.len() == j + 2,
        xs[0].finite(),
        Double::from_bits(MINUS_ONE).lt(xs[0]),
        ({
            let f = |rate: Double| flow.npv(m, rate);
            &&& newton_path(f, xs)
            &&& forall|k: int| 0 <= k < j ==> #[trigger] goes_on(f, xs, k)
            &&& !goes_on(f, xs, j)
        }),
        xs[j + 1].finite(),
        flow.npv(m, xs[j]).0.finite(),
    ensures
        flow.spreadsheet_rate(m, xs[0]) == xs[j + 1],
{
    let f = |rate: Double| flow.npv(m, rate);
    law_an_attempt_follows_its_path(f, xs, j);
    law_the_spreadsheet_rate_is_the_first_success(flow, m, xs[0], 0);
}

// ---------------------------------------------------------------------------
// Newton's method to a residual
// ---------------------------------------------------------------------------

/// The step to `y` is below `1e-12`, or below that part of `y` if `y` is above one.
pub open spec fn stalls(step: Double, y: Double) -> bool {
    let floor = Double::from_bits(0x3d71_9799_812d_ea11);
    if Double::from_bits(0x3ff0_0000_0000_0000).lt(y.magnitude()) {
        step.magnitude().lt(floor.product(y.magnitude()))
    } else {
        step.magnitude().lt(floor)
    }
}

/// The search goes on from iterate `k`: value finite and above the tolerance, slope
/// not zero, and the step not stalled.
pub open spec fn presses_on(
    m: spec_fn(Double) -> (Double, Double),
    tol: Double,
    xs: Seq<Double>,
    k: int,
) -> bool {
    let x = xs[k];
    &&& m(x).0.finite() && !m(x).1.zero()
    &&& !m(x).0.magnitude().le(tol)
    &&& !stalls(m(x).0.quotient(m(x).1), xs[k + 1])
}

/// The search for a residual follows Newton's method to the first iterate at which
/// it does not go on. It returns that one if the value there is within the
/// tolerance, the next one if the step has stalled, and otherwise, or when the
/// steps run out, none.
pub proof fn law_a_residual_search_follows_its_path(
    m: spec_fn(Double) -> (Double, Double),
    tol: Double,
    xs: Seq<Double>,
    j: nat,
    left: nat,
)
    requires
        j <= left,
        xs.len() == j + 2,
        newton_path(m, xs),
        forall|k: int| 0 <= k < j ==> #[trigger] presses_on(m, tol, xs, k),
        j == left || !presses_on(m, tol, xs, j as int),
    ensures
        ({
            let x = xs[j as int];
            newton::residual_search(m, xs[0], tol, left) == if j == left || !m(x).0.finite() || m(
                x,
            ).1.zero() {
                Double::from_bits(NAN_BITS)
            } else if m(x).0.magnitude().le(tol) {
                x
            } else {
                xs[j as int + 1]
            }
        }),
    decreases j,
{
    assert(newton_steps(m, xs, 0));
    if j > 0 {
        assert(presses_on(m, tol, xs, 0));
        let rest = xs.skip(1);
        assert forall|k: int| 0 <= k < rest.len() - 1 implies #[trigger] newton_steps(m, rest, k) by {
            assert(newton_steps(m, xs, k + 1));
        }
        assert forall|k: int| 0 <= k < j - 1 implies #[trigger] presses_on(
            m,
            tol,
            rest,
            k,
        ) by {
            assert(presses_on(m, tol, xs, k + 1));
        }
        law_a_residual_search_follows_its_path(m, tol, rest, (j - 1) as nat, (left - 1) as nat);
    }
}

/// Newton's method on the objective of a flow is such a search, of 50 steps, down
/// to an exact zero, and its rate is that of the log-rate at which it ends.
pub proof fn law_newton_on_the_objective(flow: Flow, m: spec_fn(Call) -> Double, u: Double)
    ensures
        flow.newton_rate(m, u) == log_rate::rate_of(
            m,
            newton::residual_search(|x: Double| flow.g(m, x), u, Double::from_bits(0), 50),
        ),
{
    assert(flow.g_fn(m) =~= (|x: Double| flow.g(m, x)));
}

// ---------------------------------------------------------------------------
// Newton's method with absolute tolerances
// ---------------------------------------------------------------------------

/// Plain Newton iteration follows its path to the first iterate at which the value
/// or the step is below `1e-9`, and returns that iterate in the first case and the
/// next one in the second; none when the steps run out.
pub proof fn law_plain_newton_follows_its_path(
    f: spec_fn(Double) -> Double,
    d: spec_fn(Double) -> Double,
    xs: Seq<Double>,
    j: nat,
    left: nat,
)
    requires
        j <= left,
        xs.len() == j + 2,
        newton_path(|x: Double| (f(x), d(x)), xs),
        forall|k: int|
            0 <= k < j ==> !(f(#[trigger] xs[k]).magnitude().lt(
                Double::from_bits(0x3e11_2e0b_e826_d695),
            )) && !(f(xs[k]).quotient(d(xs[k])).magnitude().lt(
                Double::from_bits(0x3e11_2e0b_e826_d695),
            )),
        j == left || f(xs[j as int]).magnitude().lt(Double::from_bits(0x3e11_2e0b_e826_d695)) || f(
            xs[j as int],
        ).quotient(d(xs[j as int])).magnitude().lt(Double::from_bits(0x3e11_2e0b_e826_d695)),
    ensures
        newton::raphson(f, d, xs[0], left) == if j == left {
            Double::from_bits(NAN_BITS)
        } else if f(xs[j as int]).magnitude().lt(Double::from_bits(0x3e11_2e0b_e826_d695)) {
            xs[j as int]
        } else {
            xs[j as int + 1]
        },
    decreases j,
{
    let m = |x: Double| (f(x), d(x));
    assert(newton_steps(m, xs, 0));
    if j > 0 {
        let rest = xs.skip(1);
        assert(!f(xs[0]).magnitude().lt(Double::from_bits(0x3e11_2e0b_e826_d695)));
        assert forall|k: int| 0 <= k < rest.len() - 1 implies #[trigger] newton_steps(m, rest, k) by {
            assert(newton_steps(m, xs, k + 1));
        }
        assert forall|k: int| 0 <= k < j - 1 implies !(f(#[trigger] rest[k]).magnitude().lt(
            Double::from_bits(0x3e11_2e0b_e826_d695),
        )) && !(f(rest[k]).quotient(d(rest[k])).magnitude().lt(
            Double::from_bits(0x3e11_2e0b_e826_d695),
        )) by {
            assert(rest[k] == xs[k + 1]);
        }
        law_plain_newton_follows_its_path(f, d, rest, (j - 1) as nat, (left - 1) as nat);
    }
}

/// The difference quotient is taken over `1e-9` to either side.
pub proof fn law_the_difference_quotient_is_symmetric(f: spec_fn(Double) -> Double, x: Double)
    ensures
        ({
            let e = Double::from_bits(0x3e11_2e0b_e826_d695);
            newton::default_deriv(f, x) == f(x.sum(e)).difference(f(x.difference(e))).quotient(
                Double::from_bits(0x4000_0000_0000_0000).product(e),
            )
        }),
{
}

// ---------------------------------------------------------------------------
// Brent's method
// ---------------------------------------------------------------------------

/// Each state is the one before it, prepared and advanced by a step.
pub open spec fn brent_path(m: spec_fn(Double) -> Double, ss: Seq<Brent>) -> bool {
    forall|k: int| 1 <= k < ss.len() ==> #[trigger] ss[k] == ss[k - 1].prepared().advanced(m)
}

/// Half the tolerance at a point, as computed.
pub open spec fn least_step(x: Double) -> Double {
    Double::from_bits(0x3d16_849b_86a1_2b9b).sum(
        Double::from_bits(0x3cd0_0000_0000_0000).product(x.magnitude()),
    ).quotient(Double::from_bits(0x4000_0000_0000_0000))
}

/// The current point of a state is good enough: the value there is zero, or half
/// the way to the point across is below half the tolerance.
pub open spec fn good_enough(p: Brent) -> bool {
    p.fcur.zero() || p.xblk.difference(p.xcur).quotient(
        Double::from_bits(0x4000_0000_0000_0000),
    ).magnitude().lt(least_step(p.xcur))
}

/// Where the ends have finite values of opposite signs, Brent's method steps on
/// until the current point is good enough and returns it; only when its
/// evaluations run out first does it return none. An end at which the value is
/// zero is returned at once, and ends without a sign change have no root.
pub proof fn law_brent_follows_its_path(
    m: spec_fn(Double) -> Double,
    xa: Double,
    xb: Double,
    ss: Seq<Brent>,
    j: nat,
    iter: nat,
)
    requires
        j <= iter,
        ss.len() == j + 1,
        ss[0].xpre == xa && ss[0].fpre == m(xa),
        ss[0].xcur == xb && ss[0].fcur == m(xb),
        ss[0].xblk == Double::from_bits(0) && ss[0].fblk == Double::from_bits(0),
        ss[0].spre == Double::from_bits(0) && ss[0].scur == Double::from_bits(0),
        brent_path(m, ss),
        forall|k: int| 0 <= k < j ==> !good_enough((#[trigger] ss[k]).prepared()),
        j == iter || good_enough(ss[j as int].prepared()),
    ensures
        ({
            let r = brent::brent(m, xa, xb, iter);
            let numbers = m(xa).finite() && m(xb).finite();
            let signs = numbers && !m(xa).zero() && !m(xb).zero();
            &&& !numbers ==> r.nan()
            &&& numbers && m(xa).zero() ==> r == xa
            &&& numbers && !m(xa).zero() && m(xb).zero() ==> r == xb
            &&& signs && m(xa).negative() == m(xb).negative() ==> r.nan()
            &&& signs && m(xa).negative() != m(xb).negative() && j < iter ==> r
                == ss[j as int].prepared().xcur
            &&& signs && m(xa).negative() != m(xb).negative() && j == iter ==> r.nan()
        }),
{
    assert(ss[0] == Brent::start(m, xa, xb));
    lemma_search_of_path(m, ss, j, iter);
}

proof fn lemma_search_of_path(m: spec_fn(Double) -> Double, ss: Seq<Brent>, j: nat, left: nat)
    requires
        j <= left,
        ss.len() == j + 1,
        brent_path(m, ss),
        forall|k: int| 0 <= k < j ==> !good_enough((#[trigger] ss[k]).prepared()),
        j == left || good_enough(ss[j as int].prepared()),
    ensures
        brent::brent_search(m, ss[0], left) == if j == left {
            Double::from_bits(NAN_BITS)
        } else {
            ss[j as int].prepared().xcur
        },
    decreases j,
{
    assert(good_enough(ss[0].prepared()) == ss[0].prepared().done());
    if j > 0 {
        assert(!good_enough(ss[0].prepared()));
        assert(ss[1] == ss[0].prepared().advanced(m));
        let rest = ss.skip(1);
        assert forall|k: int| 1 <= k < rest.len() implies #[trigger] rest[k] == rest[k
            - 1].prepared().advanced(m) by {
            assert(ss[k + 1] == rest[k]);
        }
        assert forall|k: int| 0 <= k < j - 1 implies !good_enough(
            (#[trigger] rest[k]).prepared(),
        ) by {
            assert(rest[k] == ss[k + 1]);
        }
        lemma_search_of_path(m, rest, (j - 1) as nat, (left - 1) as nat);
    }
}

/// Preparing a step keeps the points and their values together. Where the last
/// step changed the sign, as one to what is no number does, the previous point
/// becomes the one across; and of the current point and the one across, the one with
/// the smaller value is current.
pub proof fn law_a_step_is_prepared_from_the_better_end(s: Brent)
    ensures
        ({
            let p = s.prepared();
            let crossed = !s.fpre.zero() && !s.fcur.zero() && (s.fpre.nan() || s.fcur.nan()
                || s.fpre.negative() != s.fcur.negative());
            let (x, f) = if crossed {
                (s.xpre, s.fpre)
            } else {
                (s.xblk, s.fblk)
            };
            &&& f.magnitude().lt(s.fcur.magnitude()) ==> p.xcur == x && p.fcur == f && p.xblk
                == s.xcur && p.fblk == s.fcur && p.xpre == s.xcur && p.fpre == s.fcur
            &&& !f.magnitude().lt(s.fcur.magnitude()) ==> p.xcur == s.xcur && p.fcur == s.fcur
                && p.xblk == x && p.fblk == f && p.xpre == s.xpre && p.fpre == s.fpre
            &&& !p.fblk.magnitude().lt(p.fcur.magnitude())
            &&& crossed ==> p.spre == s.xcur.difference(s.xpre) && p.scur == s.xcur.difference(
                s.xpre,
            )
            &&& !crossed ==> p.spre == s.spre && p.scur == s.scur
        }),
{
}

/// A step: halfway to the point across, unless a shorter one that interpolation
/// suggests is worth taking, and never less than half the tolerance. It is worth
/// taking while the steps before it and the values have been shrinking, if it is
/// below half the step before the last and below three quarters of the bracket.
pub proof fn law_a_step_halves_the_bracket_or_better(p: Brent, m: spec_fn(Double) -> Double)
    ensures
        ({
            let half = p.xblk.difference(p.xcur).quotient(
                Double::from_bits(0x4000_0000_0000_0000),
            );
            let least = least_step(p.xcur);
            let reach = Double::from_bits(0x4008_0000_0000_0000).product(
                half.magnitude(),
            ).difference(least);
            let twice = Double::from_bits(0x4000_0000_0000_0000).product(p.stry().magnitude());
            let taken = least.lt(p.spre.magnitude()) && p.fcur.magnitude().lt(p.fpre.magnitude())
                && twice.lt(
                if reach.lt(p.spre.magnitude()) || p.spre.nan() {
                    reach
                } else {
                    p.spre.magnitude()
                },
            );
            let step = if taken {
                p.stry()
            } else {
                half
            };
            let next = p.advanced(m);
            &&& next.xcur == p.xcur.sum(
                if least.lt(step.magnitude()) {
                    step
                } else if Double::from_bits(0).lt(half) {
                    least
                } else {
                    least.opposite()
                },
            )
            &&& next.fcur == m(next.xcur)
            &&& next.xpre == p.xcur && next.fpre == p.fcur
            &&& next.xblk == p.xblk && next.fblk == p.fblk
            &&& next.scur == step
            &&& next.spre == if taken {
                p.scur
            } else {
                half
            }
        }),
{
}

/// What interpolation suggests: where the previous point is the one across, the
/// step to the zero of the line through the two; otherwise that to the zero of the
/// inverse parabola through all three.
pub proof fn law_what_interpolation_suggests(p: Brent)
    ensures
        p.xpre.same(p.xblk) ==> p.stry() == p.fcur.opposite().product(
            p.xcur.difference(p.xpre),
        ).quotient(p.fcur.difference(p.fpre)),
        !p.xpre.same(p.xblk) ==> ({
            let before = p.fpre.difference(p.fcur).quotient(p.xpre.difference(p.xcur));
            let ahead = p.fblk.difference(p.fcur).quotient(p.xblk.difference(p.xcur));
            p.stry() == p.fcur.opposite().product(
                p.fblk.product(ahead).difference(p.fpre.product(before)),
            ).quotient(ahead.product(before).product(p.fblk.difference(p.fpre)))
        }),
{
}

} // verus!
