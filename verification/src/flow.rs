//! The mathematics of a cash flow: its present value, its roots, and the rate
//! that each policy selects.

use crate::double::{Double, INF_BITS, MINUS_ONE, NAN_BITS, ONE};
use crate::host::{Call, DayCount};
use crate::log_rate;
use crate::netted;
use crate::netted::{Shape, Term};
use crate::optimize::newton;
use crate::payments;
use crate::payments::{DateLike, InvalidPaymentsError};
use crate::search;
use crate::sorting;
use vstd::prelude::*;

verus! {

/// `1e-9`: how close to zero the net present value must be for a rate to count
/// as a root, relative to the size of the terms summed at that rate.
pub const RESIDUAL_REL_TOL: u64 = 0x3e11_2e0b_e826_d695;

/// `1e-7`: how far apart two rates must be to count as different roots.
pub const DISTINCT_ROOT_TOL: u64 = 0x3e7a_d7f2_9abc_af48;

/// `1e-7`: how far apart two roots must be in log-rate space to count as
/// different, which is a relative distance of `1 + r`.
pub const DISTINCT_ROOT_U_TOL: u64 = 0x3e7a_d7f2_9abc_af48;

/// What to do when more than one rate solves a cash flow.
#[derive(Clone, Copy, Debug, PartialEq, Eq, Structural)]
pub enum RootPolicy {
    /// Exactly what a spreadsheet does, including no rate where a spreadsheet
    /// shows an error.
    SpreadsheetCompat,
    /// The spreadsheet's answer whenever it has one, bracketed root finding
    /// otherwise. The default.
    SpreadsheetThenRobust,
    /// The smallest root.
    Lowest,
    /// The root nearest the guess.
    ClosestToGuess,
}

impl Default for RootPolicy {
    fn default() -> (policy: RootPolicy)
        ensures
            policy == RootPolicy::SpreadsheetThenRobust,
    {
        RootPolicy::SpreadsheetThenRobust
    }
}

/// The sum of the first `n` amounts, each discounted by a power of `base`.
pub open spec fn discounted(
    m: spec_fn(Call) -> Double,
    amounts: Seq<Double>,
    deltas: Seq<Double>,
    base: Double,
    n: int,
) -> Double
    decreases n,
{
    if n <= 0 {
        Double::from_bits(0)
    } else {
        discounted(m, amounts, deltas, base, n - 1).sum(
            amounts[n - 1].product(m(Call::Powf(base, deltas[n - 1].opposite()))),
        )
    }
}

/// The derivative of that sum.
pub open spec fn discounted_deriv(
    m: spec_fn(Call) -> Double,
    amounts: Seq<Double>,
    deltas: Seq<Double>,
    base: Double,
    n: int,
) -> Double
    decreases n,
{
    if n <= 0 {
        Double::from_bits(0)
    } else {
        discounted_deriv(m, amounts, deltas, base, n - 1).sum(
            amounts[n - 1].product(m(Call::Powf(base, deltas[n - 1].opposite()))).product(
                deltas[n - 1].opposite(),
            ).quotient(base),
        )
    }
}

/// The starting points of the last resort, as log-rates: the guess, then rates
/// spread over the plausible range, then log-rates of every magnitude.
pub open spec fn fallback_seeds(m: spec_fn(Call) -> Double, guess: Double) -> Seq<Double> {
    seq![
        log_rate::log_rate(m, guess),
        log_rate::log_rate(m, Double::from_bits(0x0)),
        log_rate::log_rate(m, Double::from_bits(0xbfe0_0000_0000_0000)),
        log_rate::log_rate(m, Double::from_bits(0xbfec_cccc_cccc_cccd)),
        log_rate::log_rate(m, Double::from_bits(0x3fe0_0000_0000_0000)),
        log_rate::log_rate(m, Double::from_bits(0x4000_0000_0000_0000)),
        log_rate::log_rate(m, Double::from_bits(0x4024_0000_0000_0000)),
        Double::from_bits(0xc034_0000_0000_0000),
        Double::from_bits(0xc014_0000_0000_0000),
        Double::from_bits(0x4014_0000_0000_0000),
        Double::from_bits(0x4034_0000_0000_0000),
        Double::from_bits(0x404e_0000_0000_0000),
        Double::from_bits(0x4062_c000_0000_0000),
        Double::from_bits(0x4075_e000_0000_0000),
        Double::from_bits(0x4084_5000_0000_0000),
    ]
}

/// A cash flow: amounts, and the year fraction at which each is due.
pub struct Flow {
    pub amounts: Seq<Double>,
    pub deltas: Seq<Double>,
}

impl Flow {
    /// The netted terms.
    pub open spec fn terms(self) -> Seq<Term> {
        netted::netted(
            netted::finite_terms(
                self.deltas,
                self.amounts,
                netted::paired(self.deltas, self.amounts),
            ),
        )
    }

    /// Something is not finite.
    pub open spec fn poisoned(self) -> bool {
        !(netted::all_finite(self.amounts) && netted::all_finite(self.deltas))
    }

    /// Sign changes of the netted terms.
    pub open spec fn change_count(self) -> nat {
        netted::changes(self.terms(), self.terms().len() as int)
    }

    /// What the sign changes prove.
    pub open spec fn shape(self) -> Shape {
        netted::shape_of(self.poisoned(), self.change_count())
    }

    /// The net present value at `rate` and its derivative. Both infinite
    /// outside the domain.
    pub open spec fn npv(self, m: spec_fn(Call) -> Double, rate: Double) -> (Double, Double) {
        let n = netted::paired(self.deltas, self.amounts);
        let base = Double::from_bits(ONE).sum(rate);
        if rate.le(Double::from_bits(MINUS_ONE)) {
            (Double::from_bits(INF_BITS), Double::from_bits(INF_BITS))
        } else {
            (
                discounted(m, self.amounts, self.deltas, base, n),
                discounted_deriv(m, self.amounts, self.deltas, base, n),
            )
        }
    }

    /// The net present value and its derivative, as functions of the rate.
    pub open spec fn npv_fn(self, m: spec_fn(Call) -> Double) -> spec_fn(Double) -> (
        Double,
        Double,
    ) {
        |rate: Double| self.npv(m, rate)
    }

    /// The scaled objective at log-rate `u` and its derivative.
    pub open spec fn g(self, m: spec_fn(Call) -> Double, u: Double) -> (Double, Double) {
        let n = self.terms().len() as int;
        (netted::g_value(m, self.terms(), u, n), netted::g_deriv(m, self.terms(), u, n))
    }

    /// The scaled size of the objective's terms at log-rate `u`.
    pub open spec fn gross(self, m: spec_fn(Call) -> Double, u: Double) -> Double {
        netted::g_gross(m, self.terms(), u, self.terms().len() as int)
    }

    /// The scaled objective and its derivative, as functions of the log-rate.
    pub open spec fn g_fn(self, m: spec_fn(Call) -> Double) -> spec_fn(Double) -> (
        Double,
        Double,
    ) {
        |u: Double| self.g(m, u)
    }

    /// The scaled objective, as a function of the log-rate.
    pub open spec fn value_fn(self, m: spec_fn(Call) -> Double) -> spec_fn(Double) -> Double {
        |u: Double| self.g(m, u).0
    }

    /// The derivative of the scaled objective, as a function of the log-rate.
    pub open spec fn deriv_fn(self, m: spec_fn(Call) -> Double) -> spec_fn(Double) -> Double {
        |u: Double| self.g(m, u).1
    }

    /// `rate` is a root: the netted terms cancel there, down to a small part of
    /// their size.
    pub open spec fn is_root(self, m: spec_fn(Call) -> Double, rate: Double) -> bool {
        let u = log_rate::log_rate(m, rate);
        let value = self.g(m, u).0;
        let size = self.gross(m, u);
        &&& rate.finite()
        &&& !rate.le(Double::from_bits(MINUS_ONE))
        &&& !self.poisoned()
        &&& value.finite()
        &&& size.positive()
        &&& value.magnitude().le(Double::from_bits(RESIDUAL_REL_TOL).product(size))
    }

    /// `rate` where it is a root, NaN where it is not.
    pub open spec fn verified(self, m: spec_fn(Call) -> Double, rate: Double) -> Double {
        if self.is_root(m, rate) {
            rate
        } else {
            Double::from_bits(NAN_BITS)
        }
    }

    /// The rate a spreadsheet shows; NaN where it shows an error.
    pub open spec fn spreadsheet_rate(self, m: spec_fn(Call) -> Double, guess: Double) -> Double {
        newton::excel_order(self.npv_fn(m), guess)
    }

    /// The turning points of the objective that the grid brackets.
    pub open spec fn extrema(self, m: spec_fn(Call) -> Double) -> Seq<Double> {
        search::crossing_roots(self.deriv_fn(m), log_rate::log_rate_nodes(), usize::MAX as nat)
    }

    /// The grid, with the turning points among its nodes.
    pub open spec fn refined_grid(self, m: spec_fn(Call) -> Double) -> Seq<Double> {
        sorting::thinned(
            sorting::sorted(log_rate::log_rate_nodes() + self.extrema(m)),
            sorting::equal(),
        )
    }

    /// The most roots that the sign changes allow, and at least one.
    pub open spec fn root_bound(self) -> nat {
        if self.change_count() > 1 {
            self.change_count()
        } else {
            1
        }
    }

    /// The log-rates at which the objective crosses zero on the refined grid,
    /// no more than the sign changes allow.
    pub open spec fn crossed(self, m: spec_fn(Call) -> Double) -> Seq<Double> {
        search::crossing_roots(self.value_fn(m), self.refined_grid(m), self.root_bound())
    }

    /// The log-rates at which there may be a root: crossings, and turning points
    /// that no two crossings straddle.
    pub open spec fn candidates(self, m: spec_fn(Call) -> Double) -> Seq<Double> {
        let found = self.crossed(m);
        let extrema = self.extrema(m);
        sorting::thinned(
            sorting::sorted(found + search::lone(extrema, found, extrema.len() as int)),
            sorting::within(Double::from_bits(DISTINCT_ROOT_U_TOL)),
        )
    }

    /// The rates of the first `n` log-rates that are roots.
    pub open spec fn roots_among(
        self,
        m: spec_fn(Call) -> Double,
        us: Seq<Double>,
        n: int,
    ) -> Seq<Double>
        decreases n,
    {
        if n <= 0 {
            Seq::empty()
        } else {
            let rest = self.roots_among(m, us, n - 1);
            let rate = log_rate::rate_of(m, us[n - 1]);
            if self.is_root(m, rate) {
                rest.push(rate)
            } else {
                rest
            }
        }
    }

    /// Every root found, ascending and apart.
    pub open spec fn roots(self, m: spec_fn(Call) -> Double) -> Seq<Double> {
        if self.shape() == Shape::NoRootExists {
            Seq::empty()
        } else {
            let us = self.candidates(m);
            sorting::thinned(
                sorting::sorted(self.roots_among(m, us, us.len() as int)),
                sorting::within(Double::from_bits(DISTINCT_ROOT_TOL)),
            )
        }
    }

    /// The rate that Newton's method reaches from log-rate `u`.
    pub open spec fn newton_rate(self, m: spec_fn(Call) -> Double, u: Double) -> Double {
        log_rate::rate_of(
            m,
            newton::residual_search(
                self.g_fn(m),
                u,
                Double::from_bits(0),
                newton::RESIDUAL_MAX_ITER as nat,
            ),
        )
    }

    /// The first root that Newton's method reaches from the seeds from number
    /// `i` on; NaN if it reaches none.
    pub open spec fn first_root_from(
        self,
        m: spec_fn(Call) -> Double,
        seeds: Seq<Double>,
        i: int,
    ) -> Double
        decreases seeds.len() - i,
    {
        if i >= seeds.len() {
            Double::from_bits(NAN_BITS)
        } else if seeds[i].finite() && self.is_root(m, self.newton_rate(m, seeds[i])) {
            self.newton_rate(m, seeds[i])
        } else {
            self.first_root_from(m, seeds, i + 1)
        }
    }

    /// The rate of the robust search: the enumerated root nearest the guess, or
    /// else the first that Newton's method reaches.
    pub open spec fn robust_rate(self, m: spec_fn(Call) -> Double, guess: Double) -> Double {
        if self.shape() == Shape::NoRootExists {
            Double::from_bits(NAN_BITS)
        } else {
            match search::nearest(self.roots(m), guess, self.roots(m).len() as int) {
                Some(root) => root,
                None => self.first_root_from(m, fallback_seeds(m, guess), 0),
            }
        }
    }

    /// The rate that a policy selects.
    pub open spec fn rate(
        self,
        m: spec_fn(Call) -> Double,
        guess: Double,
        policy: RootPolicy,
    ) -> Double {
        let spreadsheet = self.spreadsheet_rate(m, guess);
        let roots = self.roots(m);
        match policy {
            RootPolicy::SpreadsheetCompat => spreadsheet,
            RootPolicy::SpreadsheetThenRobust => if spreadsheet.finite() {
                spreadsheet
            } else {
                self.robust_rate(m, guess)
            },
            RootPolicy::Lowest => if roots.len() > 0 {
                roots[0]
            } else {
                self.verified(m, spreadsheet)
            },
            RootPolicy::ClosestToGuess => match search::nearest(roots, guess, roots.len() as int) {
                Some(root) => root,
                None => self.verified(m, spreadsheet),
            },
        }
    }
}

/// The flow that dates and amounts make.
pub open spec fn flow_of(
    m: spec_fn(Call) -> Double,
    dates: Seq<DateLike>,
    amounts: Seq<Double>,
    day_count: Option<DayCount>,
) -> Flow {
    Flow { amounts, deltas: payments::year_fraction_seq(m, dates, day_count) }
}

/// What is wrong with the payments, if anything.
pub open spec fn payment_error(
    dates: Seq<DateLike>,
    amounts: Seq<Double>,
) -> Option<InvalidPaymentsError> {
    if amounts.len() != dates.len() {
        Some(InvalidPaymentsError::DifferentLengths)
    } else if !(payments::some_positive(amounts) && payments::some_negative(amounts)) {
        Some(InvalidPaymentsError::OneSided)
    } else if payments::some_before_first(dates) {
        Some(InvalidPaymentsError::DateBeforeFirst)
    } else {
        None
    }
}

} // verus!
