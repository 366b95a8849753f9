//! A cash flow ready to be solved.

use crate::double::{Double, INF_BITS, MINUS_ONE, NAN_BITS, ONE};
use crate::flow;
use crate::flow::{Flow, RootPolicy};
use crate::host;
use crate::host::{Call, DayCount};
use crate::log_rate;
use crate::netted;
use crate::netted::{NettedFlow, Shape};
use crate::optimize::newton;
use crate::payments;
use crate::payments::{DateLike, InvalidPaymentsError};
use crate::search;
use crate::sorting;
use vstd::prelude::*;

verus! {

/// A validated cash flow, ready to be solved.
pub struct CashFlow {
    pub amounts: Vec<Double>,
    /// Year fractions measured from the first payment in input order.
    pub deltas: Vec<Double>,
    /// The same flow, netted by year fraction. The spreadsheet's search does
    /// not use it: the order of summation is part of its result.
    pub netted: NettedFlow,
}

impl View for CashFlow {
    type V = Flow;

    open spec fn view(&self) -> Flow {
        Flow { amounts: self.amounts@, deltas: self.deltas@ }
    }
}

impl CashFlow {
    /// The netted form is that of the amounts and year fractions.
    pub open spec fn wf(&self) -> bool {
        &&& self.netted.terms@ == self@.terms()
        &&& self.netted.poisoned == self@.poisoned()
    }

    /// A cash flow of valid payments.
    pub fn new<H>(
        host: &H,
        dates: &[DateLike],
        amounts: &[Double],
        day_count: Option<DayCount>,
    ) -> (r: Result<CashFlow, InvalidPaymentsError>)
        where H: Fn(Call) -> Double
        requires
            host::total(*host),
        ensures
            match r {
                Ok(flow) => {
                    &&& flow::payment_error(dates@, amounts@) is None
                    &&& flow.wf()
                    &&& forall|m: spec_fn(Call) -> Double| #[trigger]
                        host::follows(*host, m) ==> flow@ == flow::flow_of(m, dates@, amounts@, day_count)
                },
                Err(e) => flow::payment_error(dates@, amounts@) == Some(e),
            },
    {
        match payments::validate(amounts, dates) {
            Ok(_) => {},
            Err(e) => {
                return Err(e);
            },
        }
        match payments::reject_dates_before_the_first(dates) {
            Ok(_) => {},
            Err(e) => {
                return Err(e);
            },
        }
        Ok(CashFlow::unvalidated(host, amounts, dates, day_count))
    }

    /// A cash flow of any payments, for evaluation alone.
    pub fn unvalidated<H>(
        host: &H,
        amounts: &[Double],
        dates: &[DateLike],
        day_count: Option<DayCount>,
    ) -> (flow: CashFlow)
        where H: Fn(Call) -> Double
        requires
            host::total(*host),
        ensures
            flow.wf(),
            forall|m: spec_fn(Call) -> Double| #[trigger]
                host::follows(*host, m) ==> flow@ == flow::flow_of(m, dates@, amounts@, day_count),
    {
        let deltas = payments::year_fractions(host, dates, day_count);
        let netted = NettedFlow::new(&deltas, amounts);
        let amounts = copied(amounts);
        CashFlow { amounts, deltas, netted }
    }

    fn paired_count(&self) -> (n: usize)
        ensures
            n == netted::paired(self.deltas@, self.amounts@),
    {
        if self.deltas.len() <= self.amounts.len() {
            self.deltas.len()
        } else {
            self.amounts.len()
        }
    }

    /// The net present value at `rate`; infinite at `-1` and below.
    pub fn xnpv<H>(&self, host: &H, rate: Double) -> (r: Double)
        where H: Fn(Call) -> Double
        requires
            host::total(*host),
        ensures
            forall|m: spec_fn(Call) -> Double| #[trigger]
                host::follows(*host, m) ==> r == self@.npv(m, rate).0,
    {
        if rate.is_le(Double::from_bits(MINUS_ONE)) {
            return Double::from_bits(INF_BITS);
        }
        let base = Double::from_bits(ONE).plus(rate);
        let n: usize = self.paired_count();
        let mut sum = Double::from_bits(0);
        let mut i: usize = 0;
        while i < n
            invariant
                host::total(*host),
                i <= n,
                n == netted::paired(self.deltas@, self.amounts@),
                forall|m: spec_fn(Call) -> Double| #[trigger]
                    host::follows(*host, m) ==> sum == flow::discounted(
                        m,
                        self.amounts@,
                        self.deltas@,
                        base,
                        i as int,
                    ),
            decreases n - i,
        {
            sum = sum.plus(self.amounts[i].times(host(Call::Powf(base, self.deltas[i].neg()))));
            i = i + 1;
        }
        sum
    }

    /// The net present value and its derivative, sharing one power per payment.
    pub fn xnpv_with_deriv<H>(&self, host: &H, rate: Double) -> (r: (Double, Double))
        where H: Fn(Call) -> Double
        requires
            host::total(*host),
        ensures
            forall|m: spec_fn(Call) -> Double| #[trigger]
                host::follows(*host, m) ==> r == self@.npv(m, rate),
    {
        if rate.is_le(Double::from_bits(MINUS_ONE)) {
            return (Double::from_bits(INF_BITS), Double::from_bits(INF_BITS));
        }
        let base = Double::from_bits(ONE).plus(rate);
        let n: usize = self.paired_count();
        let mut value = Double::from_bits(0);
        let mut deriv = Double::from_bits(0);
        let mut i: usize = 0;
        while i < n
            invariant
                host::total(*host),
                i <= n,
                n == netted::paired(self.deltas@, self.amounts@),
                forall|m: spec_fn(Call) -> Double| #[trigger]
                    host::follows(*host, m) ==> value == flow::discounted(
                        m,
                        self.amounts@,
                        self.deltas@,
                        base,
                        i as int,
                    ) && deriv == flow::discounted_deriv(
                        m,
                        self.amounts@,
                        self.deltas@,
                        base,
                        i as int,
                    ),
            decreases n - i,
        {
            let exponent = self.deltas[i].neg();
            let term = self.amounts[i].times(host(Call::Powf(base, exponent)));
            value = value.plus(term);
            deriv = deriv.plus(term.times(exponent).over(base));
            i = i + 1;
        }
        (value, deriv)
    }

    /// Whether `rate` is a true root: the terms cancel there, down to a small
    /// part of their size.
    pub fn is_root<H>(&self, host: &H, rate: Double) -> (r: bool)
        where H: Fn(Call) -> Double
        requires
            host::total(*host),
            self.wf(),
        ensures
            forall|m: spec_fn(Call) -> Double| #[trigger]
                host::follows(*host, m) ==> r == self@.is_root(m, rate),
            r ==> rate.finite() && !rate.le(Double::from_bits(MINUS_ONE)),
    {
        if !rate.is_finite() || rate.is_le(Double::from_bits(MINUS_ONE)) {
            return false;
        }
        if self.netted.poisoned {
            return false;
        }
        let u = log_rate::to_log_rate(host, rate);
        let value = self.netted.scaled_g(host, u).0;
        let size = self.netted.scaled_gross(host, u);
        value.is_finite() && size.is_positive() && value.abs().is_le(
            Double::from_bits(flow::RESIDUAL_REL_TOL).times(size),
        )
    }

    /// `rate` where it is a root, NaN where it is not.
    pub fn verified_or_nan<H>(&self, host: &H, rate: Double) -> (r: Double)
        where H: Fn(Call) -> Double
        requires
            host::total(*host),
            self.wf(),
        ensures
            forall|m: spec_fn(Call) -> Double| #[trigger]
                host::follows(*host, m) ==> r == self@.verified(m, rate),
    {
        if self.is_root(host, rate) {
            rate
        } else {
            Double::from_bits(NAN_BITS)
        }
    }

    /// The rate a spreadsheet shows; NaN where it shows an error.
    pub fn solve_like_a_spreadsheet<H>(&self, host: &H, guess: Double) -> (rate: Double)
        where H: Fn(Call) -> Double
        requires
            host::total(*host),
        ensures
            forall|m: spec_fn(Call) -> Double| #[trigger]
                host::follows(*host, m) ==> rate == self@.spreadsheet_rate(m, guess),
            rate.finite() || rate == Double::from_bits(NAN_BITS),
    {
        let fd = |rate: Double| -> (r: (Double, Double))
            ensures
                forall|m: spec_fn(Call) -> Double| #[trigger]
                    host::follows(*host, m) ==> r == self@.npv(m, rate),
            { self.xnpv_with_deriv(host, rate) };
        let rate = newton::newton_excel_order(guess, &fd);
        proof {
            assert forall|m: spec_fn(Call) -> Double| #[trigger]
                host::follows(*host, m) implies rate == self@.spreadsheet_rate(m, guess) by {
                assert(host::follows(fd, self@.npv_fn(m)));
            }
        }
        rate
    }

    /// Newton's method in log-rate space from `u`, taken back to a rate.
    pub fn newton_from<H>(&self, host: &H, u: Double) -> (rate: Double)
        where H: Fn(Call) -> Double
        requires
            host::total(*host),
            self.wf(),
        ensures
            forall|m: spec_fn(Call) -> Double| #[trigger]
                host::follows(*host, m) ==> rate == self@.newton_rate(m, u),
    {
        let fd = |u: Double| -> (r: (Double, Double))
            ensures
                forall|m: spec_fn(Call) -> Double| #[trigger]
                    host::follows(*host, m) ==> r == self@.g(m, u),
            { self.netted.scaled_g(host, u) };
        let end = newton::newton_to_residual(u, &fd, Double::from_bits(0));
        let rate = log_rate::from_log_rate(host, end);
        proof {
            assert forall|m: spec_fn(Call) -> Double| #[trigger]
                host::follows(*host, m) implies rate == self@.newton_rate(m, u) by {
                assert(host::follows(fd, self@.g_fn(m)));
            }
        }
        rate
    }

    /// The turning points of the objective that the grid brackets.
    pub fn turning_points<H>(&self, host: &H, grid: &[Double]) -> (extrema: Vec<Double>)
        where H: Fn(Call) -> Double
        requires
            host::total(*host),
            self.wf(),
        ensures
            forall|m: spec_fn(Call) -> Double| #[trigger]
                host::follows(*host, m) ==> extrema@ == search::crossing_roots(
                    self@.deriv_fn(m),
                    grid@,
                    usize::MAX as nat,
                ),
    {
        let dg = |u: Double| -> (r: Double)
            ensures
                forall|m: spec_fn(Call) -> Double| #[trigger]
                    host::follows(*host, m) ==> r == self@.g(m, u).1,
            { self.netted.scaled_g(host, u).1 };
        let extrema = search::find_crossing_roots(&dg, grid, usize::MAX);
        proof {
            assert forall|m: spec_fn(Call) -> Double| #[trigger]
                host::follows(*host, m) implies extrema@ == search::crossing_roots(
                self@.deriv_fn(m),
                grid@,
                usize::MAX as nat,
            ) by {
                assert(host::follows(dg, self@.deriv_fn(m)));
            }
        }
        extrema
    }

    /// The log-rates at which there may be a root.
    fn find_candidates<H>(&self, host: &H) -> (us: Vec<Double>)
        where H: Fn(Call) -> Double
        requires
            host::total(*host),
            self.wf(),
        ensures
            forall|m: spec_fn(Call) -> Double| #[trigger]
                host::follows(*host, m) ==> us@ == self@.candidates(m),
    {
        let g = |u: Double| -> (r: Double)
            ensures
                forall|m: spec_fn(Call) -> Double| #[trigger]
                    host::follows(*host, m) ==> r == self@.g(m, u).0,
            { self.netted.scaled_g(host, u).0 };
        let changes: usize = self.netted.sign_changes();
        let bound: usize = if changes > 1 { changes } else { 1 };
        let mut nodes = log_rate::log_rate_grid();
        let extrema = self.turning_points(host, &nodes);
        let ghost plain = nodes@;
        let mut i: usize = 0;
        assert(plain + extrema@.take(0) =~= plain);
        while i < extrema.len()
            invariant
                i <= extrema.len(),
                nodes@ == plain + extrema@.take(i as int),
            decreases extrema.len() - i,
        {
            assert(extrema@.take(i + 1) =~= extrema@.take(i as int).push(extrema@[i as int]));
            nodes.push(extrema[i]);
            i = i + 1;
        }
        assert(extrema@.take(extrema.len() as int) =~= extrema@);
        let grid = sorting::dedup(&sorting::sort(&nodes));
        let mut us = search::find_crossing_roots(&g, &grid, bound);
        proof {
            assert forall|m: spec_fn(Call) -> Double| #[trigger]
                host::follows(*host, m) implies us@ == self@.crossed(m) && extrema@
                == self@.extrema(m) by {
                assert(host::follows(g, self@.value_fn(m)));
            }
        }
        let found = us.clone();
        let ghost crossed = us@;
        assert(found@ =~= crossed);
        let mut i: usize = 0;
        assert(crossed + search::lone(extrema@, crossed, 0) =~= crossed);
        while i < extrema.len()
            invariant
                i <= extrema.len(),
                found@ == crossed,
                us@ == crossed + search::lone(extrema@, crossed, i as int),
            decreases extrema.len() - i,
        {
            if !search::is_straddled(&found, extrema[i]) {
                us.push(extrema[i]);
                assert(us@ =~= crossed + search::lone(extrema@, crossed, i + 1));
            }
            i = i + 1;
        }
        sorting::dedup_within(&sorting::sort(&us), Double::from_bits(flow::DISTINCT_ROOT_U_TOL))
    }

    /// Every root in the searched domain, ascending and apart.
    pub fn roots<H>(&self, host: &H) -> (roots: Vec<Double>)
        where H: Fn(Call) -> Double
        requires
            host::total(*host),
            self.wf(),
        ensures
            forall|m: spec_fn(Call) -> Double| #[trigger]
                host::follows(*host, m) ==> roots@ == self@.roots(m),
            netted::all_finite(roots@),
    {
        match self.netted.shape() {
            Shape::NoRootExists => {
                return Vec::new();
            },
            _ => {},
        }
        let us = self.find_candidates(host);
        let mut rates: Vec<Double> = Vec::new();
        let mut i: usize = 0;
        while i < us.len()
            invariant
                host::total(*host),
                self.wf(),
                i <= us.len(),
                netted::all_finite(rates@),
                forall|m: spec_fn(Call) -> Double| #[trigger]
                    host::follows(*host, m) ==> rates@ == self@.roots_among(m, us@, i as int),
            decreases us.len() - i,
        {
            let rate = log_rate::from_log_rate(host, us[i]);
            if self.is_root(host, rate) {
                rates.push(rate);
            }
            i = i + 1;
        }
        let sorted = sorting::sort(&rates);
        let roots = sorting::dedup_within(&sorted, Double::from_bits(flow::DISTINCT_ROOT_TOL));
        proof {
            sorting::lemma_sorted(rates@);
            sorting::lemma_thinned(
                sorted@,
                sorting::within(Double::from_bits(flow::DISTINCT_ROOT_TOL)),
            );
            assert forall|i: int| 0 <= i < roots@.len() implies (#[trigger] roots@[i]).finite() by {
                assert(roots@.contains(roots@[i]));
                assert(sorted@.contains(roots@[i]));
                sorting::lemma_sorted_contains(rates@, roots@[i]);
            }
        }
        roots
    }

    /// The robust search, for flows that a spreadsheet gives up on. The guess is
    /// only a hint here.
    pub fn solve_robustly<H>(&self, host: &H, guess: Double) -> (rate: Double)
        where H: Fn(Call) -> Double
        requires
            host::total(*host),
            self.wf(),
            guess.finite(),
        ensures
            forall|m: spec_fn(Call) -> Double| #[trigger]
                host::follows(*host, m) ==> rate == self@.robust_rate(m, guess),
    {
        match self.netted.shape() {
            Shape::NoRootExists => {
                return Double::from_bits(NAN_BITS);
            },
            _ => {},
        }
        let roots = self.roots(host);
        match search::closest_to(&roots, guess) {
            Some(root) => {
                return root;
            },
            None => {},
        }
        let seeds = find_fallback_seeds(host, guess);
        let mut i: usize = 0;
        while i < seeds.len()
            invariant
                host::total(*host),
                self.wf(),
                i <= seeds.len(),
                forall|m: spec_fn(Call) -> Double| #[trigger]
                    host::follows(*host, m) ==> seeds@ == flow::fallback_seeds(m, guess)
                        && self@.robust_rate(m, guess) == self@.first_root_from(
                        m,
                        seeds@,
                        i as int,
                    ),
            decreases seeds.len() - i,
        {
            if seeds[i].is_finite() {
                let rate = self.newton_from(host, seeds[i]);
                if self.is_root(host, rate) {
                    return rate;
                }
            }
            i = i + 1;
        }
        Double::from_bits(NAN_BITS)
    }

    /// The rate that the policy selects; NaN where there is none.
    pub fn solve<H>(&self, host: &H, guess: Double, policy: RootPolicy) -> (rate: Double)
        where H: Fn(Call) -> Double
        requires
            host::total(*host),
            self.wf(),
            guess.finite(),
        ensures
            forall|m: spec_fn(Call) -> Double| #[trigger]
                host::follows(*host, m) ==> rate == self@.rate(m, guess, policy),
    {
        let spreadsheet_rate = self.solve_like_a_spreadsheet(host, guess);
        match policy {
            RootPolicy::SpreadsheetCompat => spreadsheet_rate,
            RootPolicy::SpreadsheetThenRobust => {
                if spreadsheet_rate.is_finite() {
                    spreadsheet_rate
                } else {
                    self.solve_robustly(host, guess)
                }
            },
            RootPolicy::Lowest => {
                let roots = self.roots(host);
                if roots.len() > 0 {
                    roots[0]
                } else {
                    self.verified_or_nan(host, spreadsheet_rate)
                }
            },
            RootPolicy::ClosestToGuess => {
                let roots = self.roots(host);
                match search::closest_to(&roots, guess) {
                    Some(root) => root,
                    None => self.verified_or_nan(host, spreadsheet_rate),
                }
            },
        }
    }
}

fn copied(s: &[Double]) -> (v: Vec<Double>)
    ensures
        v@ == s@,
{
    let mut v: Vec<Double> = Vec::with_capacity(s.len());
    let mut i: usize = 0;
    while i < s.len()
        invariant
            i <= s.len(),
            v@ == s@.take(i as int),
        decreases s.len() - i,
    {
        v.push(s[i]);
        i = i + 1;
    }
    v
}

fn find_fallback_seeds<H>(host: &H, guess: Double) -> (seeds: Vec<Double>)
    where H: Fn(Call) -> Double
    requires
        host::total(*host),
    ensures
        forall|m: spec_fn(Call) -> Double| #[trigger]
            host::follows(*host, m) ==> seeds@ == flow::fallback_seeds(m, guess),
{
    vec![
        log_rate::to_log_rate(host, guess),
        log_rate::to_log_rate(host, Double::from_bits(0x0)),
        log_rate::to_log_rate(host, Double::from_bits(0xbfe0_0000_0000_0000)),
        log_rate::to_log_rate(host, Double::from_bits(0xbfec_cccc_cccc_cccd)),
        log_rate::to_log_rate(host, Double::from_bits(0x3fe0_0000_0000_0000)),
        log_rate::to_log_rate(host, Double::from_bits(0x4000_0000_0000_0000)),
        log_rate::to_log_rate(host, Double::from_bits(0x4024_0000_0000_0000)),
        Double::from_bits(0xc034_0000_0000_0000),
        Double::from_bits(0xc014_0000_0000_0000),
        Double::from_bits(0x4014_0000_0000_0000),
        Double::from_bits(0x4034_0000_0000_0000),
        Double::from_bits(0x404e_0000_0000_0000),
        Double::from_bits(0x4062_c000_0000_0000),
        Double::from_bits(0x4075_e000_0000_0000),
        Double::from_bits(0x4084_5000_0000_0000),
    ]
}

} // verus!
