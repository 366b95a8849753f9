//! The robust solver: existence, reach, typed outcomes.

use xirr::double::Double;
use xirr::host::{Call, DayCount};
use xirr::payments::{DateLike, InvalidPaymentsError};
use xirr::flow::RootPolicy;
use xirr::xirr::XirrOutcome;

fn d(x: f64) -> Double {
    Double { bits: x.to_bits() }
}

fn f(x: Double) -> f64 {
    f64::from_bits(x.bits)
}

fn ds(v: &[f64]) -> Vec<Double> {
    v.iter().map(|x| d(*x)).collect()
}

/// The elementary functions of this machine, and the year fractions of the
/// conventions that the tests use.
fn host(call: Call) -> Double {
    d(match call {
        Call::Exp(x) => f(x).exp(),
        Call::Ln1p(x) => f(x).ln_1p(),
        Call::ExpM1(x) => f(x).exp_m1(),
        Call::Powf(x, y) => f(x).powf(f(y)),
        Call::YearFraction(convention, a, b) => year_fraction(convention, a, b),
    })
}

fn calendar(day: i32) -> (i32, i32, i32) {
    let date = time::Date::from_julian_day(day).unwrap();
    (date.year(), u8::from(date.month()) as i32, date.day() as i32)
}

fn year_fraction(convention: DayCount, a: i32, b: i32) -> f64 {
    let days = (b - a) as f64;
    let (y1, m1, d1) = calendar(a);
    let (y2, m2, d2) = calendar(b);
    match convention {
        DayCount::THIRTY_E_360 => {
            let whole = 360 * (y2 - y1) + 30 * (m2 - m1) + (d2.min(30) - d1.min(30));
            whole as f64 / 360.0
        }
        DayCount::NL_365 => {
            let leaps = (a + 1..=b)
                .filter(|day| {
                    let (_, m, d) = calendar(*day);
                    m == 2 && d == 29
                })
                .count();
            (days - leaps as f64) / 365.0
        }
        DayCount::ACT_ACT_ISDA => (a..b)
            .map(|day| 1.0 / time::util::days_in_year(calendar(day).0) as f64)
            .sum(),
        other => panic!("no test uses {other:?}"),
    }
}

fn date(iso: &str) -> DateLike {
    let parts: Vec<i32> = iso.split('-').map(|p| p.parse().unwrap()).collect();
    let month = time::Month::try_from(parts[1] as u8).unwrap();
    let date = time::Date::from_calendar_date(parts[0], month, parts[2] as u8).unwrap();
    DateLike { day: date.to_julian_day() }
}

fn xirr(
    dates: &[DateLike],
    amounts: &[f64],
    guess: Option<f64>,
    day_count: Option<DayCount>,
    policy: Option<RootPolicy>,
) -> Result<f64, InvalidPaymentsError> {
    xirr::xirr::xirr(&host, dates, &ds(amounts), guess.map(d), day_count, policy).map(f)
}

fn xirr_outcome(
    dates: &[DateLike],
    amounts: &[f64],
    guess: Option<f64>,
    day_count: Option<DayCount>,
    policy: Option<RootPolicy>,
) -> Result<XirrOutcome, InvalidPaymentsError> {
    xirr::xirr::xirr_outcome(&host, dates, &ds(amounts), guess.map(d), day_count, policy)
}

fn xirr_all_roots(
    dates: &[DateLike],
    amounts: &[f64],
    day_count: Option<DayCount>,
) -> Result<Vec<f64>, InvalidPaymentsError> {
    xirr::xirr::xirr_all_roots(&host, dates, &ds(amounts), day_count)
        .map(|roots| roots.into_iter().map(f).collect())
}

fn xnpv(
    rate: f64,
    dates: &[DateLike],
    amounts: &[f64],
    day_count: Option<DayCount>,
) -> Result<f64, InvalidPaymentsError> {
    xirr::xirr::xnpv(&host, d(rate), dates, &ds(amounts), day_count).map(f)
}

fn sign_changes(
    dates: &[DateLike],
    amounts: &[f64],
    day_count: Option<DayCount>,
) -> Result<usize, InvalidPaymentsError> {
    xirr::xirr::sign_changes(&host, dates, &ds(amounts), day_count)
}

const MIN_SEARCHED_LOG_RATE: f64 = f64::from_bits(xirr::log_rate::MIN_SEARCHED_LOG_RATE);
const MAX_SEARCHED_LOG_RATE: f64 = f64::from_bits(xirr::log_rate::MAX_SEARCHED_LOG_RATE);
const DISTINCT_ROOT_TOL: f64 = f64::from_bits(xirr::flow::DISTINCT_ROOT_TOL);

/// Two payments on one day that net to `20000 - outflow`, eleven monthly
/// inflows after them, and a zero at the end.
fn series(outflow: f64) -> (Vec<DateLike>, Vec<f64>) {
    let mut dates = vec![
        date("2023-01-01"),
        date("2023-01-01"),
    ];
    let mut amounts = vec![-outflow, 20_000.0];
    for month in 2..=12 {
        dates.push(date(&format!("2023-{month:02}-01")));
        amounts.push(20_000.0);
    }
    dates.push(date("2023-12-31"));
    amounts.push(0.0);
    (dates, amounts)
}

/// The double after `20000`: the smallest outflow that leaves a root.
const SMALLEST_SOLVABLE_OUTFLOW: f64 = 20_000.000_000_000_004;

/// Outflows with their roots, computed to 80 digits elsewhere.
const SOLVABLE: [(f64, f64); 10] = [
    (SMALLEST_SOLVABLE_OUTFLOW, 2.127_188_975_089_368_8e185),
    (20_001.0, 4.383_552_505_094_086e50),
    (20_382.0, 2.398_246_125_029_901_3e20),
    (20_383.0, 2.327_295_108_821_615_2e20),
    (20_500.0, 1.099_593_027_181_703_6e19),
    (21_000.0, 4_428_343_029_082_674.5),
    (25_000.0, 232_604_535.368_946_94),
    (30_000.0, 560_622.093_926_819_3),
    (40_000.0, 4_378.314_245_452_634),
    (100_000.0, 10.344_994_309_393_813),
];

fn relative_error(got: f64, want: f64) -> f64 {
    ((got - want) / want).abs()
}

/// The residual allowed for a rate that is not negative.
fn strict_residual_budget(amounts: &[f64]) -> f64 {
    1e-9 * amounts.iter().map(|a| a.abs()).sum::<f64>().max(1.0)
}

/// The residual allowed for any rate: discounting enlarges the terms below zero.
fn residual_budget(rate: f64, dates: &[DateLike], amounts: &[f64]) -> f64 {
    let absolute: Vec<f64> = amounts.iter().map(|a| a.abs()).collect();
    let discounted = xnpv(rate, dates, &absolute, None).unwrap();
    strict_residual_budget(amounts).max(1e-9 * discounted)
}

#[test]
fn an_outflow_smaller_than_the_day_zero_inflow_has_no_root() {
    let (dates, amounts) = series(11_000.0);
    assert_eq!(sign_changes(&dates, &amounts, None).unwrap(), 0);

    assert_eq!(
        xirr_outcome(&dates, &amounts, None, None, None).unwrap(),
        XirrOutcome::NoRootExists
    );
    assert!(xirr_all_roots(&dates, &amounts, None).unwrap().is_empty());

    for u in [-30.0f64, -5.0, 0.0, 5.0, 50.0, 400.0, 700.0] {
        let rate = u.exp_m1();
        assert!(
            xnpv(rate, &dates, &amounts, None).unwrap() >= 9_000.0,
            "u={u} gave a residual below the netted day-zero position"
        );
    }
}

#[test]
fn a_netted_day_zero_of_exactly_zero_has_no_root_and_no_underflow_artifact() {
    let (dates, amounts) = series(20_000.0);
    assert_eq!(sign_changes(&dates, &amounts, None).unwrap(), 0);

    assert_eq!(
        xirr_outcome(&dates, &amounts, None, None, None).unwrap(),
        XirrOutcome::NoRootExists
    );
    assert!(xirr_all_roots(&dates, &amounts, None).unwrap().is_empty());

    for policy in [
        RootPolicy::SpreadsheetCompat,
        RootPolicy::SpreadsheetThenRobust,
        RootPolicy::Lowest,
        RootPolicy::ClosestToGuess,
    ] {
        let rate = xirr(&dates, &amounts, None, None, Some(policy)).unwrap();
        assert!(rate.is_nan(), "{policy:?} invented a rate: {rate}");
    }

    for u in [100.0f64, 400.0, MAX_SEARCHED_LOG_RATE] {
        let residual = xnpv(u.exp_m1(), &dates, &amounts, None).unwrap();
        assert!(residual > 0.0, "u={u} residual {residual} reached zero");
    }
}

#[test]
fn the_boundary_outflow_is_the_one_this_test_thinks_it_is() {
    assert_eq!(SMALLEST_SOLVABLE_OUTFLOW.to_bits(), 0x40d3_8800_0000_0001);
    assert!(SMALLEST_SOLVABLE_OUTFLOW > 20_000.0);
    assert_eq!(
        20_000.0f64.to_bits() + 1,
        SMALLEST_SOLVABLE_OUTFLOW.to_bits()
    );
}

#[test]
fn every_solvable_outflow_returns_its_root() {
    for (outflow, expected) in SOLVABLE {
        let (dates, amounts) = series(outflow);

        assert_eq!(
            sign_changes(&dates, &amounts, None).unwrap(),
            1,
            "outflow {outflow}: expected exactly one netted sign change"
        );

        let rate = xirr(&dates, &amounts, None, None, None).unwrap();
        assert!(
            relative_error(rate, expected) < 1e-9,
            "outflow {outflow}: got {rate:e}, want {expected:e} (rel {:e})",
            relative_error(rate, expected)
        );

        let outcome = xirr_outcome(&dates, &amounts, None, None, None).unwrap();
        assert_eq!(outcome, XirrOutcome::Root(d(rate)));
        assert_eq!(outcome.root_count(), 1);
        assert!(!outcome.is_ambiguous());

        let roots = xirr_all_roots(&dates, &amounts, None).unwrap();
        assert_eq!(roots.len(), 1, "outflow {outflow}: {roots:?}");
        assert!(
            relative_error(roots[0], expected) < 1e-9,
            "outflow {outflow}: enumeration gave {:e}, want {expected:e}",
            roots[0]
        );
    }
}

#[test]
fn xirr_and_xirr_all_roots_never_disagree() {
    for (outflow, _) in SOLVABLE {
        let (dates, amounts) = series(outflow);
        let rate = xirr(&dates, &amounts, None, None, None).unwrap();
        let roots = xirr_all_roots(&dates, &amounts, None).unwrap();
        assert!(
            roots.iter().any(|r| relative_error(*r, rate) < 1e-9),
            "outflow {outflow}: xirr returned {rate:e}, enumeration returned {roots:?}"
        );
    }
}

#[test]
fn every_returned_rate_passes_the_documented_audit_check() {
    for (outflow, _) in SOLVABLE {
        let (dates, amounts) = series(outflow);
        let rate = xirr(&dates, &amounts, None, None, None).unwrap();
        let residual = xnpv(rate, &dates, &amounts, None).unwrap().abs();
        let budget = strict_residual_budget(&amounts);
        assert!(
            residual <= budget,
            "outflow {outflow}: |XNPV({rate:e})| = {residual:e} exceeds {budget:e}"
        );
    }
}

#[test]
fn rescaling_by_a_power_of_two_is_exactly_invariant() {
    let (dates, amounts) = series(100_000.0);
    let reference = xirr(&dates, &amounts, None, None, None).unwrap();

    for exponent in [-10i32, -4, 0, 4, 10, 20] {
        let k = 2f64.powi(exponent);
        let scaled: Vec<f64> = amounts.iter().map(|a| a * k).collect();
        let rate = xirr(&dates, &scaled, None, None, None).unwrap();
        assert_eq!(
            rate.to_bits(),
            reference.to_bits(),
            "2^{exponent} gave {rate}, 2^0 gave {reference}"
        );
    }
}

#[test]
fn rescaling_by_a_decimal_factor_is_invariant_to_within_rounding() {
    let (dates, amounts) = series(100_000.0);
    let reference = xirr(&dates, &amounts, None, None, None).unwrap();

    for exponent in [-9i32, -6, -3, 0, 3, 6, 9, 12] {
        let k = 10f64.powi(exponent);
        let scaled: Vec<f64> = amounts.iter().map(|a| a * k).collect();
        let rate = xirr(&dates, &scaled, None, None, None).unwrap();
        assert!(
            relative_error(rate, reference) < 1e-12,
            "1e{exponent} gave {rate}, 1e0 gave {reference}"
        );
    }
}

#[test]
fn a_cancelling_flow_is_stable_to_its_own_conditioning_and_no_better() {
    let conditioning_limit: f64 = 1e-9;

    let (dates, amounts) = series(20_001.0);
    let reference = xirr(&dates, &amounts, None, None, None).unwrap();

    for exponent in [-6i32, -3, 0, 3, 9] {
        let k = 10f64.powi(exponent);
        let scaled: Vec<f64> = amounts.iter().map(|a| a * k).collect();
        let rate = xirr(&dates, &scaled, None, None, None).unwrap();
        assert!(
            relative_error(rate, reference) < conditioning_limit,
            "1e{exponent} gave {rate:e}, 1e0 gave {reference:e}"
        );
    }
}

/// How many doubles two platforms may be apart.
const PARITY_ULP_BUDGET: u64 = 16;

/// Maps a double to an integer that sorts the same way.
fn ordered(x: f64) -> i64 {
    let bits = x.to_bits() as i64;
    if bits < 0 {
        i64::MIN.wrapping_sub(bits)
    } else {
        bits
    }
}

/// The number of doubles between `a` and `b`.
fn ulp_distance(a: f64, b: f64) -> u64 {
    ordered(a).wrapping_sub(ordered(b)).unsigned_abs()
}

#[test]
fn the_ulp_helper_measures_the_observed_macos_divergence() {
    for (got, want, expected) in [
        (0x3fd3_23ef_f332_0b09u64, 0x3fd3_23ef_f332_0b0cu64, 3u64),
        (0x3f8a_7f34_7ed5_8212, 0x3f8a_7f34_7ed5_8217, 5),
        (0xbfd0_9f93_ac90_a61c, 0xbfd0_9f93_ac90_a61b, 1),
        (0xbfce_f0c6_3bdc_c526, 0xbfce_f0c6_3bdc_c524, 2),
    ] {
        let (got, want) = (f64::from_bits(got), f64::from_bits(want));
        assert_eq!(ulp_distance(got, want), expected, "{got:?} vs {want:?}");
        assert_eq!(ulp_distance(want, got), expected, "not symmetric");
        assert!(
            expected <= PARITY_ULP_BUDGET,
            "budget no longer covers macOS"
        );
    }

    assert_eq!(ulp_distance(0.0, -0.0), 0);
    assert_eq!(ulp_distance(0.299, 0.299), 0);
    let tiny = f64::from_bits(1);
    assert_eq!(ulp_distance(tiny, -tiny), 2);
}

#[test]
fn the_robust_path_stays_in_single_digit_milliseconds() {
    let (dates, amounts) = series(SMALLEST_SOLVABLE_OUTFLOW);

    for _ in 0..5 {
        assert!(xirr(&dates, &amounts, None, None, None)
            .unwrap()
            .is_finite());
    }

    let runs: u32 = 50;
    let started = std::time::Instant::now();
    for _ in 0..runs {
        std::hint::black_box(xirr(&dates, &amounts, None, None, None).unwrap());
    }
    let per_call = started.elapsed().as_secs_f64() * 1e3 / f64::from(runs);

    let budget = 80.0;
    println!("robust path: {per_call:.3} ms/call (budget {budget} ms)");
    assert!(
        per_call < budget,
        "robust path took {per_call:.3} ms/call, budget {budget} ms"
    );
}

#[test]
fn the_spreadsheet_path_is_not_slowed_down_by_the_existence_test() {
    let dates: Vec<DateLike> = (0..240)
        .map(|i| date(&format!("{}-{:02}-01", 2000 + i / 12, i % 12 + 1)))
        .collect();
    let mut amounts = vec![50.0; 240];
    amounts[0] = -8_000.0;

    for _ in 0..5 {
        assert!(xirr(&dates, &amounts, None, None, None)
            .unwrap()
            .is_finite());
    }
    let runs: u32 = 100;
    let started = std::time::Instant::now();
    for _ in 0..runs {
        std::hint::black_box(xirr(&dates, &amounts, None, None, None).unwrap());
    }
    let per_call = started.elapsed().as_secs_f64() * 1e3 / f64::from(runs);

    let budget = 40.0;
    println!("spreadsheet path: {per_call:.3} ms/call (budget {budget} ms)");
    assert!(per_call < budget, "{per_call:.3} ms/call");
}

/// A generator of numbers, the same on every run.
struct Rng(u64);

impl Rng {
    fn next_u64(&mut self) -> u64 {
        self.0 = self.0.wrapping_add(0x9E37_79B9_7F4A_7C15);
        let mut z = self.0;
        z = (z ^ (z >> 30)).wrapping_mul(0xBF58_476D_1CE4_E5B9);
        z = (z ^ (z >> 27)).wrapping_mul(0x94D0_49BB_1331_11EB);
        z ^ (z >> 31)
    }

    fn uniform(&mut self, lo: f64, hi: f64) -> f64 {
        let unit = (self.next_u64() >> 11) as f64 / (1u64 << 53) as f64;
        lo + unit * (hi - lo)
    }

    fn below(&mut self, n: usize) -> usize {
        (self.next_u64() % n as u64) as usize
    }
}

#[test]
fn a_single_sign_change_always_yields_a_root() {
    let mut rng = Rng(0x5EED_1234_ABCD_0001);
    let mut checked = 0usize;

    for trial in 0..2_000 {
        let payments = 2 + rng.below(14);
        let outflows = 1 + rng.below(payments - 1);
        let magnitude = 10f64.powf(rng.uniform(-4.0, 5.0));

        let mut day = 0i64;
        let mut dates = vec![date("2000-01-01")];
        for _ in 1..payments {
            day += 1 + rng.below(1_500) as i64;
            dates.push(DateLike { day: date("2000-01-01").day + day as i32 });
        }

        let amounts: Vec<f64> = (0..payments)
            .map(|i| {
                let size = magnitude * rng.uniform(0.1, 10.0);
                if i < outflows {
                    -size
                } else {
                    size
                }
            })
            .collect();

        if sign_changes(&dates, &amounts, None).unwrap() != 1 {
            continue;
        }
        let outside_domain = [MIN_SEARCHED_LOG_RATE, MAX_SEARCHED_LOG_RATE]
            .map(|u| xnpv(u.exp_m1(), &dates, &amounts, None).unwrap());
        if !outside_domain.iter().all(|v| v.is_finite()) || outside_domain[0] * outside_domain[1] > 0.0
        {
            continue;
        }

        checked += 1;
        let outcome = xirr_outcome(&dates, &amounts, None, None, None).unwrap();
        let rate = outcome.rate().map(f).unwrap_or_else(|| {
            panic!("trial {trial}: {outcome:?}\n  dates {dates:?}\n  amounts {amounts:?}")
        });

        assert!(rate > -1.0, "trial {trial}: rate {rate} outside the domain");
        let residual = xnpv(rate, &dates, &amounts, None).unwrap().abs();
        let budget = residual_budget(rate, &dates, &amounts);
        assert!(
            residual <= budget,
            "trial {trial}: |XNPV({rate:e})| = {residual:e} exceeds {budget:e}\n  amounts {amounts:?}"
        );
        assert_eq!(outcome.root_count(), 1, "trial {trial}: {outcome:?}");
    }

    assert!(checked > 1_000, "only {checked} usable trials generated");
    println!("{checked} single-sign-change flows, all solved");
}

#[test]
fn the_four_non_answers_are_distinguishable() {
    let no_root = series(11_000.0);
    assert_eq!(
        xirr_outcome(&no_root.0, &no_root.1, None, None, None).unwrap(),
        XirrOutcome::NoRootExists
    );

    let dates: Vec<DateLike> = ["2020-01-01", "2021-01-01"]
        .iter()
        .map(|s| date(s))
        .collect();
    let amounts = [-1_000.0, 1.0];

    assert_eq!(
        xirr_outcome(
            &dates,
            &amounts,
            None,
            None,
            Some(RootPolicy::SpreadsheetCompat)
        )
        .unwrap(),
        XirrOutcome::SpreadsheetNumError,
        "a reproduced #NUM! must not be reported as a solver failure"
    );

    let robust = xirr_outcome(&dates, &amounts, None, None, None).unwrap();
    match robust {
        XirrOutcome::Root(r) => assert!((f(r) - -0.998_980_947_1).abs() < 1e-9, "got {r:?}"),
        other => panic!("expected a root, got {other:?}"),
    }

    let three: Vec<DateLike> = ["2015-01-01", "2016-01-01", "2017-01-01", "2018-01-01"]
        .iter()
        .map(|s| date(s))
        .collect();
    let outcome = xirr_outcome(&three, &[-1000., 3000., -2500., 600.], None, None, None).unwrap();
    assert!(outcome.is_ambiguous(), "{outcome:?}");
    assert_eq!(outcome.root_count(), 3);
    let XirrOutcome::MultipleRoots { selected, all } = &outcome else {
        unreachable!()
    };
    assert!(
        all
            .iter()
            .any(|r| (f(*r) - f(*selected)).abs() <= DISTINCT_ROOT_TOL),
        "pick {selected:?} matches none of {all:?}"
    );
    assert!(all.windows(2).all(|w| f(w[0]) < f(w[1])), "unsorted: {all:?}");
}

#[test]
fn the_outcome_rate_always_equals_the_plain_rate() {
    let mut checked = 0;
    for outflow in [11_000.0, 20_000.0, 20_001.0, 25_000.0, 100_000.0] {
        for policy in [
            RootPolicy::SpreadsheetCompat,
            RootPolicy::SpreadsheetThenRobust,
            RootPolicy::Lowest,
            RootPolicy::ClosestToGuess,
        ] {
            for guess in [None, Some(0.5), Some(-0.9)] {
                let (dates, amounts) = series(outflow);
                let plain = xirr(&dates, &amounts, guess, None, Some(policy)).unwrap();
                let typed = xirr_outcome(&dates, &amounts, guess, None, Some(policy)).unwrap();
                match typed.rate() {
                    Some(r) => assert_eq!(r.bits, plain.to_bits(), "{outflow} {policy:?}"),
                    None => assert!(plain.is_nan(), "{outflow} {policy:?}: {typed:?} vs {plain}"),
                }
                checked += 1;
            }
        }
    }
    assert_eq!(checked, 60);
}

#[test]
fn zero_amounts_and_duplicate_dates_are_invisible_to_the_result() {
    let plain: Vec<DateLike> = ["2020-01-01", "2021-06-15", "2023-03-01"]
        .iter()
        .map(|s| date(s))
        .collect();
    let reference = xirr(&plain, &[-1_000.0, 400.0, 900.0], None, None, None).unwrap();

    let padded: Vec<DateLike> = [
        "2020-01-01",
        "2020-01-01",
        "2020-09-09",
        "2021-06-15",
        "2022-02-02",
        "2023-03-01",
    ]
    .iter()
    .map(|s| date(s))
    .collect();
    let got = xirr(
        &padded,
        &[-1_400.0, 400.0, 0.0, 400.0, 0.0, 900.0],
        None,
        None,
        None,
    )
    .unwrap();

    assert!(
        (got - reference).abs() < 1e-12,
        "{got} vs {reference}: netting or zero handling changed the rate"
    );
}

#[test]
fn the_robust_path_is_convention_agnostic() {
    let (dates, amounts) = series(20_001.0);
    for convention in [
        DayCount::ACT_365F,
        DayCount::ACT_360,
        DayCount::ACT_ACT_ISDA,
        DayCount::THIRTY_E_360,
        DayCount::NL_365,
    ] {
        let rate = xirr(&dates, &amounts, None, None, None).unwrap();
        assert!(rate.is_finite());

        let rate = xirr(&dates, &amounts, None, Some(convention), None).unwrap();
        assert!(rate.is_finite(), "{convention:?} returned no rate");
        let residual = xnpv(rate, &dates, &amounts, Some(convention))
            .unwrap()
            .abs();
        assert!(
            residual <= residual_budget(rate, &dates, &amounts),
            "{convention:?}: residual {residual:e}"
        );
    }
}

#[test]
fn a_bad_guess_never_costs_an_answer_that_exists() {
    let (dates, amounts) = series(20_001.0);
    let reference = xirr(&dates, &amounts, None, None, None).unwrap();

    for guess in [-0.999_999, -0.9, -0.5, 0.0, 0.1, 1.0, 1e3, 1e12] {
        let rate = xirr(&dates, &amounts, Some(guess), None, None).unwrap();
        assert!(
            relative_error(rate, reference) < 1e-9,
            "guess {guess} gave {rate:e}, no-guess gave {reference:e}"
        );
        let residual = xnpv(rate, &dates, &amounts, None).unwrap().abs();
        assert!(
            residual <= residual_budget(rate, &dates, &amounts),
            "guess {guess}: {residual:e}"
        );
    }
}

#[test]
fn results_are_bit_identical_across_repeated_calls() {
    for outflow in [SMALLEST_SOLVABLE_OUTFLOW, 20_001.0, 25_000.0] {
        let (dates, amounts) = series(outflow);
        let first = xirr(&dates, &amounts, None, None, None).unwrap();
        let first_roots = xirr_all_roots(&dates, &amounts, None).unwrap();
        for _ in 0..25 {
            assert_eq!(
                xirr(&dates, &amounts, None, None, None).unwrap().to_bits(),
                first.to_bits()
            );
            assert_eq!(xirr_all_roots(&dates, &amounts, None).unwrap(), first_roots);
        }
    }
}

#[test]
fn nothing_on_the_solve_path_panics() {
    let d = |s: &str| date(s);
    let poison = [
        f64::NAN,
        f64::INFINITY,
        f64::NEG_INFINITY,
        0.0,
        f64::MIN_POSITIVE,
        f64::MAX,
    ];

    for bad in poison {
        let cases: Vec<(Vec<DateLike>, Vec<f64>)> = vec![
            (vec![d("2020-01-01"), d("2021-01-01")], vec![-1000.0, bad]),
            (vec![d("2020-01-01"), d("2021-01-01")], vec![bad, 1000.0]),
            (
                vec![d("2020-01-01"), d("2020-01-01"), d("2021-01-01")],
                vec![bad, -bad, 1000.0],
            ),
            (
                vec![d("2020-01-01"), d("2020-01-02")],
                vec![-f64::MAX, f64::MAX],
            ),
        ];
        for (dates, amounts) in cases {
            let _ = xirr(&dates, &amounts, None, None, None);
            let _ = xirr_outcome(&dates, &amounts, None, None, None);
            let _ = xirr_all_roots(&dates, &amounts, None);
            let _ = sign_changes(&dates, &amounts, None);
            let _ = xnpv(0.1, &dates, &amounts, None);
            for policy in [
                RootPolicy::SpreadsheetCompat,
                RootPolicy::Lowest,
                RootPolicy::ClosestToGuess,
            ] {
                let _ = xirr(&dates, &amounts, Some(0.25), None, Some(policy));
            }
        }
    }
}

#[test]
fn the_searched_domain_matches_the_representable_domain() {
    assert_eq!(
        MIN_SEARCHED_LOG_RATE,
        (2f64.powi(-53)).ln(),
        "lower bound is not ln(2^-53)"
    );
    assert_eq!(
        MAX_SEARCHED_LOG_RATE,
        f64::MAX.ln(),
        "upper bound is not ln(f64::MAX)"
    );

    assert!(MIN_SEARCHED_LOG_RATE.exp_m1() > -1.0);
    assert_eq!(
        (MIN_SEARCHED_LOG_RATE - 1e-9).exp_m1().to_bits(),
        MIN_SEARCHED_LOG_RATE.exp_m1().to_bits(),
        "rates below the bound are not representable, as documented"
    );
    assert!(MAX_SEARCHED_LOG_RATE.exp_m1().is_finite());
    assert!((MAX_SEARCHED_LOG_RATE + 1.0).exp_m1().is_infinite());
}

/// Payments after zero, one and two years whose roots are `u1` and `u2`.
fn flow_with_roots(u1: f64, u2: f64) -> (Vec<DateLike>, Vec<f64>, Vec<i64>) {
    let (x1, x2) = ((-u1).exp(), (-u2).exp());
    let amounts = vec![x1 * x2, -(x1 + x2), 1.0];
    let dates = vec![
        date("2015-01-01"),
        date("2016-01-01"),
        date("2016-12-31"),
    ];
    (dates, amounts, vec![0, 365, 730])
}

/// The objective from first principles.
fn reference_g(days: &[i64], amounts: &[f64], u: f64) -> f64 {
    let d_ref = if u >= 0.0 {
        days[0]
    } else {
        days[days.len() - 1]
    } as f64
        / 365.0;
    days
        .iter()
        .zip(amounts)
        .map(|(&d, &a)| a * (-u * (d as f64 / 365.0 - d_ref)).exp())
        .sum()
}

/// Every root between two log-rates, by brute force.
fn reference_roots(days: &[i64], amounts: &[f64], lo: f64, hi: f64) -> Vec<f64> {
    let step: f64 = 1e-3;
    let bisections: u32 = 200;

    let mut out = Vec::new();
    let steps = ((hi - lo) / step).ceil() as usize;
    let (mut prev_u, mut prev_v) = (lo, reference_g(days, amounts, lo));

    for i in 1..=steps {
        let u = lo + i as f64 * step;
        let v = reference_g(days, amounts, u);
        if prev_v != 0.0 && v != 0.0 && (prev_v > 0.0) != (v > 0.0) {
            let (mut a, mut b, mut fa) = (prev_u, u, prev_v);
            for _ in 0..bisections {
                let m = 0.5 * (a + b);
                let fm = reference_g(days, amounts, m);
                if (fa > 0.0) != (fm > 0.0) {
                    b = m;
                } else {
                    a = m;
                    fa = fm;
                }
            }
            out.push(0.5 * (a + b));
        }
        (prev_u, prev_v) = (u, v);
    }
    out
}

/// The root is among those reported.
fn found(reported: &[f64], expected: f64) -> bool {
    reported
        .iter()
        .any(|r| (r - expected).abs() <= 1e-6 * expected.abs().max(1.0))
}

#[test]
fn a_pair_of_roots_inside_one_grid_cell_is_still_found() {
    let mut rng = Rng(0xC0FF_EE00_1234_5678);
    let mut checked = 0usize;

    for trial in 0..400 {
        let u1 = rng.uniform(-6.0, 6.0);
        let gap = match trial % 3 {
            0 => rng.uniform(1e-3, 9e-3),
            1 => rng.uniform(9e-3, 3e-2),
            _ => rng.uniform(3e-2, 5e-1),
        };
        let (dates, amounts, days) = flow_with_roots(u1, u1 + gap);

        if sign_changes(&dates, &amounts, None).unwrap() != 2 {
            continue;
        }
        let expected = reference_roots(&days, &amounts, u1 - 1.0, u1 + gap + 1.0);
        if expected.len() != 2 {
            continue;
        }

        checked += 1;
        let reported = xirr_all_roots(&dates, &amounts, None).unwrap();

        for u in &expected {
            let rate = u.exp_m1();
            assert!(
                found(&reported, rate),
                "trial {trial}: gap {gap:.5} in u\n  \
                  expected a root at r = {rate:e} (u = {u:.6})\n  \
                  xirr_all_roots returned {reported:?}\n  \
                  amounts {amounts:?}"
            );
        }
    }

    assert!(checked > 100, "only {checked} flows exercised the property");
    println!("pairs inside one grid cell: {checked} flows checked");
}

#[test]
fn a_tangential_root_is_found_even_though_nothing_brackets_it() {
    for u0 in [
        0.0f64,
        0.005,
        -0.003,
        3.141_59,
        -4.567, 7.5,
    ] {
        let x0 = (-u0).exp();
        let amounts = vec![x0 * x0, -2.0 * x0, 1.0];
        let dates = vec![
            date("2015-01-01"),
            date("2016-01-01"),
            date("2016-12-31"),
        ];

        let rate = u0.exp_m1();
        let residual = xnpv(rate, &dates, &amounts, None).unwrap();
        let gross: f64 = amounts.iter().map(|a| a.abs()).sum();
        assert!(
            residual.abs() <= 1e-9 * gross.max(1.0),
            "u0 {u0}: the constructed root is not one - |XNPV| = {residual:e}"
        );

        let reported = xirr_all_roots(&dates, &amounts, None).unwrap();
        assert!(
            found(&reported, rate),
            "u0 {u0}: double root at r = {rate:e} not reported; got {reported:?}"
        );

        let outcome = xirr_outcome(&dates, &amounts, None, None, None).unwrap();
        assert!(
            outcome.rate().is_some(),
            "u0 {u0}: no rate at all, got {outcome:?}"
        );
    }
}

#[test]
fn xirr_and_the_enumeration_agree_on_even_sign_changes() {
    let mut rng = Rng(0x0DDB_A11_5EED_0002);
    let mut checked = 0usize;

    for _ in 0..300 {
        let u1 = rng.uniform(-6.0, 6.0);
        let (dates, amounts, _) = flow_with_roots(u1, u1 + rng.uniform(0.05, 0.5));
        if sign_changes(&dates, &amounts, None).unwrap() != 2 {
            continue;
        }

        let rate = xirr(&dates, &amounts, None, None, None).unwrap();
        if !rate.is_finite() {
            continue;
        }
        let roots = xirr_all_roots(&dates, &amounts, None).unwrap();
        checked += 1;

        let separation = |root: f64| (root.ln_1p() - rate.ln_1p()).abs();
        let closest = roots
            .iter()
            .map(|r| separation(*r))
            .fold(f64::INFINITY, f64::min);
        assert!(
            closest < 1e-6,
            "xirr returned {rate:e} (u = {:.9}), nearest enumerated root is \
              {closest:e} away in u\n  enumeration {roots:?}\n  amounts {amounts:?}",
            rate.ln_1p()
        );
    }

    assert!(checked > 100, "only {checked} flows exercised the property");
    println!("xirr/enumeration agreement on even sign changes: {checked} flows");
}

#[test]
fn three_roots_in_one_cell_still_yield_a_rate_even_though_enumeration_is_short() {
    let cubic = |us: [f64; 3]| {
        let [x1, x2, x3] = us.map(|u: f64| (-u).exp());
        let amounts = vec![
            -x1 * x2 * x3,
            x1 * x2 + x1 * x3 + x2 * x3,
            -(x1 + x2 + x3),
            1.0,
        ];
        let dates = vec![
            date("2015-01-01"),
            date("2016-01-01"),
            date("2016-12-31"),
            date("2017-12-31"),
        ];
        (dates, amounts)
    };

    let (dates, amounts) = cubic([1.00, 1.01, 1.02]);
    let roots = xirr_all_roots(&dates, &amounts, None).unwrap();
    assert_eq!(
        roots.len(),
        3,
        "three roots one cell apart should all be found, got {roots:?}"
    );

    let (dates, amounts) = cubic([1.000, 1.004, 1.008]);
    let rate = xirr(&dates, &amounts, None, None, None).unwrap();
    assert!(
        rate.is_finite(),
        "no rate at all for three tightly clustered roots"
    );
    let residual = xnpv(rate, &dates, &amounts, None).unwrap().abs();
    assert!(
        residual <= residual_budget(rate, &dates, &amounts),
        "returned {rate:e} with residual {residual:e}, which is not a root"
    );
}

#[test]
fn rescaling_does_not_move_the_rate_of_any_policy() {
    let dates = [date("2020-01-01"), date("2020-12-31")];
    for policy in [RootPolicy::SpreadsheetThenRobust, RootPolicy::Lowest, RootPolicy::ClosestToGuess] {
        let reference = xirr(&dates, &[-1000.0, 1.0], None, None, Some(policy)).unwrap();
        assert!((reference + 0.999).abs() < 1e-9, "{reference}");
        for exponent in [-30i32, -1, 1, 12, 50] {
            let k = 2f64.powi(exponent);
            let rate = xirr(&dates, &[-1000.0 * k, k], None, None, Some(policy)).unwrap();
            assert_eq!(rate.to_bits(), reference.to_bits(), "2^{exponent}");
        }
    }
}

#[test]
fn a_missing_rate_is_explained_under_every_fixed_year() {
    let dates = [date("2020-01-01"), date("2021-01-01")];
    for convention in [DayCount::ACT_365F, DayCount::ACT_364, DayCount::ACT_360] {
        let outcome = |dates: &[DateLike], amounts: &[f64], policy: RootPolicy| {
            xirr_outcome(dates, amounts, None, Some(convention), Some(policy)).unwrap()
        };
        let one_day = [dates[0], dates[0]];
        for policy in [RootPolicy::SpreadsheetCompat, RootPolicy::Lowest] {
            let rootless = outcome(&one_day, &[-11000.0, 20000.0], policy);
            assert!(matches!(rootless, XirrOutcome::NoRootExists));
        }
        let compat = outcome(&dates, &[-1000.0, 1.0], RootPolicy::SpreadsheetCompat);
        assert!(matches!(compat, XirrOutcome::SpreadsheetNumError));
    }
}
