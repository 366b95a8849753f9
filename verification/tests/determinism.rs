//! The answer does not depend on how often or in what order it is asked for.

use xirr::double::Double;
use xirr::host::{Call, DayCount};
use xirr::payments::{DateLike, InvalidPaymentsError};
use xirr::flow::RootPolicy;


fn d(x: f64) -> Double {
    Double { bits: x.to_bits() }
}

fn f(x: Double) -> f64 {
    f64::from_bits(x.bits)
}

fn ds(v: &[f64]) -> Vec<Double> {
    v.iter().map(|x| d(*x)).collect()
}

/// The elementary functions of this machine, and the year fractions of the
/// conventions that the tests use.
fn host(call: Call) -> Double {
    d(match call {
        Call::Exp(x) => f(x).exp(),
        Call::Ln1p(x) => f(x).ln_1p(),
        Call::ExpM1(x) => f(x).exp_m1(),
        Call::Powf(x, y) => f(x).powf(f(y)),
        Call::YearFraction(convention, a, b) => year_fraction(convention, a, b),
    })
}

fn calendar(day: i32) -> (i32, i32, i32) {
    let date = time::Date::from_julian_day(day).unwrap();
    (date.year(), u8::from(date.month()) as i32, date.day() as i32)
}

fn year_fraction(convention: DayCount, a: i32, b: i32) -> f64 {
    let days = (b - a) as f64;
    let (y1, m1, d1) = calendar(a);
    let (y2, m2, d2) = calendar(b);
    match convention {
        DayCount::THIRTY_E_360 => {
            let whole = 360 * (y2 - y1) + 30 * (m2 - m1) + (d2.min(30) - d1.min(30));
            whole as f64 / 360.0
        }
        DayCount::NL_365 => {
            let leaps = (a + 1..=b)
                .filter(|day| {
                    let (_, m, d) = calendar(*day);
                    m == 2 && d == 29
                })
                .count();
            (days - leaps as f64) / 365.0
        }
        DayCount::ACT_ACT_ISDA => (a..b)
            .map(|day| 1.0 / time::util::days_in_year(calendar(day).0) as f64)
            .sum(),
        other => panic!("no test uses {other:?}"),
    }
}

fn date(iso: &str) -> DateLike {
    let parts: Vec<i32> = iso.split('-').map(|p| p.parse().unwrap()).collect();
    let month = time::Month::try_from(parts[1] as u8).unwrap();
    let date = time::Date::from_calendar_date(parts[0], month, parts[2] as u8).unwrap();
    DateLike { day: date.to_julian_day() }
}

fn xirr(
    dates: &[DateLike],
    amounts: &[f64],
    guess: Option<f64>,
    day_count: Option<DayCount>,
    policy: Option<RootPolicy>,
) -> Result<f64, InvalidPaymentsError> {
    xirr::xirr::xirr(&host, dates, &ds(amounts), guess.map(d), day_count, policy).map(f)
}

fn xirr_all_roots(
    dates: &[DateLike],
    amounts: &[f64],
    day_count: Option<DayCount>,
) -> Result<Vec<f64>, InvalidPaymentsError> {
    xirr::xirr::xirr_all_roots(&host, dates, &ds(amounts), day_count)
        .map(|roots| roots.into_iter().map(f).collect())
}

fn xnpv(
    rate: f64,
    dates: &[DateLike],
    amounts: &[f64],
    day_count: Option<DayCount>,
) -> Result<f64, InvalidPaymentsError> {
    xirr::xirr::xnpv(&host, d(rate), dates, &ds(amounts), day_count).map(f)
}

/// How far a rate may move between two implementations of the elementary
/// functions.
const CROSS_PLATFORM_REL_TOL: f64 = 1e-11;

fn flow(rows: &[(&str, f64)]) -> (Vec<DateLike>, Vec<f64>) {
    (
        rows
            .iter()
            .map(|(d, _)| date(d))
            .collect(),
        rows.iter().map(|(_, a)| *a).collect(),
    )
}

/// One case per path of the solver, with rates computed elsewhere.
fn reference_cases() -> Vec<(&'static str, (Vec<DateLike>, Vec<f64>), f64)> {
    vec![
        (
            "conventional, spreadsheet path",
            flow(&[
                ("2020-01-01", -1000.),
                ("2021-01-01", 750.),
                ("2022-01-01", 500.),
            ]),
            0.175_009_264_615_451,
        ),
        (
            "multiple roots, spreadsheet path",
            flow(&[
                ("2015-01-01", -1000.),
                ("2016-01-01", 3000.),
                ("2017-01-01", -2500.),
                ("2018-01-01", 600.),
            ]),
            -0.571_885_951_525_731,
        ),
        (
            "near total loss, robust path",
            flow(&[("2020-01-01", -1000.), ("2021-01-01", 1.)]),
            -0.998_980_947_118_578_1,
        ),
        (
            "century horizon, spreadsheet path",
            flow(&[("1925-01-01", -1000.), ("2025-01-01", 1_000_000.)]),
            0.071_468_643_922_357,
        ),
        (
            "one day horizon",
            flow(&[("2020-01-01", -1000.), ("2020-01-02", 1001.)]),
            0.440_251_313_429_578_35,
        ),
    ]
}

/// A flow whose root lies far above any plausible rate.
fn extreme_series(outflow: f64) -> (Vec<DateLike>, Vec<f64>) {
    let mut dates = vec![date("2023-01-01"); 2];
    let mut amounts = vec![-outflow, 20_000.0];
    for month in 2..=12 {
        dates.push(date(&format!("2023-{month:02}-01")));
        amounts.push(20_000.0);
    }
    dates.push(date("2023-12-31"));
    amounts.push(0.0);
    (dates, amounts)
}

#[test]
fn reference_rates_hold_on_this_platform() {
    for (name, (dates, amounts), expected) in reference_cases() {
        let rate = xirr(&dates, &amounts, None, None, None).unwrap();
        let error = ((rate - expected) / expected).abs();
        println!("{name}: {rate:.17e} (rel {error:.2e})");
        assert!(
            error < CROSS_PLATFORM_REL_TOL,
            "{name}: got {rate:.17e}, want {expected:.17e}, rel {error:.2e}"
        );
    }
}

#[test]
fn extreme_rates_hold_on_this_platform() {
    for (outflow, expected) in [
        (20_000.000_000_000_004_f64, 2.127_188_975_089_368_8e185),
        (20_001.0, 4.383_552_505_094_086e50),
        (20_382.0, 2.398_246_125_029_901_3e20),
        (30_000.0, 560_622.093_926_819_3),
    ] {
        let (dates, amounts) = extreme_series(outflow);
        let rate = xirr(&dates, &amounts, None, None, None).unwrap();
        let error = ((rate - expected) / expected).abs();
        println!("outflow {outflow}: {rate:.17e} (rel {error:.2e})");
        assert!(
            error < CROSS_PLATFORM_REL_TOL,
            "outflow {outflow}: got {rate:.17e}, want {expected:.17e}, rel {error:.2e}"
        );
    }
}

#[test]
fn repeated_calls_are_bit_identical_on_one_platform() {
    let mut cases: Vec<(Vec<DateLike>, Vec<f64>)> =
        reference_cases().into_iter().map(|c| c.1).collect();
    cases.push(extreme_series(20_001.0));
    cases.push(extreme_series(11_000.0));

    for (dates, amounts) in cases {
        for policy in [
            RootPolicy::SpreadsheetCompat,
            RootPolicy::SpreadsheetThenRobust,
            RootPolicy::Lowest,
            RootPolicy::ClosestToGuess,
        ] {
            let first = xirr(&dates, &amounts, None, None, Some(policy)).unwrap();
            let first_roots = xirr_all_roots(&dates, &amounts, None).unwrap();
            for _ in 0..25 {
                let again = xirr(&dates, &amounts, None, None, Some(policy)).unwrap();
                assert_eq!(again.to_bits(), first.to_bits(), "{policy:?} drifted");
                assert_eq!(
                    xirr_all_roots(&dates, &amounts, None).unwrap(),
                    first_roots,
                    "{policy:?} enumeration drifted"
                );
            }
        }
    }
}

#[test]
fn interleaving_calls_does_not_change_any_of_them() {
    let a = flow(&[
        ("2020-01-01", -1000.),
        ("2021-01-01", 750.),
        ("2022-01-01", 500.),
    ]);
    let b = extreme_series(20_001.0);

    let a_alone = xirr(&a.0, &a.1, None, None, None).unwrap();
    let b_alone = xirr(&b.0, &b.1, None, None, None).unwrap();

    for _ in 0..20 {
        assert_eq!(
            xirr(&a.0, &a.1, None, None, None).unwrap().to_bits(),
            a_alone.to_bits()
        );
        assert_eq!(
            xirr(&b.0, &b.1, None, None, None).unwrap().to_bits(),
            b_alone.to_bits()
        );
    }
}

#[test]
fn reordering_a_valid_flow_does_not_move_the_answer() {
    let base = [
        ("2020-01-01", -1000.0),
        ("2020-07-01", 200.0),
        ("2021-01-01", 300.0),
        ("2021-07-01", 250.0),
        ("2022-01-01", 400.0),
    ];
    let reference = {
        let (d, a) = flow(&base);
        xirr(&d, &a, None, None, None).unwrap()
    };

    for shift in 1..base.len() {
        let mut rows = vec![base[0]];
        for i in 0..base.len() - 1 {
            rows.push(base[1 + (i + shift) % (base.len() - 1)]);
        }
        let (d, a) = flow(&rows);
        let rate = xirr(&d, &a, None, None, None).unwrap();
        let error = ((rate - reference) / reference).abs();
        assert!(
            error < CROSS_PLATFORM_REL_TOL,
            "shift {shift}: got {rate:.17e}, want {reference:.17e}"
        );
    }
}

#[test]
fn the_audit_check_reproduces_on_this_platform() {
    for (name, (dates, amounts), _) in reference_cases() {
        let rate = xirr(&dates, &amounts, None, None, None).unwrap();
        let absolute: Vec<f64> = amounts.iter().map(|a| a.abs()).collect();
        let gross = absolute.iter().sum::<f64>().max(1.0);
        let discounted = xnpv(rate, &dates, &absolute, None).unwrap();
        let residual = xnpv(rate, &dates, &amounts, None).unwrap().abs();

        let budget = 1e-9 * gross.max(discounted);
        println!("{name}: |XNPV| = {residual:.3e}, budget {budget:.3e}");
        assert!(residual <= budget, "{name}: {residual:.3e} > {budget:.3e}");
    }
}
