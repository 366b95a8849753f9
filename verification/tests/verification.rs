//! Every rate that is labelled a root is one.

use xirr::double::Double;
use xirr::host::{Call, DayCount};
use xirr::payments::{DateLike, InvalidPaymentsError};
use xirr::flow::RootPolicy;
use xirr::xirr::XirrOutcome;

fn d(x: f64) -> Double {
    Double { bits: x.to_bits() }
}

fn f(x: Double) -> f64 {
    f64::from_bits(x.bits)
}

fn ds(v: &[f64]) -> Vec<Double> {
    v.iter().map(|x| d(*x)).collect()
}

/// The elementary functions of this machine, and the year fractions of the
/// conventions that the tests use.
fn host(call: Call) -> Double {
    d(match call {
        Call::Exp(x) => f(x).exp(),
        Call::Ln1p(x) => f(x).ln_1p(),
        Call::ExpM1(x) => f(x).exp_m1(),
        Call::Powf(x, y) => f(x).powf(f(y)),
        Call::YearFraction(convention, a, b) => year_fraction(convention, a, b),
    })
}

fn calendar(day: i32) -> (i32, i32, i32) {
    let date = time::Date::from_julian_day(day).unwrap();
    (date.year(), u8::from(date.month()) as i32, date.day() as i32)
}

fn year_fraction(convention: DayCount, a: i32, b: i32) -> f64 {
    let days = (b - a) as f64;
    let (y1, m1, d1) = calendar(a);
    let (y2, m2, d2) = calendar(b);
    match convention {
        DayCount::THIRTY_E_360 => {
            let whole = 360 * (y2 - y1) + 30 * (m2 - m1) + (d2.min(30) - d1.min(30));
            whole as f64 / 360.0
        }
        DayCount::NL_365 => {
            let leaps = (a + 1..=b)
                .filter(|day| {
                    let (_, m, d) = calendar(*day);
                    m == 2 && d == 29
                })
                .count();
            (days - leaps as f64) / 365.0
        }
        DayCount::ACT_ACT_ISDA => (a..b)
            .map(|day| 1.0 / time::util::days_in_year(calendar(day).0) as f64)
            .sum(),
        other => panic!("no test uses {other:?}"),
    }
}

fn date(iso: &str) -> DateLike {
    let parts: Vec<i32> = iso.split('-').map(|p| p.parse().unwrap()).collect();
    let month = time::Month::try_from(parts[1] as u8).unwrap();
    let date = time::Date::from_calendar_date(parts[0], month, parts[2] as u8).unwrap();
    DateLike { day: date.to_julian_day() }
}

fn xirr(
    dates: &[DateLike],
    amounts: &[f64],
    guess: Option<f64>,
    day_count: Option<DayCount>,
    policy: Option<RootPolicy>,
) -> Result<f64, InvalidPaymentsError> {
    xirr::xirr::xirr(&host, dates, &ds(amounts), guess.map(d), day_count, policy).map(f)
}

fn xirr_outcome(
    dates: &[DateLike],
    amounts: &[f64],
    guess: Option<f64>,
    day_count: Option<DayCount>,
    policy: Option<RootPolicy>,
) -> Result<XirrOutcome, InvalidPaymentsError> {
    xirr::xirr::xirr_outcome(&host, dates, &ds(amounts), guess.map(d), day_count, policy)
}

fn xirr_all_roots(
    dates: &[DateLike],
    amounts: &[f64],
    day_count: Option<DayCount>,
) -> Result<Vec<f64>, InvalidPaymentsError> {
    xirr::xirr::xirr_all_roots(&host, dates, &ds(amounts), day_count)
        .map(|roots| roots.into_iter().map(f).collect())
}

fn xnpv(
    rate: f64,
    dates: &[DateLike],
    amounts: &[f64],
    day_count: Option<DayCount>,
) -> Result<f64, InvalidPaymentsError> {
    xirr::xirr::xnpv(&host, d(rate), dates, &ds(amounts), day_count).map(f)
}

fn dates(iso: &[&str]) -> Vec<DateLike> {
    iso.iter().map(|s| date(s)).collect()
}

/// How much of the sum survives its own cancellation, payments as entered.
fn rho_raw(rate: f64, d: &[DateLike], a: &[f64]) -> f64 {
    let magnitudes: Vec<f64> = a.iter().map(|x| x.abs()).collect();
    let sum = xnpv(rate, d, a, None).unwrap().abs();
    let gross = xnpv(rate, d, &magnitudes, None).unwrap();
    sum / gross
}

/// The same, netted by date.
fn rho(rate: f64, d: &[DateLike], a: &[f64]) -> f64 {
    let mut netted: Vec<(DateLike, f64)> = Vec::new();
    for (date, amount) in d.iter().zip(a) {
        match netted.iter_mut().find(|(seen, _)| seen == date) {
            Some((_, sum)) => *sum += amount,
            None => netted.push((*date, *amount)),
        }
    }
    netted.retain(|(_, amount)| *amount != 0.0);

    let dates: Vec<DateLike> = netted.iter().map(|(d, _)| *d).collect();
    let amounts: Vec<f64> = netted.iter().map(|(_, a)| *a).collect();
    rho_raw(rate, &dates, &amounts)
}

/// A flow without a root, whose present value vanishes as the rate grows.
fn asymptote() -> (Vec<DateLike>, Vec<f64>) {
    (
        dates(&[
            "2020-01-01",
            "2020-01-01",
            "2021-01-01",
            "2022-01-01",
            "2023-01-01",
        ]),
        vec![-100.0, 100.0, -1000.0, 300.0, -50.0],
    )
}

#[test]
fn the_asymptote_flow_really_has_no_root() {
    let (d, a) = asymptote();
    assert_eq!(
        xirr_all_roots(&d, &a, None).unwrap(),
        Vec::<f64>::new(),
        "the fixture is supposed to be rootless"
    );
}

#[test]
fn an_asymptote_is_never_labelled_a_root() {
    let (d, a) = asymptote();
    for policy in [
        RootPolicy::SpreadsheetCompat,
        RootPolicy::SpreadsheetThenRobust,
    ] {
        let outcome = xirr_outcome(&d, &a, None, None, Some(policy)).unwrap();
        let XirrOutcome::UnverifiedRate { rate, roots } = &outcome else {
            panic!("{policy:?}: expected UnverifiedRate, got {outcome:?}");
        };
        assert!(roots.is_empty(), "{policy:?}: roots {roots:?}");

        assert_eq!(
            f(*rate),
            xirr(&d, &a, None, None, Some(policy)).unwrap(),
            "{policy:?}: outcome and xirr disagree"
        );

        let r = rho(f(*rate), &d, &a);
        assert!(
            r > 0.1,
            "{policy:?}: rho = {r:e}, which is not the asymptote we think it is"
        );
    }
}

#[test]
fn the_correctness_policies_refuse_an_unverified_rate() {
    let (d, a) = asymptote();
    for policy in [RootPolicy::Lowest, RootPolicy::ClosestToGuess] {
        let rate = xirr(&d, &a, None, None, Some(policy)).unwrap();
        assert!(rate.is_nan(), "{policy:?} returned {rate}");
    }
}

#[test]
fn a_labelled_root_always_survives_back_calculation() {
    let flows: Vec<(&str, Vec<DateLike>, Vec<f64>)> = vec![
        (
            "conventional",
            dates(&["2020-01-01", "2021-01-01", "2022-01-01"]),
            vec![-1000.0, 750.0, 500.0],
        ),
        (
            "multiple-roots",
            dates(&["2020-01-01", "2021-01-01", "2022-01-01"]),
            vec![-1000.0, 2500.0, -1540.0],
        ),
        (
            "near-total-loss",
            dates(&["2020-01-01", "2029-01-01"]),
            vec![-1000.0, 1.0],
        ),
        (
            "huge-rate",
            dates(&["2020-01-01", "2020-01-02"]),
            vec![-1.0, 1000.0],
        ),
        (
            "tiny-amounts",
            dates(&["2020-01-01", "2021-01-01"]),
            vec![-0.0001, 0.00013],
        ),
        ("asymptote", asymptote().0, asymptote().1),
    ];

    for (name, d, a) in &flows {
        for policy in [
            RootPolicy::SpreadsheetCompat,
            RootPolicy::SpreadsheetThenRobust,
            RootPolicy::Lowest,
            RootPolicy::ClosestToGuess,
        ] {
            let outcome = xirr_outcome(d, a, None, None, Some(policy)).unwrap();
            let claimed = match &outcome {
                XirrOutcome::Root(r) => vec![f(*r)],
                XirrOutcome::MultipleRoots { selected, all } => {
                    let mut v: Vec<f64> = all.iter().map(|r| f(*r)).collect();
                    v.push(f(*selected));
                    v
                }
                XirrOutcome::UnverifiedRate { .. } => Vec::new(),
                _ => Vec::new(),
            };

            for rate in claimed {
                let r = rho(rate, d, a);
                assert!(
                    r <= 1e-9,
                    "{name}/{policy:?}: claimed root {rate:e} has rho = {r:e}, \
                      |XNPV| = {:e}",
                    xnpv(rate, d, a, None).unwrap().abs()
                );
            }
        }
    }
}

#[test]
fn every_enumerated_root_survives_back_calculation() {
    let flows = [
        (
            dates(&["2020-01-01", "2021-01-01", "2022-01-01"]),
            vec![-1000.0, 2500.0, -1540.0],
        ),
        (
            dates(&["2020-01-01", "2021-01-01", "2022-01-01", "2023-01-01"]),
            vec![-1.0, 5.0, -7.0, 3.0],
        ),
        (asymptote().0, asymptote().1),
    ];
    for (d, a) in &flows {
        for rate in xirr_all_roots(d, a, None).unwrap() {
            let r = rho(rate, d, a);
            assert!(r <= 1e-9, "enumerated root {rate:e} has rho = {r:e}");
        }
    }
}

#[test]
fn netting_is_what_makes_the_ratio_mean_anything() {
    let (d, a) = asymptote();
    let rate = xirr(&d, &a, None, None, None).unwrap();

    let raw = rho_raw(rate, &d, &a);
    let netted = rho(rate, &d, &a);

    assert!(
        raw < 1e-9,
        "the un-netted ratio is supposed to be fooled here, got {raw:e}"
    );
    assert!(
        netted > 0.1,
        "the netted ratio is supposed to catch it, got {netted:e}"
    );
}
