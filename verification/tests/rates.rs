//! The rate of return of dated payments.

use xirr::double::Double;
use xirr::host::{Call, DayCount};
use xirr::payments::{DateLike, InvalidPaymentsError};
use xirr::flow::RootPolicy;


fn d(x: f64) -> Double {
    Double { bits: x.to_bits() }
}

fn f(x: Double) -> f64 {
    f64::from_bits(x.bits)
}

fn ds(v: &[f64]) -> Vec<Double> {
    v.iter().map(|x| d(*x)).collect()
}

/// The elementary functions of this machine, and the year fractions of the
/// conventions that the tests use.
fn host(call: Call) -> Double {
    d(match call {
        Call::Exp(x) => f(x).exp(),
        Call::Ln1p(x) => f(x).ln_1p(),
        Call::ExpM1(x) => f(x).exp_m1(),
        Call::Powf(x, y) => f(x).powf(f(y)),
        Call::YearFraction(convention, a, b) => year_fraction(convention, a, b),
    })
}

fn calendar(day: i32) -> (i32, i32, i32) {
    let date = time::Date::from_julian_day(day).unwrap();
    (date.year(), u8::from(date.month()) as i32, date.day() as i32)
}

fn year_fraction(convention: DayCount, a: i32, b: i32) -> f64 {
    let days = (b - a) as f64;
    let (y1, m1, d1) = calendar(a);
    let (y2, m2, d2) = calendar(b);
    match convention {
        DayCount::THIRTY_E_360 => {
            let whole = 360 * (y2 - y1) + 30 * (m2 - m1) + (d2.min(30) - d1.min(30));
            whole as f64 / 360.0
        }
        DayCount::NL_365 => {
            let leaps = (a + 1..=b)
                .filter(|day| {
                    let (_, m, d) = calendar(*day);
                    m == 2 && d == 29
                })
                .count();
            (days - leaps as f64) / 365.0
        }
        DayCount::ACT_ACT_ISDA => (a..b)
            .map(|day| 1.0 / time::util::days_in_year(calendar(day).0) as f64)
            .sum(),
        other => panic!("no test uses {other:?}"),
    }
}

fn date(iso: &str) -> DateLike {
    let parts: Vec<i32> = iso.split('-').map(|p| p.parse().unwrap()).collect();
    let month = time::Month::try_from(parts[1] as u8).unwrap();
    let date = time::Date::from_calendar_date(parts[0], month, parts[2] as u8).unwrap();
    DateLike { day: date.to_julian_day() }
}

fn xirr(
    dates: &[DateLike],
    amounts: &[f64],
    guess: Option<f64>,
    day_count: Option<DayCount>,
    policy: Option<RootPolicy>,
) -> Result<f64, InvalidPaymentsError> {
    xirr::xirr::xirr(&host, dates, &ds(amounts), guess.map(d), day_count, policy).map(f)
}

fn xirr_all_roots(
    dates: &[DateLike],
    amounts: &[f64],
    day_count: Option<DayCount>,
) -> Result<Vec<f64>, InvalidPaymentsError> {
    xirr::xirr::xirr_all_roots(&host, dates, &ds(amounts), day_count)
        .map(|roots| roots.into_iter().map(f).collect())
}

fn xnpv(
    rate: f64,
    dates: &[DateLike],
    amounts: &[f64],
    day_count: Option<DayCount>,
) -> Result<f64, InvalidPaymentsError> {
    xirr::xirr::xnpv(&host, d(rate), dates, &ds(amounts), day_count).map(f)
}

fn sign_changes(
    dates: &[DateLike],
    amounts: &[f64],
    day_count: Option<DayCount>,
) -> Result<usize, InvalidPaymentsError> {
    xirr::xirr::sign_changes(&host, dates, &ds(amounts), day_count)
}

const REL_TOL: f64 = 1e-9;

fn close(got: f64, want: f64) -> bool {
    (got - want).abs() <= REL_TOL * want.abs().max(1.0)
}

#[test]
fn tolerances_are_relative_to_cash_flow_size() {
    let dates: Vec<DateLike> = ["2020-01-01", "2021-01-01", "2022-01-01", "2023-01-01"]
        .iter()
        .map(|s| date(s))
        .collect();
    let base = [-1000.0, 5000.0, -6000.0, 2500.0];

    let mut first = None;
    for exp in [0i32, 3, 6, 9, 12] {
        let k = 10f64.powi(exp);
        let amounts: Vec<f64> = base.iter().map(|a| a * k).collect();
        let r = xirr(&dates, &amounts, None, None, None).unwrap();
        assert!(r.is_finite(), "1e{exp} returned no rate");
        let f = *first.get_or_insert(r);
        assert!(close(r, f), "1e{exp} gave {r}, 1e0 gave {f}");
    }
}

fn cash_flow(rows: &[(&str, f64)]) -> (Vec<DateLike>, Vec<f64>) {
    (
        rows
            .iter()
            .map(|(d, _)| date(d))
            .collect(),
        rows.iter().map(|(_, a)| *a).collect(),
    )
}

/// Annual payments with three rates of return.
fn three_root_flow() -> (Vec<DateLike>, Vec<f64>) {
    cash_flow(&[
        ("2015-01-01", -1000.),
        ("2016-01-01", 3000.),
        ("2017-01-01", -2500.),
        ("2018-01-01", 600.),
    ])
}

#[test]
fn matches_the_spreadsheet_when_roots_are_ambiguous() {
    let (dates, amounts) = three_root_flow();
    let rate = xirr(&dates, &amounts, None, None, None).unwrap();
    assert!((rate - -0.571885951525731).abs() < 1e-9, "got {rate}");
    assert_eq!(xirr_all_roots(&dates, &amounts, None).unwrap().len(), 3);
}

#[test]
fn policies_select_different_roots_deliberately() {
    let (dates, amounts) = three_root_flow();
    let pick = |p| xirr(&dates, &amounts, None, None, Some(p)).unwrap();

    assert!((pick(RootPolicy::Lowest) - -0.571885951525731).abs() < 1e-8);
    assert!((pick(RootPolicy::ClosestToGuess) - -0.21924296785).abs() < 1e-8);
}

#[test]
fn strict_compat_gives_up_exactly_where_a_spreadsheet_does() {
    let (dates, amounts) = cash_flow(&[("2020-01-01", -1000.), ("2021-01-01", 1.)]);

    let strict = xirr(
        &dates,
        &amounts,
        None,
        None,
        Some(RootPolicy::SpreadsheetCompat),
    );
    assert!(strict.unwrap().is_nan());

    let robust = xirr(&dates, &amounts, None, None, None).unwrap();
    assert!((robust - -0.9989809471).abs() < 1e-9, "got {robust}");
}

#[test]
fn rejects_dates_before_the_first() {
    let (dates, amounts) = cash_flow(&[("2021-01-01", -100.), ("2020-01-01", 130.)]);
    assert!(xirr(&dates, &amounts, None, None, None).is_err());
}

#[test]
fn rejects_guess_outside_the_domain() {
    let (dates, amounts) = cash_flow(&[("2020-01-01", -100.), ("2021-01-01", 130.)]);
    for bad in [-1.0, -2.0, f64::NAN, f64::INFINITY, f64::NEG_INFINITY] {
        assert!(
            xirr(&dates, &amounts, Some(bad), None, None).is_err(),
            "guess {bad} should be rejected"
        );
    }
}

#[test]
fn sign_changes_nets_by_date_before_counting() {
    let count = |rows: &[(&str, f64)]| {
        let (d, a) = cash_flow(rows);
        sign_changes(&d, &a, None).unwrap()
    };

    assert_eq!(count(&[("2020-01-01", -1.), ("2021-01-01", 0.)]), 0);
    assert_eq!(
        count(&[("2020-01-01", -1.), ("2020-06-01", 0.), ("2021-01-01", 3.)]),
        1
    );
    assert_eq!(
        count(&[("2020-01-01", -1.), ("2021-01-01", 2.), ("2022-01-01", -3.)]),
        2
    );

    assert_eq!(count(&[("2023-01-01", -11000.), ("2023-01-01", 20000.)]), 0);

    assert_eq!(
        count(&[("2020-01-01", -1.), ("2020-06-01", -5.), ("2020-03-01", 3.)]),
        2
    );
}

#[test]
fn xnpv_is_zero_at_the_returned_rate() {
    let (dates, amounts) = cash_flow(&[
        ("2020-01-01", -1000.),
        ("2021-01-01", 750.),
        ("2022-01-01", 500.),
    ]);
    let rate = xirr(&dates, &amounts, None, None, None).unwrap();
    let residual = xnpv(rate, &dates, &amounts, None).unwrap();
    assert!(residual.abs() < 1e-9, "residual {residual}");
}
