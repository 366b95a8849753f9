//! Log-rates: the logarithm of one plus a rate, in which the whole domain is
//! bounded and a fixed step is a relative one.

use crate::double::{Double, MINUS_ONE, NAN_BITS};
use crate::host;
use crate::host::Call;
use crate::integers;
use vstd::prelude::*;

verus! {

/// `ln(2^-53)`, the lower end of the searched log-rates: `2^-53` is the
/// smallest `1 + r` of any rate above `-1`.
pub const MIN_SEARCHED_LOG_RATE: u64 = 0xc042_5e4f_7b27_37fa;

/// The logarithm of the largest double, the upper end of the searched
/// log-rates.
pub const MAX_SEARCHED_LOG_RATE: u64 = 0x4086_2e42_fefa_39ef;

/// `8.0`, half the width of the dense band of the grid.
pub const FINE_HALF_WIDTH: u64 = 0x4020_0000_0000_0000;

/// `0.01`, the step within the dense band.
pub const FINE_STEP: u64 = 0x3f84_7ae1_47ae_147b;

/// `0.25`, the step below the dense band.
pub const LOW_STEP: u64 = 0x3fd0_0000_0000_0000;

/// `0.5`, the step above the dense band.
pub const HIGH_STEP: u64 = 0x3fe0_0000_0000_0000;

/// `ln(1 + rate)`.
pub open spec fn log_rate(m: spec_fn(Call) -> Double, rate: Double) -> Double {
    m(Call::Ln1p(rate))
}

/// `u` kept within the searched log-rates.
pub open spec fn clamped(u: Double) -> Double {
    if u.lt(Double::from_bits(MIN_SEARCHED_LOG_RATE)) {
        Double::from_bits(MIN_SEARCHED_LOG_RATE)
    } else if Double::from_bits(MAX_SEARCHED_LOG_RATE).lt(u) {
        Double::from_bits(MAX_SEARCHED_LOG_RATE)
    } else {
        u
    }
}

/// `exp(u) - 1` for a `u` kept within the searched log-rates; NaN for one that
/// is not finite.
pub open spec fn rate_of(m: spec_fn(Call) -> Double, u: Double) -> Double {
    if !u.finite() {
        Double::from_bits(NAN_BITS)
    } else {
        m(Call::ExpM1(clamped(u)))
    }
}

/// From a rate to its log-rate.
pub fn to_log_rate<H>(host: &H, rate: Double) -> (u: Double)
    where H: Fn(Call) -> Double
    requires
        host::total(*host),
    ensures
        forall|m: spec_fn(Call) -> Double| #[trigger]
            host::follows(*host, m) ==> u == log_rate(m, rate),
{
    host(Call::Ln1p(rate))
}

/// From a log-rate to its rate.
pub fn from_log_rate<H>(host: &H, u: Double) -> (rate: Double)
    where H: Fn(Call) -> Double
    requires
        host::total(*host),
    ensures
        forall|m: spec_fn(Call) -> Double| #[trigger]
            host::follows(*host, m) ==> rate == rate_of(m, u),
        !u.finite() ==> rate == Double::from_bits(NAN_BITS),
{
    if !u.is_finite() {
        return Double::from_bits(NAN_BITS);
    }
    let low = Double::from_bits(MIN_SEARCHED_LOG_RATE);
    let high = Double::from_bits(MAX_SEARCHED_LOG_RATE);
    let inside = if u.is_lt(low) {
        low
    } else if high.is_lt(u) {
        high
    } else {
        u
    };
    host(Call::ExpM1(inside))
}

/// `exp(x) - 1` has the range it has on paper: on the searched log-rates it is
/// finite and above `-1`, and it keeps zero.
pub open spec fn exp_m1_in_domain(m: spec_fn(Call) -> Double) -> bool {
    &&& forall|x: Double|
        Double::from_bits(MIN_SEARCHED_LOG_RATE).le(x) && x.le(
            Double::from_bits(MAX_SEARCHED_LOG_RATE),
        ) ==> (#[trigger] m(Call::ExpM1(x))).finite() && !m(Call::ExpM1(x)).le(
            Double::from_bits(MINUS_ONE),
        )
    &&& forall|x: Double| x.zero() ==> (#[trigger] m(Call::ExpM1(x))).zero()
}

/// Every finite log-rate has a rate, finite and above `-1`. One outside the
/// searched log-rates has the rate of the nearer end, and zero has zero.
pub proof fn law_rates_lie_in_the_domain(m: spec_fn(Call) -> Double, u: Double)
    requires
        exp_m1_in_domain(m),
    ensures
        u.finite() ==> rate_of(m, u).finite() && Double::from_bits(MINUS_ONE).lt(rate_of(m, u)),
        !u.finite() ==> rate_of(m, u).nan(),
        u.finite() && u.lt(Double::from_bits(MIN_SEARCHED_LOG_RATE)) ==> rate_of(m, u) == rate_of(
            m,
            Double::from_bits(MIN_SEARCHED_LOG_RATE),
        ),
        u.finite() && Double::from_bits(MAX_SEARCHED_LOG_RATE).lt(u) ==> rate_of(m, u) == rate_of(
            m,
            Double::from_bits(MAX_SEARCHED_LOG_RATE),
        ),
        u.zero() ==> rate_of(m, u).zero(),
{
    let x = clamped(u);
    if u.finite() {
        assert(m(Call::ExpM1(x)).finite());
    }
}

/// Evenly spaced nodes from `from` up to but not including `to`.
pub open spec fn band(from: Double, to: Double, step: Double) -> Seq<Double> {
    Seq::new(
        to.difference(from).quotient(step).steps() as nat,
        |i: int| from.sum(integers::whole(i).product(step)),
    )
}

/// The nodes that span the searched log-rates, in three bands.
pub open spec fn log_rate_nodes() -> Seq<Double> {
    let low = Double::from_bits(MIN_SEARCHED_LOG_RATE);
    let high = Double::from_bits(MAX_SEARCHED_LOG_RATE);
    let fine = Double::from_bits(FINE_HALF_WIDTH);
    band(low, fine.opposite(), Double::from_bits(LOW_STEP)) + band(
        fine.opposite(),
        fine,
        Double::from_bits(FINE_STEP),
    ) + band(fine, high, Double::from_bits(HIGH_STEP)) + seq![high]
}

fn extend_band(grid: &mut Vec<Double>, from: Double, to: Double, step: Double)
    ensures
        final(grid)@ == old(grid)@ + band(from, to, step),
{
    let count: usize = to.minus(from).over(step).ceil_steps();
    let ghost before = grid@;
    let mut i: usize = 0;
    assert(before + band(from, to, step).take(0) =~= before);
    while i < count
        invariant
            i <= count,
            count == to.difference(from).quotient(step).steps(),
            grid@ == before + band(from, to, step).take(i as int),
        decreases count - i,
    {
        grid.push(from.plus(Double::from_usize(i).times(step)));
        assert(band(from, to, step).take(i + 1) =~= band(from, to, step).take(i as int).push(
            from.sum(integers::whole(i as int).product(step)),
        ));
        i = i + 1;
    }
    assert(band(from, to, step).take(count as int) =~= band(from, to, step));
}

/// Nodes that span every log-rate a double can express. A fixed step there is
/// a fixed relative step of `1 + r`.
pub fn log_rate_grid() -> (grid: Vec<Double>)
    ensures
        grid@ == log_rate_nodes(),
{
    let low = Double::from_bits(MIN_SEARCHED_LOG_RATE);
    let high = Double::from_bits(MAX_SEARCHED_LOG_RATE);
    let fine = Double::from_bits(FINE_HALF_WIDTH);
    let mut grid: Vec<Double> = Vec::with_capacity(3200);
    extend_band(&mut grid, low, fine.neg(), Double::from_bits(LOW_STEP));
    extend_band(&mut grid, fine.neg(), fine, Double::from_bits(FINE_STEP));
    extend_band(&mut grid, fine, high, Double::from_bits(HIGH_STEP));
    grid.push(high);
    assert(grid@ =~= log_rate_nodes());
    grid
}

} // verus!
