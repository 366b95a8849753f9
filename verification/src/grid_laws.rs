//! The grid of log-rates: it spans the searched range, ascends, and leaves no
//! wide gap.

use crate::arithmetic;
use crate::date_laws;
use crate::double;
use crate::double::{Double, HIDDEN_BIT, INF_BITS};
use crate::integers;
use crate::log_rate;
use crate::optimize::bracket_laws;
use crate::rounding;
use crate::rounding_laws;
use crate::scaling_laws;
use vstd::arithmetic::div_mod::*;
use vstd::arithmetic::power2::*;
use vstd::prelude::*;

verus! {

/// `2^-59`, in which every constant of the grid is whole.
spec fn grain() -> int {
    pow2(1015) as int
}

/// `2^69`: `1024.0` in grains, beyond which no node lies.
const WIDE: i128 = 0x20_0000_0000_0000_0000;

/// `2^16`: what one rounding of such a number is off at most, in grains.
const SLACK: i128 = 0x1_0000;

/// Magnitude bits of `1024.0`.
const FAR: u64 = 0x4090_0000_0000_0000;

/// The node of a band that is `i` steps up.
spec fn node(from: Double, step: Double, i: int) -> Double {
    from.sum(integers::whole(i).product(step))
}

/// The grid begins and ends at the ends of the searched log-rates. Its nodes are
/// finite and strictly ascend, and neighbours are at most `0.5` apart, exactly.
pub proof fn law_log_rate_grid_spans_the_search()
    ensures
        ({
            let grid = log_rate::log_rate_nodes();
            &&& grid.len() == 3120
            &&& grid[0] == Double::from_bits(log_rate::MIN_SEARCHED_LOG_RATE)
            &&& grid.last() == Double::from_bits(log_rate::MAX_SEARCHED_LOG_RATE)
            &&& forall|i: int| 0 <= i < grid.len() ==> (#[trigger] grid[i]).finite()
            &&& forall|i: int, j: int|
                0 <= i < j < grid.len() ==> (#[trigger] grid[i]).lt(#[trigger] grid[j])
            &&& forall|i: int|
                1 <= i < grid.len() ==> (#[trigger] grid[i]).value() - grid[i - 1].value()
                    <= Double::from_bits(log_rate::HIGH_STEP).value()
        }),
{
    let grid = log_rate::log_rate_nodes();
    let p = grain();
    let low = Double::from_bits(log_rate::MIN_SEARCHED_LOG_RATE);
    let high = Double::from_bits(log_rate::MAX_SEARCHED_LOG_RATE);
    let fine = Double::from_bits(log_rate::FINE_HALF_WIDTH);
    let (a, b, c) = (
        Double::from_bits(log_rate::LOW_STEP),
        Double::from_bits(log_rate::FINE_STEP),
        Double::from_bits(log_rate::HIGH_STEP),
    );
    lemma_constants();
    lemma2_to64();
    lemma_grains(0x403c_bc9e_f64e_6ff4, 11);
    lemma_grains(0x4030_0000_0000_0000, 11);
    lemma_grains(0x4085_ee42_fefa_39ef, 16);
    lemma_band(
        low,
        fine.opposite(),
        a,
        -LOW_AT,
        -FINE_AT,
        LOW_STEP_AT as int,
        114,
        0x403c_bc9e_f64e_6ff4,
    );
    lemma_band(
        fine.opposite(),
        fine,
        b,
        -FINE_AT,
        FINE_AT as int,
        FINE_STEP_AT as int,
        1599,
        0x4030_0000_0000_0000,
    );
    lemma_band(
        fine,
        high,
        c,
        FINE_AT as int,
        HIGH_AT as int,
        HIGH_STEP_AT as int,
        1403,
        0x4085_ee42_fefa_39ef,
    );
    let first = log_rate::band(low, fine.opposite(), a);
    let second = log_rate::band(fine.opposite(), fine, b);
    let third = log_rate::band(fine, high, c);
    assert(first.len() == 115 && second.len() == 1600 && third.len() == 1404);
    assert forall|i: int| 1 <= i < grid.len() implies {
        &&& grid[i - 1].finite() && (#[trigger] grid[i]).finite()
        &&& 0 < grid[i].value() - grid[i - 1].value() <= c.value()
    } by {
        if i < 115 {
            assert(grid[i - 1] == node(low, a, i - 1) && grid[i] == node(low, a, i));
            lemma_near(low, a, -LOW_AT, LOW_STEP_AT as int, i - 1);
            lemma_near(low, a, -LOW_AT, LOW_STEP_AT as int, i);
            lemma_apart(
                grid[i - 1].value(),
                grid[i].value(),
                -LOW_AT + (i - 1) * LOW_STEP_AT,
                -LOW_AT + i * LOW_STEP_AT,
            );
        } else if i == 115 {
            assert(grid[114] == node(low, a, 114));
            assert(grid[115] == node(fine.opposite(), b, 0));
            lemma_near(low, a, -LOW_AT, LOW_STEP_AT as int, 114);
            lemma_near(fine.opposite(), b, -FINE_AT, FINE_STEP_AT as int, 0);
            lemma_apart(
                grid[114].value(),
                grid[115].value(),
                -LOW_AT + 114 * LOW_STEP_AT,
                -FINE_AT + 0 * FINE_STEP_AT,
            );
        } else if i < 1715 {
            assert(grid[i - 1] == node(fine.opposite(), b, i - 116));
            assert(grid[i] == node(fine.opposite(), b, i - 115));
            lemma_near(fine.opposite(), b, -FINE_AT, FINE_STEP_AT as int, i - 116);
            lemma_near(fine.opposite(), b, -FINE_AT, FINE_STEP_AT as int, i - 115);
            lemma_apart(
                grid[i - 1].value(),
                grid[i].value(),
                -FINE_AT + (i - 116) * FINE_STEP_AT,
                -FINE_AT + (i - 115) * FINE_STEP_AT,
            );
        } else if i == 1715 {
            assert(grid[1714] == node(fine.opposite(), b, 1599));
            assert(grid[1715] == node(fine, c, 0));
            lemma_near(fine.opposite(), b, -FINE_AT, FINE_STEP_AT as int, 1599);
            lemma_even(0);
            lemma_apart(
                grid[1714].value(),
                grid[1715].value(),
                -FINE_AT + 1599 * FINE_STEP_AT,
                FINE_AT + 0 * HIGH_STEP_AT,
            );
        } else if i < 3119 {
            assert(grid[i - 1] == node(fine, c, i - 1716));
            assert(grid[i] == node(fine, c, i - 1715));
            lemma_even(i - 1716);
            lemma_even(i - 1715);
            assert((FINE_AT + (i - 1715) * HIGH_STEP_AT) * p == (FINE_AT + (i - 1716)
                * HIGH_STEP_AT) * p + HIGH_STEP_AT * p) by (nonlinear_arith);
        } else {
            assert(grid[3118] == node(fine, c, 1403));
            assert(grid[3119] == high);
            lemma_even(1403);
            lemma_apart(
                grid[3118].value(),
                grid[3119].value(),
                FINE_AT + 1403 * HIGH_STEP_AT,
                HIGH_AT as int,
            );
        }
    }
    assert(grid[0] == node(low, a, 0));
    lemma_start(low, a);
    assert(grid[1].finite());
    assert forall|i: int| 0 <= i < grid.len() implies (#[trigger] grid[i]).finite() by {
        if i > 0 {
            assert(grid[i].finite());
        }
    }
    assert forall|i: int, j: int| 0 <= i < j < grid.len() implies (#[trigger] grid[i]).lt(
        #[trigger] grid[j],
    ) by {
        lemma_rising(grid, i, j);
        bracket_laws::lemma_value_order(grid[j], grid[i]);
    }
}

/// Between `-8` and `8`, which are nodes, neighbours are less than `0.0100003` apart.
pub proof fn law_the_grid_is_dense_around_zero(i: int)
    requires
        115 < i <= 1715,
    ensures
        ({
            let grid = log_rate::log_rate_nodes();
            &&& grid.len() == 3120
            &&& grid[115] == Double::from_bits(0xc020_0000_0000_0000)
            &&& grid[1715] == Double::from_bits(0x4020_0000_0000_0000)
            &&& grid[i].value() - grid[i - 1].value() <= Double::from_bits(
                0x3f84_7b00_0000_0000,
            ).value()
        }),
{
    let grid = log_rate::log_rate_nodes();
    let p = grain();
    let low = Double::from_bits(log_rate::MIN_SEARCHED_LOG_RATE);
    let high = Double::from_bits(log_rate::MAX_SEARCHED_LOG_RATE);
    let fine = Double::from_bits(log_rate::FINE_HALF_WIDTH);
    let (a, b, c) = (
        Double::from_bits(log_rate::LOW_STEP),
        Double::from_bits(log_rate::FINE_STEP),
        Double::from_bits(log_rate::HIGH_STEP),
    );
    lemma_constants();
    lemma2_to64();
    lemma_grains(0x403c_bc9e_f64e_6ff4, 11);
    lemma_grains(0x4030_0000_0000_0000, 11);
    lemma_grains(0x4085_ee42_fefa_39ef, 16);
    lemma_grains(0x3f84_7b00_0000_0000, 0);
    let (f, g) = (-FINE_AT, FINE_AT as int);
    let (x, y, z) = (LOW_STEP_AT as int, FINE_STEP_AT as int, HIGH_STEP_AT as int);
    lemma_band(low, fine.opposite(), a, -LOW_AT, f, x, 114, 0x403c_bc9e_f64e_6ff4);
    lemma_band(fine.opposite(), fine, b, f, g, y, 1599, 0x4030_0000_0000_0000);
    lemma_band(fine, high, c, g, HIGH_AT as int, z, 1403, 0x4085_ee42_fefa_39ef);
    assert(log_rate::band(low, fine.opposite(), a).len() == 115);
    assert(log_rate::band(fine.opposite(), fine, b).len() == 1600);
    assert(log_rate::band(fine, high, c).len() == 1404);
    assert(grid[115] == node(fine.opposite(), b, 0));
    assert(grid[1715] == node(fine, c, 0));
    lemma_start(fine.opposite(), b);
    lemma_start(fine, c);
    assert(grid[i - 1] == node(fine.opposite(), b, i - 116));
    lemma_near(fine.opposite(), b, f, y, i - 116);
    let (v, w) = (grid[i - 1].value(), grid[i].value());
    let (s, t) = (f + (i - 116) * y, f + (i - 115) * y);
    if i < 1715 {
        assert(grid[i] == node(fine.opposite(), b, i - 115));
        lemma_near(fine.opposite(), b, f, y, i - 115);
    } else {
        assert((FINE_AT - t) * p == FINE_AT * p - t * p) by (nonlinear_arith);
        assert(-(2 * SLACK * p) <= (FINE_AT - t) * p <= 2 * SLACK * p) by (nonlinear_arith)
            requires
                -2 * SLACK <= FINE_AT - t <= 2 * SLACK,
                p > 0,
        ;
    }
    assert(w - v <= 0x14_7b00_0000_0000 * p) by (nonlinear_arith)
        requires
            -(2 * SLACK * p) <= v - s * p <= 2 * SLACK * p,
            -(2 * SLACK * p) <= w - t * p <= 2 * SLACK * p,
            t - s == y,
            y == FINE_STEP_AT,
            p > 0,
    ;
}

/// Numbers near places more than a little apart, and not much more than that,
/// are apart by no more than `0.5`.
proof fn lemma_apart(v: int, w: int, a: int, b: int)
    requires
        -(2 * SLACK * grain()) <= v - a * grain() <= 2 * SLACK * grain(),
        -(2 * SLACK * grain()) <= w - b * grain() <= 2 * SLACK * grain(),
        4 * SLACK < b - a <= HIGH_STEP_AT - 4 * SLACK,
    ensures
        0 < w - v <= HIGH_STEP_AT * grain(),
{
    let p = grain();
    lemma_constants();
    assert(0 < w - v <= HIGH_STEP_AT * p) by (nonlinear_arith)
        requires
            -(2 * SLACK * p) <= v - a * p <= 2 * SLACK * p,
            -(2 * SLACK * p) <= w - b * p <= 2 * SLACK * p,
            4 * SLACK < b - a <= HIGH_STEP_AT - 4 * SLACK,
            p > 0,
    ;
}

/// The ends of the searched log-rates are a bracket of finite width.
pub proof fn lemma_searched_width()
    ensures
        bracket_laws::bracket_ok(
            Double::from_bits(log_rate::MIN_SEARCHED_LOG_RATE),
            Double::from_bits(log_rate::MAX_SEARCHED_LOG_RATE),
        ),
{
    let low = Double::from_bits(log_rate::MIN_SEARCHED_LOG_RATE);
    let high = Double::from_bits(log_rate::MAX_SEARCHED_LOG_RATE);
    let p = grain();
    lemma_constants();
    assert(low.opposite().value() == -low.value());
    assert((-LOW_AT) * p == -(LOW_AT * p)) by (nonlinear_arith);
    assert(0 <= HIGH_AT * p + LOW_AT * p <= WIDE * p) by (nonlinear_arith)
        requires
            p > 0,
    ;
    lemma_rounded(HIGH_AT * p + LOW_AT * p);
}

/// Neighbours that rise make every later node higher.
proof fn lemma_rising(grid: Seq<Double>, i: int, j: int)
    requires
        0 <= i < j < grid.len(),
        forall|k: int|
            1 <= k < grid.len() ==> 0 < (#[trigger] grid[k]).value() - grid[k - 1].value(),
    ensures
        grid[i].value() < grid[j].value(),
    decreases j,
{
    assert(0 < grid[j].value() - grid[j - 1].value());
    if i < j - 1 {
        lemma_rising(grid, i, j - 1);
    }
}

// ---------------------------------------------------------------------------
// The constants, in grains
// ---------------------------------------------------------------------------

const LOW_AT: i128 = 0x125_e4f7_b273_7fa0_00;

const FINE_AT: i128 = 0x4000_0000_0000_0000;

const HIGH_AT: i128 = 0x16_2e42_fefa_39ef_0000;

const LOW_STEP_AT: i128 = 0x200_0000_0000_0000;

const FINE_STEP_AT: i128 = 0x14_7ae1_47ae_147b;

const HIGH_STEP_AT: i128 = 0x400_0000_0000_0000;

proof fn lemma_constants()
    ensures
        grain() > 0,
        pow2(1074) == 0x800_0000_0000_0000 * grain(),
        pow2(1073) == 0x400_0000_0000_0000 * grain(),
        Double::from_bits(log_rate::MIN_SEARCHED_LOG_RATE).value() == (-LOW_AT) * grain(),
        Double::from_bits(log_rate::MAX_SEARCHED_LOG_RATE).value() == HIGH_AT * grain(),
        Double::from_bits(log_rate::FINE_HALF_WIDTH).value() == FINE_AT * grain(),
        Double::from_bits(log_rate::FINE_HALF_WIDTH).opposite().value() == (-FINE_AT) * grain(),
        Double::from_bits(log_rate::LOW_STEP).value() == LOW_STEP_AT * grain(),
        Double::from_bits(log_rate::FINE_STEP).value() == FINE_STEP_AT * grain(),
        Double::from_bits(log_rate::HIGH_STEP).value() == HIGH_STEP_AT * grain(),
        double::units(FAR as int) == WIDE * grain(),
{
    let p = grain();
    lemma2_to64();
    lemma2_to64_rest();
    lemma_pow2_pos(1015);
    lemma_pow2_adds(59, 1015);
    lemma_pow2_adds(58, 1015);
    lemma_grains(0x4042_5e4f_7b27_37fa, 12);
    lemma_grains(0x4086_2e42_fefa_39ef, 16);
    lemma_grains(0x4020_0000_0000_0000, 10);
    lemma_grains(0x3fd0_0000_0000_0000, 5);
    lemma_grains(0x3f84_7ae1_47ae_147b, 0);
    lemma_grains(0x3fe0_0000_0000_0000, 6);
    lemma_grains(0x4090_0000_0000_0000, 17);
    assert((-LOW_AT) * p == -(LOW_AT * p) && (-FINE_AT) * p == -(FINE_AT * p)) by (nonlinear_arith);
    assert(Double::from_bits(log_rate::MIN_SEARCHED_LOG_RATE).mag() == 0x4042_5e4f_7b27_37fa);
}

/// The magnitude of a number whose last place is `2^k` grains.
proof fn lemma_grains(mag: int, k: nat)
    requires
        double::exponent(mag) == 1015 + k,
    ensures
        double::units(mag) == (double::significand(mag) * pow2(k)) * grain(),
{
    lemma_pow2_adds(k, 1015);
    let s = double::significand(mag);
    assert(s * (pow2(k) * pow2(1015)) == (s * pow2(k)) * pow2(1015)) by (nonlinear_arith);
}

// ---------------------------------------------------------------------------
// Bands
// ---------------------------------------------------------------------------

/// Rounding a number within reach of the grid is off by little.
proof fn lemma_rounded(n: int)
    requires
        0 <= n <= WIDE * grain(),
    ensures
        0 <= rounding::round(n, 1) < INF_BITS,
        -(SLACK * grain()) <= double::units(rounding::round(n, 1)) - n <= SLACK * grain(),
{
    let p = grain();
    lemma_constants();
    rounding_laws::lemma_round_exact(FAR as int, 1);
    rounding_laws::lemma_round_order(n, double::units(FAR as int), 1);
    arithmetic::lemma_round_range(n, 1);
    date_laws::lemma_round_error(n, 1);
}

/// The first node of a band is where the band begins.
proof fn lemma_start(from: Double, step: Double)
    requires
        from.finite(),
        !from.zero(),
        step.finite(),
    ensures
        node(from, step, 0) == from,
        integers::whole(0).product(step).zero(),
        integers::whole(0).product(step).value() == 0,
{
    let t = pow2(1074) as int;
    lemma_pow2_pos(1074);
    arithmetic::lemma_round_zero(1);
    arithmetic::lemma_round_zero(t);
    assert(0 * t == 0);
    arithmetic::lemma_units_order(0, 0);
    assert(0 * double::units(step.mag()) == 0);
    assert(integers::whole(0).zero());
    rounding_laws::lemma_round_exact(from.mag(), 1);
    arithmetic::lemma_units_order(from.mag(), from.mag());
}

/// `i` steps, as computed.
proof fn lemma_steps_up(step: Double, s: int, i: int)
    requires
        step.finite(),
        !step.negative(),
        step.value() == s * grain(),
        0 < i < 2000,
        0 < s,
        i * s <= WIDE,
    ensures
        integers::whole(i).product(step) == double::signed(
            false,
            rounding::round((i * s) * grain(), 1),
        ),
        0 <= rounding::round((i * s) * grain(), 1) < INF_BITS,
        (i * s) * grain() > 0,
        -(SLACK * grain()) <= double::units(rounding::round((i * s) * grain(), 1)) - (i * s)
            * grain() <= SLACK * grain(),
{
    let p = grain();
    let t = pow2(1074) as int;
    lemma_constants();
    lemma2_to64();
    lemma2_to64_rest();
    let mag = date_laws::lemma_small_integer(i);
    let n = (i * s) * p;
    assert(n > 0 && n <= WIDE * p) by (nonlinear_arith)
        requires
            n == (i * s) * p,
            i > 0,
            s > 0,
            p > 0,
            i * s <= WIDE,
    ;
    assert((i * t) * (s * p) == n * t) by (nonlinear_arith)
        requires
            n == (i * s) * p,
    ;
    scaling_laws::lemma_round_cancels(n, 1, t);
    lemma_rounded(n);
}

/// A node lies within two roundings of where it belongs.
proof fn lemma_near(from: Double, step: Double, f: int, s: int, i: int)
    requires
        from.finite(),
        !from.zero(),
        from.value() == f * grain(),
        step.finite(),
        !step.negative(),
        step.value() == s * grain(),
        0 <= i < 2000,
        0 < s,
        i * s <= WIDE,
        -WIDE + SLACK <= f + i * s <= WIDE - SLACK,
    ensures
        node(from, step, i).finite(),
        -(2 * SLACK * grain()) <= node(from, step, i).value() - (f + i * s) * grain() <= 2 * SLACK
            * grain(),
{
    let p = grain();
    lemma_constants();
    if i == 0 {
        lemma_start(from, step);
    } else {
        lemma_steps_up(step, s, i);
        let up = integers::whole(i).product(step);
        let exact = from.value() + up.value();
        assert((f + i * s) * p == f * p + (i * s) * p) by (nonlinear_arith);
        assert(up.value() == double::units(up.mag()));
        assert(-(WIDE * p) <= exact <= WIDE * p) by (nonlinear_arith)
            requires
                -(SLACK * p) <= exact - (f + i * s) * p <= SLACK * p,
                -WIDE + SLACK <= f + i * s <= WIDE - SLACK,
                p > 0,
        ;
        let size = if exact < 0 {
            -exact
        } else {
            exact
        };
        lemma_rounded(size);
        arithmetic::lemma_round_zero(1);
        arithmetic::lemma_units_order(0, 0);
        assert(2 * SLACK * p == SLACK * p + SLACK * p) by (nonlinear_arith);
    }
}

/// Nodes of the highest band are exact: its step is a power of two.
proof fn lemma_even(i: int)
    requires
        0 <= i <= 1403,
    ensures
        ({
            let x = node(
                Double::from_bits(log_rate::FINE_HALF_WIDTH),
                Double::from_bits(log_rate::HIGH_STEP),
                i,
            );
            &&& x.finite()
            &&& x.value() == (FINE_AT + i * HIGH_STEP_AT) * grain()
        }),
{
    let p = grain();
    let fine = Double::from_bits(log_rate::FINE_HALF_WIDTH);
    let step = Double::from_bits(log_rate::HIGH_STEP);
    lemma_constants();
    if i == 0 {
        lemma_start(fine, step);
    } else {
        lemma_steps_up(step, HIGH_STEP_AT as int, i);
        let a = lemma_halves(i);
        assert((i * HIGH_STEP_AT) * p == i * (HIGH_STEP_AT * p)) by (nonlinear_arith);
        rounding_laws::lemma_round_exact(a, 1);
        let b = lemma_halves(16 + i);
        assert((16 + i) * (HIGH_STEP_AT * p) == 16 * (HIGH_STEP_AT * p) + i * (HIGH_STEP_AT * p))
            by (nonlinear_arith);
        assert((FINE_AT + i * HIGH_STEP_AT) * p == FINE_AT * p + (i * HIGH_STEP_AT) * p)
            by (nonlinear_arith);
        rounding_laws::lemma_round_exact(b, 1);
    }
}

/// Whole numbers of halves are doubles.
proof fn lemma_halves(a: int) -> (mag: int)
    requires
        0 < a < 4000,
    ensures
        0 < mag < INF_BITS,
        double::units(mag) == a * pow2(1073),
{
    lemma2_to64();
    lemma2_to64_rest();
    lemma_constants();
    let p = grain();
    let t = pow2(1074) as int;
    let mag = date_laws::lemma_small_integer(a);
    assert(a * t >= t) by (nonlinear_arith)
        requires
            a >= 1,
            t > 0,
    ;
    lemma_grains(0x3f90_0000_0000_0000, 1);
    if mag < 2 * HIDDEN_BIT {
        arithmetic::lemma_units_order(mag, 0x3f90_0000_0000_0000);
    }
    bracket_laws::lemma_halved(double::signed(false, mag));
    assert(a * t == 2 * (a * pow2(1073))) by (nonlinear_arith)
        requires
            t == 2 * pow2(1073),
    ;
    mag - HIDDEN_BIT
}

/// A band holds `k + 1` nodes when it is between `k + 1/2` and `k + 1` steps
/// long. The length, as computed, has magnitude bits `w`.
proof fn lemma_band(from: Double, to: Double, step: Double, f: int, g: int, s: int, k: int, w: int)
    requires
        from.finite(),
        to.finite(),
        step.finite(),
        !step.negative(),
        !step.zero(),
        from.value() == f * grain(),
        to.value() == g * grain(),
        step.value() == s * grain(),
        0 <= k < 1999,
        0 < s,
        (2 * k + 1) * s <= 2 * (g - f) <= (2 * k + 2) * s,
        0 < w < INF_BITS,
        double::units(w) == (g - f) * grain(),
    ensures
        log_rate::band(from, to, step).len() == k + 1,
{
    let p = grain();
    let h = pow2(1073) as int;
    let t = pow2(1074) as int;
    let u = double::units(w);
    lemma_constants();
    arithmetic::lemma_units_order(w, w);
    rounding_laws::lemma_round_exact(w, 1);
    assert(from.opposite().value() == -from.value());
    assert((g - f) * p == g * p - f * p) by (nonlinear_arith);
    assert(to.difference(from) == double::signed(false, w));
    let d = s * p;
    let q = to.difference(from).quotient(step);
    assert(step.mag() == step.bits && double::units(step.mag()) == d);
    arithmetic::lemma_units_order(step.mag(), step.mag());
    let lo = lemma_halves(2 * k + 1);
    let hi = lemma_halves(2 * k + 2);
    let n = u * t;
    assert(((2 * k + 1) * h) * d <= n && n <= ((2 * k + 2) * h) * d && n >= 0) by (nonlinear_arith)
        requires
            n == u * t,
            u == (g - f) * p,
            t == 2 * h,
            d == s * p,
            (2 * k + 1) * s <= 2 * (g - f) <= (2 * k + 2) * s,
            k >= 0,
            s > 0,
            p > 0,
            h > 0,
    ;
    let low = ((2 * k + 1) * h) * d;
    assert(low >= 0) by (nonlinear_arith)
        requires
            low == ((2 * k + 1) * h) * d,
            k >= 0,
            h > 0,
            d > 0,
    ;
    rounding_laws::lemma_round_exact(lo, d);
    rounding_laws::lemma_round_exact(hi, d);
    rounding_laws::lemma_round_order(low, n, d);
    rounding_laws::lemma_round_order(n, ((2 * k + 2) * h) * d, d);
    let r = rounding::round(n, d);
    assert(q == double::signed(false, r));
    assert(lo <= r <= hi);
    arithmetic::lemma_units_order(lo, r);
    arithmetic::lemma_units_order(r, hi);
    let v = double::units(r);
    assert(k * t < v && v <= (k + 1) * t) by (nonlinear_arith)
        requires
            (2 * k + 1) * h <= v <= (2 * k + 2) * h,
            t == 2 * h,
            h > 0,
    ;
    let rem = (k + 1) * t - v;
    assert(-v == t * (-(k + 1)) + rem && 0 <= rem < t) by (nonlinear_arith)
        requires
            rem == (k + 1) * t - v,
            k * t < v <= (k + 1) * t,
    ;
    lemma_fundamental_div_mod_converse(-v, t, -(k + 1), rem);
    assert(q.steps() == k + 1);
}

} // verus!
