//! Where a function sampled on a grid crosses zero.

use crate::arithmetic;
use crate::double;
use crate::double::{Double, HIDDEN_BIT, INF_BITS, MINUS_ONE, ONE};
use crate::growth;
use crate::host;
use vstd::arithmetic::power2::*;
use vstd::prelude::*;

verus! {

/// `-0.9999999999`, just inside the domain, which ends at `-1`.
pub const BRACKET_LO: u64 = 0xbfef_ffff_fff2_4190;

/// `-0.99`, where the even part of the grid begins.
pub const BRACKET_FINE_START: u64 = 0xbfef_ae14_7ae1_47ae;

/// `0.005`, the spacing of the grid up to one.
pub const BRACKET_FINE_STEP: u64 = 0x3f74_7ae1_47ae_147b;

/// `1.05`, the growth of the grid above one.
pub const BRACKET_GROWTH: u64 = 0x3ff0_cccc_cccc_cccd;

/// A place where a function on a grid meets zero.
#[derive(Clone, Copy, Debug, PartialEq, Eq, Structural)]
pub enum Crossing {
    /// The value changes sign between two neighbouring nodes.
    Bracket(Double, Double),
    /// The value at a node is zero.
    Exact(Double),
}

// ---------------------------------------------------------------------------
// Crossings of an explicit grid
// ---------------------------------------------------------------------------

/// A value that can stand at one end of a bracket.
pub open spec fn has_sign(v: Double) -> bool {
    v.finite() && !v.zero()
}

/// The crossing that is met on arriving at node `i`.
pub open spec fn crossing_at(
    m: spec_fn(Double) -> Double,
    grid: Seq<Double>,
    i: int,
) -> Option<Crossing> {
    let here = m(grid[i]);
    if here.zero() {
        Some(Crossing::Exact(grid[i]))
    } else if i > 0 && has_sign(m(grid[i - 1])) && has_sign(here) && m(grid[i - 1]).negative()
        != here.negative() {
        Some(Crossing::Bracket(grid[i - 1], grid[i]))
    } else {
        None
    }
}

/// The crossings met on the first `n` nodes, in order.
pub open spec fn crossings(
    m: spec_fn(Double) -> Double,
    grid: Seq<Double>,
    n: int,
) -> Seq<Crossing>
    decreases n,
{
    if n <= 0 {
        Seq::empty()
    } else {
        match crossing_at(m, grid, n - 1) {
            Some(c) => crossings(m, grid, n - 1).push(c),
            None => crossings(m, grid, n - 1),
        }
    }
}

/// Every crossing of `f` on the grid: the nodes where it is zero, and the
/// pairs of neighbours where it is finite, not zero, and changes sign.
pub fn find_crossings<Func>(grid: &[Double], f: &Func) -> (found: Vec<Crossing>)
    where Func: Fn(Double) -> Double
    requires
        host::total(*f),
    ensures
        forall|m: spec_fn(Double) -> Double| #[trigger]
            host::follows(*f, m) ==> found@ == crossings(m, grid@, grid@.len() as int),
{
    let mut found: Vec<Crossing> = Vec::new();
    if grid.len() == 0 {
        return found;
    }
    let mut here = f(grid[0]);
    if here.is_zero() {
        found.push(Crossing::Exact(grid[0]));
    }
    proof {
        assert forall|m: spec_fn(Double) -> Double| #[trigger] host::follows(*f, m) implies found@
            == crossings(m, grid@, 1) by {
            reveal_with_fuel(crossings, 2);
        }
    }
    let mut i: usize = 1;
    while i < grid.len()
        invariant
            host::total(*f),
            1 <= i <= grid.len(),
            forall|m: spec_fn(Double) -> Double| #[trigger]
                host::follows(*f, m) ==> here == m(grid@[i - 1]) && found@ == crossings(
                    m,
                    grid@,
                    i as int,
                ),
        decreases grid.len() - i,
    {
        let before = here;
        here = f(grid[i]);
        if here.is_zero() {
            found.push(Crossing::Exact(grid[i]));
        } else if before.is_finite() && !before.is_zero() && here.is_finite()
            && before.is_negative() != here.is_negative() {
            found.push(Crossing::Bracket(grid[i - 1], grid[i]));
        }
        i = i + 1;
    }
    found
}

// ---------------------------------------------------------------------------
// Sign changes on the rate grid
// ---------------------------------------------------------------------------

/// The evenly spaced nodes from `x` up to one.
pub open spec fn fine_nodes(x: Double) -> Seq<Double>
    decreases INF_BITS - x.key(),
    when !x.nan() && Double::from_bits(MINUS_ONE).le(x)
    via fine_nodes_rise
{
    if x.le(Double::from_bits(ONE)) {
        seq![x] + fine_nodes(x.sum(Double::from_bits(BRACKET_FINE_STEP)))
    } else {
        Seq::empty()
    }
}

#[via_fn]
proof fn fine_nodes_rise(x: Double) {
    if x.le(Double::from_bits(ONE)) {
        lemma_fine_step(x);
    }
}

/// A step of the even grid moves on, and stays a number.
pub proof fn lemma_fine_step(x: Double)
    requires
        Double::from_bits(MINUS_ONE).le(x),
        x.le(Double::from_bits(ONE)),
    ensures
        x.key() < x.sum(Double::from_bits(BRACKET_FINE_STEP)).key(),
        !x.sum(Double::from_bits(BRACKET_FINE_STEP)).nan(),
{
    let step = Double::from_bits(BRACKET_FINE_STEP);
    lemma2_to64();
    lemma2_to64_rest();
    assert(double::exponent(step.mag()) == 1014);
    assert(double::significand(step.mag()) >= HIDDEN_BIT);
    assert(double::exponent(x.mag()) <= 1022);
    lemma_pow2_adds(8, 1014);
    lemma_pow2_pos(1014);
    if double::exponent(x.mag()) < 1022 {
        lemma_pow2_strictly_increases(double::exponent(x.mag()) as nat, 1022);
    }
    assert(double::significand(step.mag()) * pow2(1014) >= 0x100 * pow2(1014)) by (nonlinear_arith)
        requires
            double::significand(step.mag()) >= HIDDEN_BIT,
            pow2(1014) > 0,
    ;
    growth::lemma_sum_grows(x, step);
    lemma_finite_sum(x, step);
}

/// Adding two finite numbers never gives a NaN.
proof fn lemma_finite_sum(x: Double, y: Double)
    requires
        x.finite(),
        y.finite(),
    ensures
        !x.sum(y).nan(),
{
    let exact = x.value() + y.value();
    if exact > 0 {
        arithmetic::lemma_round_range(exact, 1);
    } else if exact < 0 {
        arithmetic::lemma_round_range(-exact, 1);
    }
}

/// The nodes that grow by a fixed factor from `x` to below `max_rate`.
pub open spec fn coarse_nodes(x: Double, max_rate: Double) -> Seq<Double>
    decreases INF_BITS - x.key(),
    when !x.nan() && Double::from_bits(ONE).le(x)
    via coarse_nodes_rise
{
    if x.lt(max_rate) {
        seq![x] + coarse_nodes(x.product(Double::from_bits(BRACKET_GROWTH)), max_rate)
    } else {
        Seq::empty()
    }
}

#[via_fn]
proof fn coarse_nodes_rise(x: Double, max_rate: Double) {
    if x.lt(max_rate) {
        lemma_coarse_step(x);
    }
}

/// A step of the growing grid moves on, and stays a number.
pub proof fn lemma_coarse_step(x: Double)
    requires
        x.finite(),
        Double::from_bits(ONE).le(x),
    ensures
        x.key() < x.product(Double::from_bits(BRACKET_GROWTH)).key() <= INF_BITS,
        !x.product(Double::from_bits(BRACKET_GROWTH)).nan(),
{
    let factor = Double::from_bits(BRACKET_GROWTH);
    let excess: int = 0xcccc_cccc_cccd;
    lemma2_to64_rest();
    assert(double::exponent(factor.mag()) == 1022);
    assert(double::significand(factor.mag()) == HIDDEN_BIT + excess);
    lemma_pow2_adds(52, 1022);
    lemma_pow2_pos(1022);
    lemma_pow2_pos(1074);
    assert((HIDDEN_BIT + excess) * pow2(1022) == HIDDEN_BIT * pow2(1022) + excess * pow2(1022))
        by (nonlinear_arith);
    growth::lemma_product_grows(x, factor, excess);
    arithmetic::lemma_units_order(x.mag(), x.mag());
    arithmetic::lemma_units_order(factor.mag(), factor.mag());
    assert(double::units(x.mag()) * double::units(factor.mag()) >= 0) by (nonlinear_arith)
        requires
            double::units(x.mag()) >= 0,
            double::units(factor.mag()) >= 0,
    ;
    arithmetic::lemma_round_range(
        double::units(x.mag()) * double::units(factor.mag()),
        pow2(1074) as int,
    );
}

/// The rate grid from just above `-1` to `max_rate`: evenly spaced up to one,
/// growing above it.
pub open spec fn rate_grid(max_rate: Double) -> Seq<Double> {
    seq![Double::from_bits(BRACKET_LO)] + fine_nodes(Double::from_bits(BRACKET_FINE_START))
        + coarse_nodes(Double::from_bits(ONE), max_rate) + seq![max_rate]
}

/// The sign bit changes between the values at node `i` and the one before it.
/// A zero counts by its sign bit, unless it comes first.
pub open spec fn brackets_at(m: spec_fn(Double) -> Double, grid: Seq<Double>, i: int) -> bool {
    let before = m(grid[i - 1]);
    let here = m(grid[i]);
    has_sign(before) && here.finite() && before.negative() != here.negative()
}

/// The pairs of neighbours among the first `n` nodes between which the sign
/// changes.
pub open spec fn brackets(
    m: spec_fn(Double) -> Double,
    grid: Seq<Double>,
    n: int,
) -> Seq<(Double, Double)>
    decreases n,
{
    if n <= 1 {
        Seq::empty()
    } else if brackets_at(m, grid, n - 1) {
        brackets(m, grid, n - 1).push((grid[n - 2], grid[n - 1]))
    } else {
        brackets(m, grid, n - 1)
    }
}

/// Builds the rate grid.
fn build_rate_grid(max_rate: Double) -> (grid: Vec<Double>)
    ensures
        grid@ == rate_grid(max_rate),
{
    let mut grid: Vec<Double> = Vec::with_capacity(1024);
    grid.push(Double::from_bits(BRACKET_LO));
    let mut x = Double::from_bits(BRACKET_FINE_START);
    assert(grid@ + fine_nodes(x) =~= seq![Double::from_bits(BRACKET_LO)] + fine_nodes(x));
    while x.is_le(Double::from_bits(ONE))
        invariant
            !x.nan(),
            Double::from_bits(MINUS_ONE).le(x),
            grid@ + fine_nodes(x) == seq![Double::from_bits(BRACKET_LO)] + fine_nodes(
                Double::from_bits(BRACKET_FINE_START),
            ),
        decreases INF_BITS - x.key(),
    {
        proof {
            lemma_fine_step(x);
        }
        let ghost before = grid@;
        grid.push(x);
        let next = x.plus(Double::from_bits(BRACKET_FINE_STEP));
        assert(grid@ + fine_nodes(next) =~= before + (seq![x] + fine_nodes(next)));
        x = next;
    }
    let ghost fine = grid@;
    assert(fine + fine_nodes(x) =~= fine);
    let mut x = Double::from_bits(ONE);
    while x.is_lt(max_rate)
        invariant
            !x.nan(),
            Double::from_bits(ONE).le(x),
            grid@ + coarse_nodes(x, max_rate) == fine + coarse_nodes(
                Double::from_bits(ONE),
                max_rate,
            ),
        decreases INF_BITS - x.key(),
    {
        proof {
            lemma_coarse_step(x);
        }
        let ghost before = grid@;
        grid.push(x);
        let next = x.times(Double::from_bits(BRACKET_GROWTH));
        assert(grid@ + coarse_nodes(next, max_rate) =~= before + (seq![x] + coarse_nodes(
            next,
            max_rate,
        )));
        x = next;
    }
    assert(grid@ + coarse_nodes(x, max_rate) =~= grid@);
    grid.push(max_rate);
    grid
}

/// The pairs of neighbouring rates, on a grid up to `max_rate`, between which
/// `f` changes sign.
pub fn find_brackets<Func>(f: &Func, max_rate: Double) -> (found: Vec<(Double, Double)>)
    where Func: Fn(Double) -> Double
    requires
        host::total(*f),
    ensures
        forall|m: spec_fn(Double) -> Double| #[trigger]
            host::follows(*f, m) ==> found@ == brackets(
                m,
                rate_grid(max_rate),
                rate_grid(max_rate).len() as int,
            ),
{
    let grid = build_rate_grid(max_rate);
    let mut found: Vec<(Double, Double)> = Vec::new();
    let mut here = f(grid[0]);
    let mut i: usize = 1;
    while i < grid.len()
        invariant
            host::total(*f),
            1 <= i <= grid.len(),
            forall|m: spec_fn(Double) -> Double| #[trigger]
                host::follows(*f, m) ==> here == m(grid@[i - 1]) && found@ == brackets(
                    m,
                    grid@,
                    i as int,
                ),
        decreases grid.len() - i,
    {
        let before = here;
        here = f(grid[i]);
        if before.is_finite() && here.is_finite() && !before.is_zero() && before.is_negative()
            != here.is_negative() {
            found.push((grid[i - 1], grid[i]));
        }
        i = i + 1;
    }
    found
}

} // verus!
