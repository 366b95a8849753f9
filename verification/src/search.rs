//! Gathering the roots that crossings stand for, and choosing among them.

use crate::double::Double;
use crate::host;
use crate::netted;
use crate::optimize::brent;
use crate::optimize::crossings;
use crate::optimize::crossings::Crossing;
use vstd::prelude::*;

verus! {

/// Evaluations that Brent's method spends on one bracket.
pub const BRENT_ITER: usize = 100;

// ---------------------------------------------------------------------------
// Candidates
// ---------------------------------------------------------------------------

/// The root that a crossing stands for.
pub open spec fn refined(f: spec_fn(Double) -> Double, c: Crossing) -> Double {
    match c {
        Crossing::Bracket(lo, hi) => brent::brent(f, lo, hi, BRENT_ITER as nat),
        Crossing::Exact(u) => u,
    }
}

/// The first `bound` finite roots that the first `n` crossings stand for.
pub open spec fn gathered(
    f: spec_fn(Double) -> Double,
    found: Seq<Crossing>,
    n: int,
    bound: nat,
) -> Seq<Double>
    decreases n,
{
    if n <= 0 {
        Seq::empty()
    } else {
        let rest = gathered(f, found, n - 1, bound);
        let u = refined(f, found[n - 1]);
        if rest.len() < bound && u.finite() {
            rest.push(u)
        } else {
            rest
        }
    }
}

/// The first `bound` finite roots that the crossings of `f` on a grid stand for.
pub open spec fn crossing_roots(
    f: spec_fn(Double) -> Double,
    grid: Seq<Double>,
    bound: nat,
) -> Seq<Double> {
    let found = crossings::crossings(f, grid, grid.len() as int);
    gathered(f, found, found.len() as int, bound)
}

/// Some number of `found` lies below `u`, and some does not.
pub open spec fn straddled(found: Seq<Double>, u: Double) -> bool {
    &&& exists|i: int| 0 <= i < found.len() && (#[trigger] found[i]).lt(u)
    &&& exists|i: int| 0 <= i < found.len() && !(#[trigger] found[i]).lt(u)
}

/// The first `n` extrema that no two of the roots found straddle.
pub open spec fn lone(extrema: Seq<Double>, found: Seq<Double>, n: int) -> Seq<Double>
    decreases n,
{
    if n <= 0 {
        Seq::empty()
    } else if straddled(found, extrema[n - 1]) {
        lone(extrema, found, n - 1)
    } else {
        lone(extrema, found, n - 1).push(extrema[n - 1])
    }
}

/// Evaluates the roots that the crossings of `f` stand for, up to `bound`.
pub fn find_crossing_roots<F>(f: &F, grid: &[Double], bound: usize) -> (roots: Vec<Double>)
    where F: Fn(Double) -> Double
    requires
        host::total(*f),
    ensures
        forall|m: spec_fn(Double) -> Double| #[trigger]
            host::follows(*f, m) ==> roots@ == crossing_roots(m, grid@, bound as nat),
{
    let found = crossings::find_crossings(grid, f);
    let mut roots: Vec<Double> = Vec::new();
    let mut i: usize = 0;
    while i < found.len() && roots.len() < bound
        invariant
            host::total(*f),
            i <= found.len(),
            forall|m: spec_fn(Double) -> Double| #[trigger]
                host::follows(*f, m) ==> roots@ == gathered(m, found@, i as int, bound as nat),
        decreases found.len() - i,
    {
        let u = match found[i] {
            Crossing::Bracket(lo, hi) => brent::brentq(f, lo, hi, BRENT_ITER),
            Crossing::Exact(u) => u,
        };
        if u.is_finite() {
            roots.push(u);
        }
        i = i + 1;
    }
    proof {
        assert forall|m: spec_fn(Double) -> Double| #[trigger] host::follows(*f, m) implies roots@
            == crossing_roots(m, grid@, bound as nat) by {
            lemma_gathered_full(m, found@, i as int, found@.len() as int, bound as nat);
        }
    }
    roots
}

/// Once enough roots are gathered, or no crossing is left, nothing changes.
proof fn lemma_gathered_full(
    f: spec_fn(Double) -> Double,
    found: Seq<Crossing>,
    i: int,
    n: int,
    bound: nat,
)
    requires
        0 <= i <= n,
        gathered(f, found, i, bound).len() >= bound || i == n,
    ensures
        gathered(f, found, n, bound) == gathered(f, found, i, bound),
    decreases n,
{
    if i < n {
        lemma_gathered_full(f, found, i, n - 1, bound);
    }
}

pub fn is_straddled(found: &Vec<Double>, u: Double) -> (r: bool)
    ensures
        r == straddled(found@, u),
{
    let mut below = false;
    let mut above = false;
    let mut i: usize = 0;
    while i < found.len()
        invariant
            i <= found.len(),
            below == exists|j: int| 0 <= j < i && (#[trigger] found@[j]).lt(u),
            above == exists|j: int| 0 <= j < i && !(#[trigger] found@[j]).lt(u),
        decreases found.len() - i,
    {
        let root = found[i];
        assert(found@[i as int] == root);
        if root.is_lt(u) {
            below = true;
        } else {
            above = true;
        }
        i = i + 1;
    }
    below && above
}

// ---------------------------------------------------------------------------
// The root nearest a guess
// ---------------------------------------------------------------------------

/// `a` is nearer to `guess` than `b`, or as near and smaller.
pub open spec fn nearer(a: Double, b: Double, guess: Double) -> bool {
    let da = a.difference(guess).magnitude();
    let db = b.difference(guess).magnitude();
    da.lt(db) || (da.same(db) && a.lt(b))
}

/// The nearest to `guess` of the first `n` roots.
pub open spec fn nearest(roots: Seq<Double>, guess: Double, n: int) -> Option<Double>
    decreases n,
{
    if n <= 0 {
        None
    } else {
        match nearest(roots, guess, n - 1) {
            None => Some(roots[n - 1]),
            Some(best) => if nearer(roots[n - 1], best, guess) {
                Some(roots[n - 1])
            } else {
                Some(best)
            },
        }
    }
}

/// The root nearest `guess`; of two as near, the smaller.
pub fn closest_to(roots: &[Double], guess: Double) -> (r: Option<Double>)
    requires
        netted::all_finite(roots@),
        guess.finite(),
    ensures
        r == nearest(roots@, guess, roots@.len() as int),
{
    let mut best: Option<Double> = None;
    let mut i: usize = 0;
    while i < roots.len()
        invariant
            i <= roots.len(),
            best == nearest(roots@, guess, i as int),
        decreases roots.len() - i,
    {
        let a = roots[i];
        best = match best {
            None => Some(a),
            Some(b) => {
                let da = a.minus(guess).abs();
                let db = b.minus(guess).abs();
                if da.is_lt(db) || (da.is_eq(db) && a.is_lt(b)) {
                    Some(a)
                } else {
                    Some(b)
                }
            },
        };
        i = i + 1;
    }
    best
}

} // verus!
