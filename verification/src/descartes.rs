//! Descartes' rule of signs: a polynomial has no more positive roots than its
//! coefficients have sign changes.

use vstd::prelude::*;

verus! {

/// The value of a polynomial, given by its coefficients from the lowest up.
pub open spec fn eval(c: Seq<real>, x: real) -> real
    decreases c.len(),
{
    if c.len() == 0 {
        0 as real
    } else {
        c[0] + x * eval(c.skip(1), x)
    }
}

/// The sign of the first coefficient that is not zero; zero if there is none.
pub open spec fn lead(c: Seq<real>) -> int
    decreases c.len(),
{
    if c.len() == 0 {
        0
    } else if c[0] > 0 as real {
        1
    } else if c[0] < 0 as real {
        -1
    } else {
        lead(c.skip(1))
    }
}

/// The number of sign changes, zeros left out.
pub open spec fn variations(c: Seq<real>) -> nat
    decreases c.len(),
{
    if c.len() == 0 {
        0
    } else if c[0] != 0 as real && lead(c.skip(1)) != 0 && lead(c.skip(1)) != lead(c) {
        variations(c.skip(1)) + 1
    } else {
        variations(c.skip(1))
    }
}

/// The values at `p` of the polynomials made of the coefficients from each one
/// on.
pub open spec fn suffix_values(c: Seq<real>, p: real) -> Seq<real>
    decreases c.len(),
{
    if c.len() == 0 {
        Seq::empty()
    } else {
        seq![eval(c, p)] + suffix_values(c.skip(1), p)
    }
}

/// The quotient on division by the factor that vanishes at `p`.
pub open spec fn quotient(c: Seq<real>, p: real) -> Seq<real> {
    suffix_values(c.skip(1), p)
}

/// Division by a linear factor leaves the value at its root.
proof fn lemma_division(c: Seq<real>, p: real, x: real)
    requires
        c.len() > 0,
    ensures
        eval(c, x) == (x - p) * eval(quotient(c, p), x) + eval(c, p),
    decreases c.len(),
{
    let rest = c.skip(1);
    if rest.len() == 0 {
        assert(eval(rest, x) == 0 as real);
        assert(eval(rest, p) == 0 as real);
        assert(eval(quotient(c, p), x) == 0 as real);
        assert(x * (0 as real) == 0 as real) by (nonlinear_arith);
        assert(p * (0 as real) == 0 as real) by (nonlinear_arith);
        assert((x - p) * (0 as real) == 0 as real) by (nonlinear_arith);
    } else {
        lemma_division(rest, p, x);
        let q = quotient(rest, p);
        let r = eval(rest, p);
        assert(quotient(c, p) =~= seq![r] + q);
        assert((seq![r] + q).skip(1) =~= q);
        assert(eval(quotient(c, p), x) == r + x * eval(q, x));
        let e = eval(q, x);
        assert(c[0] + x * ((x - p) * e + r) == (x - p) * (r + x * e) + (c[0] + p * r))
            by (nonlinear_arith);
    }
}

/// Taking suffix values loses no sign change; it gains one where the values
/// begin with zero, and where they begin with another sign than the
/// coefficients.
proof fn lemma_suffix_values(c: Seq<real>, p: real)
    requires
        p > 0 as real,
        c.len() > 0,
    ensures
        ({
            let s = suffix_values(c, p);
            let v = eval(c, p);
            &&& s.len() == c.len()
            &&& s[0] == v
            &&& v == 0 as real ==> (lead(s) == 0 <==> lead(c) == 0)
            &&& v == 0 as real && lead(c) != 0 ==> variations(c) >= variations(s) + 1
            &&& v != 0 as real ==> lead(c) != 0 && lead(s) != 0
            &&& v != 0 as real && lead(c) == lead(s) ==> variations(c) >= variations(s)
            &&& v != 0 as real && lead(c) != lead(s) ==> variations(c) >= variations(s) + 1
        }),
    decreases c.len(),
{
    let rest = c.skip(1);
    let s = suffix_values(c, p);
    assert(s.skip(1) =~= suffix_values(rest, p));
    lemma_lead(c);
    lemma_lead(rest);
    lemma_lead(s);
    lemma_lead(s.skip(1));
    if rest.len() == 0 {
        assert(eval(rest, p) == 0 as real);
        assert(p * (0 as real) == 0 as real) by (nonlinear_arith);
        assert(suffix_values(rest, p).len() == 0);
    } else {
        lemma_suffix_values(rest, p);
        let t = eval(rest, p);
        assert(t > 0 as real ==> p * t > 0 as real) by (nonlinear_arith)
            requires
                p > 0 as real,
        ;
        assert(t < 0 as real ==> p * t < 0 as real) by (nonlinear_arith)
            requires
                p > 0 as real,
        ;
        assert(t == 0 as real ==> p * t == 0 as real) by (nonlinear_arith);
    }
}

proof fn lemma_lead(c: Seq<real>)
    ensures
        lead(c) == 0 || lead(c) == 1 || lead(c) == -1,
        lead(c) == 0 ==> variations(c) == 0,
    decreases c.len(),
{
    if c.len() > 0 {
        lemma_lead(c.skip(1));
    }
}

/// A polynomial that is not zero has no more distinct positive roots than its
/// coefficients have sign changes.
pub proof fn law_descartes_rule_of_signs(c: Seq<real>, roots: Seq<real>)
    requires
        lead(c) != 0,
        forall|i: int| 0 <= i < roots.len() ==> #[trigger] roots[i] > 0 as real,
        forall|i: int, j: int|
            0 <= i < j < roots.len() ==> #[trigger] roots[i] != #[trigger] roots[j],
        forall|i: int| 0 <= i < roots.len() ==> eval(c, #[trigger] roots[i]) == 0 as real,
    ensures
        roots.len() <= variations(c),
    decreases roots.len(),
{
    if roots.len() > 0 {
        let p = roots.last();
        let others = roots.drop_last();
        let q = quotient(c, p);
        let s = suffix_values(c, p);
        assert(roots[roots.len() - 1] == p);
        assert(eval(c, p) == 0 as real);
        lemma_suffix_values(c, p);
        assert(s.skip(1) =~= q);
        assert(lead(q) == lead(s) && variations(q) == variations(s));
        assert forall|i: int| 0 <= i < others.len() implies eval(q, #[trigger] others[i])
            == 0 as real by {
            let y = others[i];
            assert(roots[i] == y);
            assert(roots[i] != roots[roots.len() - 1]);
            lemma_division(c, p, y);
            assert(eval(c, y) == 0 as real);
            let e = eval(q, y);
            assert(e == 0 as real) by (nonlinear_arith)
                requires
                    (y - p) * e == 0 as real,
                    y != p,
            ;
        }
        assert forall|i: int| 0 <= i < others.len() implies #[trigger] others[i] > 0 as real by {
            assert(roots[i] == others[i]);
        }
        assert forall|i: int, j: int| 0 <= i < j < others.len() implies #[trigger] others[i]
            != #[trigger] others[j] by {
            assert(roots[i] == others[i] && roots[j] == others[j]);
        }
        law_descartes_rule_of_signs(q, others);
    }
}

} // verus!
