//! Stable sorting by the total order of numbers, and thinning out of
//! neighbours that lie close together.

use crate::double::Double;
use vstd::prelude::*;

verus! {

/// Something with a place in an order.
pub trait Ranked: Sized + Copy {
    /// The place.
    spec fn place(self) -> int;

    /// Comes strictly before `other`.
    fn precedes(self, other: Self) -> (r: bool)
        ensures
            r == (self.place() < other.place()),
    ;
}

impl Ranked for Double {
    open spec fn place(self) -> int {
        self.rank()
    }

    fn precedes(self, other: Double) -> (r: bool) {
        self.ranks_below(other)
    }
}

/// `s` with `x` put behind everything that does not come after it.
pub open spec fn inserted<T: Ranked>(s: Seq<T>, x: T) -> Seq<T>
    decreases s.len(),
{
    if s.len() == 0 || s.last().place() <= x.place() {
        s.push(x)
    } else {
        inserted(s.drop_last(), x).push(s.last())
    }
}

/// `s` in ascending order; equals keep the order they had.
pub open spec fn sorted<T: Ranked>(s: Seq<T>) -> Seq<T>
    decreases s.len(),
{
    if s.len() == 0 {
        s
    } else {
        inserted(sorted(s.drop_last()), s.last())
    }
}

/// No later element comes before an earlier one.
pub open spec fn ascending<T: Ranked>(s: Seq<T>) -> bool {
    forall|i: int, j: int| 0 <= i <= j < s.len() ==> (#[trigger] s[i]).place() <= (
    #[trigger] s[j]).place()
}

/// Insertion at a known position.
proof fn lemma_inserted_at<T: Ranked>(s: Seq<T>, x: T, pos: int)
    requires
        0 <= pos <= s.len(),
        pos > 0 ==> s[pos - 1].place() <= x.place(),
        forall|j: int| pos <= j < s.len() ==> x.place() < (#[trigger] s[j]).place(),
    ensures
        inserted(s, x) == s.insert(pos, x),
    decreases s.len(),
{
    if pos == s.len() {
        assert(s.insert(pos, x) =~= s.push(x));
    } else {
        lemma_inserted_at(s.drop_last(), x, pos);
        assert(s.insert(pos, x) =~= s.drop_last().insert(pos, x).push(s.last()));
    }
}

/// Insertion keeps a sequence ascending and adds one element.
pub proof fn lemma_inserted<T: Ranked>(s: Seq<T>, x: T)
    requires
        ascending(s),
    ensures
        ascending(inserted(s, x)),
        inserted(s, x).len() == s.len() + 1,
        inserted(s, x).to_multiset() == s.to_multiset().insert(x),
    decreases s.len(),
{
    broadcast use vstd::seq_lib::group_to_multiset_ensures;

    if s.len() == 0 || s.last().place() <= x.place() {
    } else {
        let rest = s.drop_last();
        lemma_inserted(rest, x);
        assert(rest.push(s.last()) =~= s);
        assert forall|j: int| 0 <= j < inserted(rest, x).len() implies (#[trigger] inserted(
            rest,
            x,
        )[j]).place() <= s.last().place() by {
            let y = inserted(rest, x)[j];
            assert(inserted(rest, x).to_multiset().count(y) > 0) by {
                assert(inserted(rest, x).contains(y));
            }
            if y != x {
                assert(rest.to_multiset().count(y) > 0);
                assert(rest.contains(y));
                let k = choose|k: int| 0 <= k < rest.len() && rest[k] == y;
                assert(s[k] == y);
            }
        }
        assert(inserted(s, x).to_multiset() =~= s.to_multiset().insert(x));
    }
}

/// Sorting arranges the same elements in ascending order.
pub proof fn lemma_sorted<T: Ranked>(s: Seq<T>)
    ensures
        ascending(sorted(s)),
        sorted(s).len() == s.len(),
        sorted(s).to_multiset() == s.to_multiset(),
    decreases s.len(),
{
    broadcast use vstd::seq_lib::group_to_multiset_ensures;

    if s.len() > 0 {
        lemma_sorted(s.drop_last());
        lemma_inserted(sorted(s.drop_last()), s.last());
        assert(s.drop_last().push(s.last()) =~= s);
    }
}

/// Sorting adds nothing: what is in the sorted sequence was there before.
pub proof fn lemma_sorted_contains<T: Ranked>(s: Seq<T>, x: T)
    ensures
        sorted(s).contains(x) <==> s.contains(x),
{
    broadcast use vstd::seq_lib::group_to_multiset_ensures;

    lemma_sorted(s);
    assert(sorted(s).to_multiset().count(x) > 0 <==> sorted(s).contains(x));
    assert(s.to_multiset().count(x) > 0 <==> s.contains(x));
}

/// Sorts in ascending order, keeping the order of equals.
pub fn sort<T: Ranked>(v: &Vec<T>) -> (r: Vec<T>)
    ensures
        r@ == sorted(v@),
{
    let mut r: Vec<T> = Vec::with_capacity(v.len());
    let mut i: usize = 0;
    assert(v@.take(0) =~= Seq::empty());
    while i < v.len()
        invariant
            i <= v.len(),
            r@ == sorted(v@.take(i as int)),
        decreases v.len() - i,
    {
        let x = v[i];
        let mut pos: usize = r.len();
        proof {
            lemma_sorted(v@.take(i as int));
        }
        while pos > 0 && x.precedes(r[pos - 1])
            invariant
                pos <= r.len(),
                forall|j: int| pos <= j < r.len() ==> x.place() < (#[trigger] r@[j]).place(),
            decreases pos,
        {
            pos = pos - 1;
        }
        proof {
            lemma_inserted_at(r@, x, pos as int);
            assert(v@.take(i + 1).drop_last() =~= v@.take(i as int));
        }
        r.insert(pos, x);
        i = i + 1;
    }
    assert(v@.take(v.len() as int) =~= v@);
    r
}

// ---------------------------------------------------------------------------
// Thinning out
// ---------------------------------------------------------------------------

/// `s` without the elements that are close to the last one kept before them.
pub open spec fn thinned(s: Seq<Double>, close: spec_fn(Double, Double) -> bool) -> Seq<Double>
    decreases s.len(),
{
    if s.len() == 0 {
        s
    } else {
        let kept = thinned(s.drop_last(), close);
        if kept.len() > 0 && close(s.last(), kept.last()) {
            kept
        } else {
            kept.push(s.last())
        }
    }
}

/// The two numbers are equal.
pub open spec fn equal() -> spec_fn(Double, Double) -> bool {
    |a: Double, b: Double| a.same(b)
}

/// The two numbers are at most `tol` apart.
pub open spec fn within(tol: Double) -> spec_fn(Double, Double) -> bool {
    |a: Double, b: Double| a.difference(b).magnitude().le(tol)
}

/// Keeps the first of each run of equal numbers.
pub fn dedup(v: &Vec<Double>) -> (r: Vec<Double>)
    ensures
        r@ == thinned(v@, equal()),
{
    let mut r: Vec<Double> = Vec::with_capacity(v.len());
    let mut i: usize = 0;
    assert(v@.take(0) =~= Seq::empty());
    while i < v.len()
        invariant
            i <= v.len(),
            r@ == thinned(v@.take(i as int), equal()),
        decreases v.len() - i,
    {
        assert(v@.take(i + 1).drop_last() =~= v@.take(i as int));
        let n: usize = r.len();
        if n == 0 || !v[i].is_eq(r[n - 1]) {
            r.push(v[i]);
        }
        i = i + 1;
    }
    assert(v@.take(v.len() as int) =~= v@);
    r
}

/// Drops each number that is at most `tol` away from the last one kept.
pub fn dedup_within(v: &Vec<Double>, tol: Double) -> (r: Vec<Double>)
    ensures
        r@ == thinned(v@, within(tol)),
{
    let mut r: Vec<Double> = Vec::with_capacity(v.len());
    let mut i: usize = 0;
    assert(v@.take(0) =~= Seq::empty());
    while i < v.len()
        invariant
            i <= v.len(),
            r@ == thinned(v@.take(i as int), within(tol)),
        decreases v.len() - i,
    {
        assert(v@.take(i + 1).drop_last() =~= v@.take(i as int));
        let n: usize = r.len();
        if n == 0 || !v[i].minus(r[n - 1]).abs().is_le(tol) {
            r.push(v[i]);
        }
        i = i + 1;
    }
    assert(v@.take(v.len() as int) =~= v@);
    r
}

/// Thinning keeps elements of the sequence, in their order, with neighbours
/// apart.
pub proof fn lemma_thinned(s: Seq<Double>, close: spec_fn(Double, Double) -> bool)
    requires
        ascending(s),
    ensures
        ascending(thinned(s, close)),
        forall|x: Double| #[trigger] thinned(s, close).contains(x) ==> s.contains(x),
        forall|i: int|
            0 < i < thinned(s, close).len() ==> !close(
                #[trigger] thinned(s, close)[i],
                thinned(s, close)[i - 1],
            ),
        s.len() > 0 ==> thinned(s, close).len() > 0 && thinned(s, close)[0] == s[0],
    decreases s.len(),
{
    if s.len() > 0 {
        let rest = s.drop_last();
        lemma_thinned(rest, close);
        let kept = thinned(rest, close);
        let t = thinned(s, close);
        assert forall|x: Double| #[trigger] t.contains(x) implies s.contains(x) by {
            if kept.contains(x) {
                assert(rest.contains(x));
                let k = choose|k: int| 0 <= k < rest.len() && rest[k] == x;
                assert(s[k] == x);
            } else {
                assert(t != kept);
                let k = choose|k: int| 0 <= k < t.len() && t[k] == x;
                if k < kept.len() {
                    assert(kept[k] == x);
                }
                assert(s[s.len() - 1] == x);
            }
        }
        assert forall|i: int, j: int| 0 <= i <= j < t.len() implies (#[trigger] t[i]).place() <= (
        #[trigger] t[j]).place() by {
            if j == kept.len() && i < j {
                assert(kept.contains(kept[i]));
                assert(rest.contains(kept[i]));
                let k = choose|k: int| 0 <= k < rest.len() && rest[k] == kept[i];
                assert(s[k] == kept[i]);
            }
        }
    }
}

/// Everything is kept, or has something kept that it lies close to.
pub proof fn lemma_thinned_covers(
    s: Seq<Double>,
    close: spec_fn(Double, Double) -> bool,
    x: Double,
)
    requires
        s.contains(x),
    ensures
        thinned(s, close).contains(x) || exists|y: Double| #[trigger]
            thinned(s, close).contains(y) && close(x, y),
    decreases s.len(),
{
    let rest = s.drop_last();
    let kept = thinned(rest, close);
    let t = thinned(s, close);
    assert forall|y: Double| kept.contains(y) implies #[trigger] t.contains(y) by {
        let k = choose|k: int| 0 <= k < kept.len() && kept[k] == y;
        assert(t[k] == y);
    }
    if rest.contains(x) {
        lemma_thinned_covers(rest, close, x);
        if !kept.contains(x) {
            let y = choose|y: Double| #[trigger] kept.contains(y) && close(x, y);
            assert(t.contains(y));
        }
    } else {
        let k = choose|k: int| 0 <= k < s.len() && s[k] == x;
        if k < s.len() - 1 {
            assert(rest[k] == x);
        }
        assert(x == s.last());
        if kept.len() > 0 && close(x, kept.last()) {
            assert(kept.contains(kept.last()));
            assert(t.contains(kept.last()));
        } else {
            assert(t[kept.len() as int] == x);
        }
    }
}

} // verus!
