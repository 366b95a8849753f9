//! Rounding of an exact quotient to the nearest double, ties to even.
//!
//! Every finite double is a whole number of units of `2^-1074`, so an exact
//! result is a quotient `n / d` of integers measured in that unit, and a
//! rounded magnitude is again described by integers alone.

use crate::double::{HIDDEN_BIT, INF_BITS};
use vstd::arithmetic::div_mod::*;
use vstd::arithmetic::mul::*;
use vstd::arithmetic::power2::*;
use vstd::bits::*;
use vstd::prelude::*;

verus! {

/// `2^127`, from which smaller powers of two are shifted down.
pub const TOP: u128 = 0x8000_0000_0000_0000_0000_0000_0000_0000;

/// `n / d` to the nearest integer; a tie goes to the even one.
pub open spec fn half_even(n: int, d: int) -> int {
    let q = n / d;
    let rem = n % d;
    if 2 * rem > d || (2 * rem == d && q % 2 == 1) {
        q + 1
    } else {
        q
    }
}

/// How many binary places `n / d` must be shifted down to fit in 53 bits.
pub open spec fn scale(n: int, d: int) -> nat
    decreases n - d,
{
    if d > 0 && n >= d * 0x20_0000_0000_0000 {
        1 + scale(n, 2 * d)
    } else {
        0
    }
}

/// Magnitude bits of the double nearest to `n / d` units.
///
/// With `e` the scale, the significand is `n / (d * 2^e)` to the nearest
/// integer, and a significand `m` at exponent `e` is stored as `e * 2^52 + m`:
/// a carry out of the significand lands in the exponent by itself, and
/// whatever reaches the bits of infinity is infinity.
pub open spec fn round(n: int, d: int) -> int {
    let e = scale(n, d);
    let bits = e * HIDDEN_BIT + half_even(n, d * pow2(e));
    if bits < INF_BITS {
        bits
    } else {
        INF_BITS as int
    }
}

/// The scale is the one exponent whose 53-bit window holds the quotient.
pub proof fn lemma_scale_unique(n: int, d: int, e: nat)
    requires
        d > 0,
        n < d * pow2(53 + e),
        e > 0 ==> n >= d * pow2((52 + e) as nat),
    ensures
        scale(n, d) == e,
    decreases e,
{
    lemma2_to64();
    lemma2_to64_rest();
    if e == 0 {
        assert(53 + e == 53);
    } else {
        if e > 1 {
            lemma_pow2_strictly_increases(53, (52 + e) as nat);
        }
        assert(d * pow2((52 + e) as nat) >= d * pow2(53)) by (nonlinear_arith)
            requires
                d > 0,
                pow2((52 + e) as nat) >= pow2(53),
        ;
        let f = (e - 1) as nat;
        lemma_pow2_unfold(53 + e);
        lemma_pow2_unfold((52 + e) as nat);
        assert(53 + f == 52 + e);
        assert((2 * d) * pow2(53 + f) == d * (2 * pow2(53 + f))) by (nonlinear_arith);
        if f > 0 {
            assert((2 * d) * pow2((52 + f) as nat) == d * (2 * pow2((52 + f) as nat)))
                by (nonlinear_arith);
        }
        lemma_scale_unique(n, 2 * d, f);
    }
}

/// The 53-bit window that the scale picks does hold the quotient.
pub proof fn lemma_scale_window(n: int, d: int)
    requires
        d > 0,
    ensures
        n < d * pow2(53 + scale(n, d)),
        scale(n, d) > 0 ==> n >= d * pow2((52 + scale(n, d)) as nat),
    decreases n - d,
{
    lemma2_to64();
    lemma2_to64_rest();
    let e = scale(n, d);
    if n >= d * 0x20_0000_0000_0000 {
        lemma_scale_window(n, 2 * d);
        let f = scale(n, 2 * d);
        assert(e == f + 1);
        lemma_pow2_unfold(53 + e);
        lemma_pow2_unfold((52 + e) as nat);
        assert(53 + f == 52 + e);
        assert((2 * d) * pow2(53 + f) == d * (2 * pow2(53 + f))) by (nonlinear_arith);
        if f > 0 {
            assert((2 * d) * pow2((52 + f) as nat) == d * (2 * pow2((52 + f) as nat)))
                by (nonlinear_arith);
        } else {
            assert(52 + e == 53);
        }
    }
}

/// A sandwich of `n * p` between two multiples of `x` fixes quotient and
/// remainder of `n` by `dd`, where `dd * p` is `2 * half * x`.
proof fn lemma_round_core(
    n: int,
    p: int,
    dd: int,
    x: int,
    m: int,
    q: int,
    rem: int,
    half: int,
    sticky: bool,
)
    requires
        p > 0,
        x > 0,
        half > 0,
        dd > 0,
        dd * p == (2 * half) * x,
        m == q * (2 * half) + rem,
        0 <= rem < 2 * half,
        q >= 0,
        m * x <= n * p < (m + 1) * x,
        sticky <==> m * x < n * p,
    ensures
        n / dd == q,
        0 <= n % dd < dd,
        rem < half ==> 2 * (n % dd) < dd,
        rem > half ==> 2 * (n % dd) > dd,
        rem == half && sticky ==> 2 * (n % dd) > dd,
        rem == half && !sticky ==> 2 * (n % dd) == dd,
{
    let r = n - q * dd;
    // In units of x: q * dd * p == (m - rem) * x.
    assert(q * dd * p == (m - rem) * x) by {
        assert(q * dd * p == q * (dd * p)) by (nonlinear_arith);
        assert(q * ((2 * half) * x) == (q * (2 * half)) * x) by (nonlinear_arith);
    }
    assert(r * p == n * p - q * dd * p) by (nonlinear_arith)
        requires
            r == n - q * dd,
    ;
    assert((m - rem) * x == m * x - rem * x) by (nonlinear_arith);
    assert((m + 1) * x == m * x + x) by (nonlinear_arith);
    // rem * x <= r * p < rem * x + x
    assert(rem * x <= r * p < rem * x + x);
    assert(sticky <==> rem * x < r * p);
    assert(0 <= rem * x) by (nonlinear_arith)
        requires
            0 <= rem,
            x > 0,
    ;
    assert(r >= 0) by (nonlinear_arith)
        requires
            r * p >= 0,
            p > 0,
    ;
    assert(rem * x + x <= (2 * half) * x) by (nonlinear_arith)
        requires
            rem + 1 <= 2 * half,
            x > 0,
    ;
    assert(r < dd) by (nonlinear_arith)
        requires
            r * p < dd * p,
            p > 0,
    ;
    lemma_fundamental_div_mod_converse(n, dd, q, r);
    // 2 * r * p against dd * p == 2 * (half * x)
    assert((2 * half) * x == 2 * (half * x)) by (nonlinear_arith);
    assert((2 * r) * p == 2 * (r * p)) by (nonlinear_arith);
    if rem < half {
        assert(rem * x + x <= half * x) by (nonlinear_arith)
            requires
                rem + 1 <= half,
                x > 0,
        ;
        assert(2 * r < dd) by (nonlinear_arith)
            requires
                (2 * r) * p < dd * p,
                p > 0,
        ;
    } else if rem > half {
        assert(rem * x >= half * x + x) by (nonlinear_arith)
            requires
                rem >= half + 1,
                x > 0,
        ;
        assert(2 * r > dd) by (nonlinear_arith)
            requires
                (2 * r) * p > dd * p,
                p > 0,
        ;
    } else if sticky {
        assert(2 * r > dd) by (nonlinear_arith)
            requires
                (2 * r) * p > dd * p,
                p > 0,
        ;
    } else {
        assert(2 * r == dd) by (nonlinear_arith)
            requires
                (2 * r) * p == dd * p,
                p > 0,
        ;
    }
}

/// `x` is `m` with its lowest `len` bits cut off.
#[verifier::opaque]
spec fn cut(m: int, x: int, len: nat) -> bool {
    pow2(len) * x <= m < pow2(len) * (x + 1)
}

proof fn lemma_cut_more(m: int, x: int, len: nat, k: nat, y: int)
    requires
        cut(m, x, len),
        y > 0,
        y == pow2(k),
    ensures
        cut(m, x / y, len + k),
{
    reveal(cut);
    lemma_pow2_adds(len, k);
    lemma_pow2_pos(len);
    let a = pow2(len) as int;
    let z = x / y;
    lemma_fundamental_div_mod(x, y);
    lemma_mod_bound(x, y);
    assert((a * y) * z == a * (y * z)) by (nonlinear_arith);
    assert(a * (y * z) <= a * x) by (nonlinear_arith)
        requires
            y * z <= x,
            a > 0,
    ;
    assert((a * y) * (z + 1) == a * (y * z + y)) by (nonlinear_arith);
    assert(a * (x + 1) <= a * (y * z + y)) by (nonlinear_arith)
        requires
            x + 1 <= y * z + y,
            a > 0,
    ;
}

proof fn lemma_cut_to_one(m: int, len: nat)
    requires
        cut(m, 1, len),
    ensures
        pow2(len) <= m < pow2(len + 1),
{
    reveal(cut);
    lemma_pow2_unfold(len + 1);
}

/// Number of bits of `m`.
pub(crate) fn bit_length(m: u128) -> (len: u32)
    requires
        m > 0,
    ensures
        1 <= len <= 128,
        pow2((len - 1) as nat) <= m < pow2(len as nat),
{
    let mut x: u128 = m;
    let mut len: u32 = 0;
    assert(cut(m as int, x as int, 0)) by {
        reveal(cut);
        lemma2_to64();
    }
    assert(pow2(64) == 0x1_0000_0000_0000_0000 && pow2(32) == 0x1_0000_0000 && pow2(16) == 0x1_0000
        && pow2(8) == 0x100 && pow2(4) == 0x10 && pow2(2) == 4 && pow2(1) == 2) by {
        lemma2_to64();
    }
    if x >= 0x1_0000_0000_0000_0000 {
        proof {
            lemma_cut_more(m as int, x as int, len as nat, 64, 0x1_0000_0000_0000_0000);
        }
        x = x / 0x1_0000_0000_0000_0000;
        len = len + 64;
    }
    if x >= 0x1_0000_0000 {
        proof {
            lemma_cut_more(m as int, x as int, len as nat, 32, 0x1_0000_0000);
        }
        x = x / 0x1_0000_0000;
        len = len + 32;
    }
    if x >= 0x1_0000 {
        proof {
            lemma_cut_more(m as int, x as int, len as nat, 16, 0x1_0000);
        }
        x = x / 0x1_0000;
        len = len + 16;
    }
    if x >= 0x100 {
        proof {
            lemma_cut_more(m as int, x as int, len as nat, 8, 0x100);
        }
        x = x / 0x100;
        len = len + 8;
    }
    if x >= 0x10 {
        proof {
            lemma_cut_more(m as int, x as int, len as nat, 4, 0x10);
        }
        x = x / 0x10;
        len = len + 4;
    }
    if x >= 4 {
        proof {
            lemma_cut_more(m as int, x as int, len as nat, 2, 4);
        }
        x = x / 4;
        len = len + 2;
    }
    if x >= 2 {
        proof {
            lemma_cut_more(m as int, x as int, len as nat, 1, 2);
        }
        x = x / 2;
        len = len + 1;
    }
    proof {
        lemma_cut_to_one(m as int, len as nat);
    }
    len + 1
}

/// `2^k`.
pub(crate) fn power_of_two(k: u32) -> (p: u128)
    requires
        k < 128,
    ensures
        p == pow2(k as nat),
{
    let down: u128 = (127 - k) as u128;
    proof {
        lemma_u128_shr_is_div(TOP, down);
        lemma2_to64();
        lemma2_to64_rest();
        lemma_pow2_adds(64, 63);
        lemma_pow2_adds(down as nat, k as nat);
        lemma_pow2_pos(down as nat);
        assert(TOP == pow2(127));
        lemma_div_multiples_vanish(pow2(k as nat) as int, pow2(down as nat) as int);
    }
    TOP >> down
}

/// Offset that keeps every exponent in play a natural number.
pub open spec fn lift(e: int) -> nat {
    (e + 4000) as nat
}

/// `m * 2^e` is the quotient `n / d`, cut off below one unit of `m` when
/// `sticky` is set and exact otherwise.
pub open spec fn truncation_of(m: int, e: int, sticky: bool, n: int, d: int) -> bool {
    let x = pow2(lift(e)) * d;
    let np = n * pow2(4000);
    &&& m * x <= np < (m + 1) * x
    &&& sticky <==> m * x < np
}

/// Magnitude bits nearest to a quotient known as a truncated `m * 2^e`.
pub(crate) fn round_parts(
    m: u128,
    e: i32,
    sticky: bool,
    Ghost(n): Ghost<int>,
    Ghost(d): Ghost<int>,
) -> (mag: u64)
    requires
        0 < m < TOP,
        -3000 <= e <= 3500,
        d > 0,
        sticky ==> m >= 0x40_0000_0000_0000,
        truncation_of(m as int, e as int, sticky, n, d),
    ensures
        mag == round(n, d),
{
    let len: u32 = bit_length(m);
    proof {
        lemma2_to64();
        lemma2_to64_rest();
        lemma_pow2_adds(64, 63);
        assert(TOP == pow2(127));
        if sticky && len < 55 {
            if len < 54 {
                lemma_pow2_strictly_increases(len as nat, 54);
            }
            assert(false);
        }
    }
    let top: i32 = len as i32 + e;
    let ex: i32 = if top > 53 { top - 53 } else { 0 };
    proof {
        lemma_window(m as int, e as int, len as int, ex as int, sticky, n, d);
        lemma_scale_unique(n, d, ex as nat);
        lemma_pow2_pos(ex as nat);
        lemma_pow2_pos(4000);
        lemma_pow2_pos(lift(e as int));
    }
    let ghost dd = d * pow2(ex as nat);
    let ghost x = pow2(lift(e as int)) * d;
    proof {
        assert(dd > 0) by (nonlinear_arith)
            requires
                d > 0,
                pow2(ex as nat) > 0,
                dd == d * pow2(ex as nat),
        ;
        assert(x > 0) by (nonlinear_arith)
            requires
                d > 0,
                pow2(lift(e as int)) > 0,
                x == pow2(lift(e as int)) * d,
        ;
    }
    let shift: i32 = ex - e;
    let r: u128 = if shift <= 0 {
        let up: u32 = (-shift) as u32;
        let factor: u128 = power_of_two(up);
        proof {
            lemma_exact(m as int, e as int, ex as int, n, d);
        }
        assert(m * factor < pow2(53)) by {
            lemma_pow2_adds(len as nat, up as nat);
            if len + up < 53 {
                lemma_pow2_strictly_increases((len + up) as nat, 53);
            }
            assert(m * factor < pow2(len as nat) * factor) by (nonlinear_arith)
                requires
                    m < pow2(len as nat),
                    factor > 0,
            ;
        }
        m * factor
    } else if shift >= 128 {
        proof {
            let half = pow2((shift - 1) as nat) as int;
            lemma_dd_in_x(e as int, ex as int, d);
            lemma_pow2_unfold(shift as nat);
            if shift > 128 {
                lemma_pow2_strictly_increases(127, (shift - 1) as nat);
            }
            lemma_round_core(n, pow2(4000) as int, dd, x, m as int, 0, m as int, half, sticky);
        }
        0
    } else {
        let half: u128 = power_of_two((shift - 1) as u32);
        let by: u128 = shift as u128;
        let q: u128 = m >> by;
        proof {
            lemma_u128_shr_is_div(m, by);
            lemma_pow2_unfold(shift as nat);
            lemma_dd_in_x(e as int, ex as int, d);
            lemma_pow2_pos(shift as nat);
            lemma_fundamental_div_mod(m as int, pow2(shift as nat) as int);
            lemma_mod_bound(m as int, pow2(shift as nat) as int);
            assert(q * (2 * half) == pow2(shift as nat) * q) by (nonlinear_arith)
                requires
                    2 * half == pow2(shift as nat),
            ;
            assert(half * q * 2 == q * (2 * half)) by (nonlinear_arith);
            assert(half * q >= 0) by (nonlinear_arith)
                requires
                    half >= 0,
                    q >= 0,
            ;
        }
        let rem: u128 = m - half * q - half * q;
        proof {
            lemma_round_core(
                n,
                pow2(4000) as int,
                dd,
                x,
                m as int,
                q as int,
                rem as int,
                half as int,
                sticky,
            );
            lemma_quotient_fits(n, d, ex as nat);
        }
        if rem > half || (rem == half && (sticky || q % 2 == 1)) {
            q + 1
        } else {
            q
        }
    };
    proof {
        lemma_quotient_fits(n, d, ex as nat);
        assert(r == half_even(n, dd));
    }
    if ex >= 2047 {
        INF_BITS
    } else {
        let bits: u64 = (ex as u64) * HIDDEN_BIT + r as u64;
        if bits < INF_BITS {
            bits
        } else {
            INF_BITS
        }
    }
}

proof fn lemma_quotient_fits(n: int, d: int, e: nat)
    requires
        d > 0,
        n >= 0,
        n < d * pow2(53 + e),
    ensures
        0 <= n / (d * pow2(e)) < pow2(53),
{
    lemma_pow2_adds(53, e);
    lemma_pow2_pos(e);
    let dd = d * pow2(e);
    assert(dd > 0) by (nonlinear_arith)
        requires
            d > 0,
            pow2(e) > 0,
            dd == d * pow2(e),
    ;
    assert(d * pow2(53 + e) == dd * pow2(53)) by (nonlinear_arith)
        requires
            pow2(53 + e) == pow2(53) * pow2(e),
            dd == d * pow2(e),
    ;
    lemma_fundamental_div_mod(n, dd);
    lemma_mod_bound(n, dd);
    lemma_div_pos_is_pos(n, dd);
    assert(n / dd < pow2(53)) by (nonlinear_arith)
        requires
            dd * (n / dd) <= n,
            n < dd * pow2(53),
            dd > 0,
    ;
}

/// The exponent read off the bit length is the scale of the quotient.
proof fn lemma_window(m: int, e: int, len: int, ex: int, sticky: bool, n: int, d: int)
    requires
        d > 0,
        m > 0,
        -3000 <= e <= 3500,
        1 <= len <= 128,
        pow2((len - 1) as nat) <= m < pow2(len as nat),
        ex == if len + e > 53 { len + e - 53 } else { 0 },
        truncation_of(m, e, sticky, n, d),
    ensures
        n < d * pow2((53 + ex) as nat),
        ex > 0 ==> n >= d * pow2((52 + ex) as nat),
        n >= 0,
{
    let p = pow2(4000) as int;
    let a = pow2(lift(e)) as int;
    let x = a * d;
    lemma_pow2_pos(4000);
    lemma_pow2_pos(lift(e));
    lemma_pow2_adds(len as nat, lift(e));
    lemma_pow2_adds((len - 1) as nat, lift(e));
    lemma_pow2_adds((53 + ex) as nat, 4000);
    let hi = pow2((53 + ex) as nat) as int;
    if len + e < 53 + ex {
        lemma_pow2_strictly_increases((len as nat + lift(e)) as nat, (53 + ex + 4000) as nat);
    } else {
        assert(len as nat + lift(e) == (53 + ex + 4000) as nat);
    }
    assert(pow2(len as nat) * a <= hi * p);
    assert(x > 0) by (nonlinear_arith)
        requires
            a > 0,
            d > 0,
            x == a * d,
    ;
    assert((m + 1) * x <= pow2(len as nat) * x) by (nonlinear_arith)
        requires
            m + 1 <= pow2(len as nat),
            x > 0,
    ;
    assert(pow2(len as nat) * x == (pow2(len as nat) * a) * d) by (nonlinear_arith)
        requires
            x == a * d,
    ;
    assert((pow2(len as nat) * a) * d <= (hi * p) * d) by (nonlinear_arith)
        requires
            pow2(len as nat) * a <= hi * p,
            d > 0,
    ;
    assert((hi * p) * d == (d * hi) * p) by (nonlinear_arith);
    assert(n < d * hi) by (nonlinear_arith)
        requires
            n * p < (d * hi) * p,
            p > 0,
    ;
    assert(m * x >= 0) by (nonlinear_arith)
        requires
            m > 0,
            x > 0,
    ;
    assert(n >= 0) by (nonlinear_arith)
        requires
            n * p >= 0,
            p > 0,
    ;
    if ex > 0 {
        let lo = pow2((52 + ex) as nat) as int;
        lemma_pow2_adds((52 + ex) as nat, 4000);
        assert((len - 1) as nat + lift(e) == (52 + ex + 4000) as nat);
        assert(pow2((len - 1) as nat) * a == lo * p);
        assert(m * x >= pow2((len - 1) as nat) * x) by (nonlinear_arith)
            requires
                m >= pow2((len - 1) as nat),
                x > 0,
        ;
        assert(pow2((len - 1) as nat) * x == (pow2((len - 1) as nat) * a) * d) by (nonlinear_arith)
            requires
                x == a * d,
        ;
        assert((lo * p) * d == (d * lo) * p) by (nonlinear_arith);
        assert(n >= d * lo) by (nonlinear_arith)
            requires
                n * p >= (d * lo) * p,
                p > 0,
        ;
    }
}

/// One step of the rounded significand, measured in steps of `m`.
proof fn lemma_dd_in_x(e: int, ex: int, d: int)
    requires
        -3000 <= e <= 3500,
        ex >= e,
        ex >= 0,
    ensures
        (d * pow2(ex as nat)) * pow2(4000) == pow2((ex - e) as nat) * (pow2(lift(e)) * d),
{
    lemma_pow2_adds(ex as nat, 4000);
    lemma_pow2_adds((ex - e) as nat, lift(e));
    assert((ex - e) as nat + lift(e) == ex as nat + 4000);
    assert((d * pow2(ex as nat)) * pow2(4000) == (pow2(ex as nat) * pow2(4000)) * d)
        by (nonlinear_arith);
    assert(pow2((ex - e) as nat) * (pow2(lift(e)) * d) == (pow2((ex - e) as nat) * pow2(lift(e)))
        * d) by (nonlinear_arith);
}

/// A quotient coarser than the significand's last place needs no rounding.
proof fn lemma_exact(m: int, e: int, ex: int, n: int, d: int)
    requires
        -3000 <= e <= 3500,
        0 <= ex <= e,
        d > 0,
        m > 0,
        truncation_of(m, e, false, n, d),
    ensures
        half_even(n, d * pow2(ex as nat)) == m * pow2((e - ex) as nat),
        n / (d * pow2(ex as nat)) == m * pow2((e - ex) as nat),
{
    let dd = d * pow2(ex as nat);
    let p = pow2(4000) as int;
    let k = pow2((e - ex) as nat) as int;
    lemma_pow2_pos(4000);
    lemma_pow2_pos(ex as nat);
    lemma_pow2_adds(ex as nat, 4000);
    lemma_pow2_adds((e - ex) as nat, (ex + 4000) as nat);
    assert((e - ex) as nat + (ex + 4000) as nat == lift(e));
    assert((ex + 4000) as nat == ex as nat + 4000);
    assert(pow2(lift(e)) == k * (pow2(ex as nat) * p));
    assert(m * (pow2(lift(e)) * d) == ((m * k) * dd) * p) by (nonlinear_arith)
        requires
            pow2(lift(e)) == k * (pow2(ex as nat) * p),
            dd == d * pow2(ex as nat),
    ;
    assert(n == (m * k) * dd) by (nonlinear_arith)
        requires
            n * p == ((m * k) * dd) * p,
            p > 0,
    ;
    assert(dd > 0) by (nonlinear_arith)
        requires
            d > 0,
            pow2(ex as nat) > 0,
            dd == d * pow2(ex as nat),
    ;
    lemma_fundamental_div_mod_converse(n, dd, m * k, 0);
}

} // verus!
