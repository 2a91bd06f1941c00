//! Rounding to nearest, ties to even.
//!
//! The exact result of an operation is a fraction `n / d` of whole numbers, in
//! the unit `2^-1074` of `scaled`. `rounds_to` says which magnitude a correctly
//! rounded operation returns for it, and `round_pack` computes that magnitude
//! from a significand, a binary exponent and a note of what was cut off.

use vstd::prelude::*;
use vstd::arithmetic::power2::{
    pow2, lemma_pow2_pos, lemma_pow2_unfold, lemma_pow2_adds, lemma_pow2_strictly_increases,
    lemma2_to64, lemma2_to64_rest,
};
use crate::geodesy::binary64::format::{
    HIDDEN_BIT, INFINITY_BITS, scaled, packed, fits, lemma_scaled_packed, lemma_scaled_next,
    lemma_scaled_increases, lemma_scaled_infinity,
};

verus! {

/// Twice the number half way between the magnitude `m` and the next one.
pub open spec fn twice_midpoint(m: nat) -> nat {
    scaled(m) + scaled(m + 1)
}

/// Whether the magnitude `p` is the rounding of `n / d`: no magnitude up to
/// infinity lies nearer to `n / d`, and where `n / d` is half way between two of
/// them, `p` is the even one. What lies at or beyond the half way point between
/// the greatest finite number and `2^1024` rounds to infinity.
pub open spec fn rounds_to(n: nat, d: nat, p: nat) -> bool {
    &&& p <= INFINITY_BITS
    &&& p > 0 ==> {
        let below = twice_midpoint((p - 1) as nat) * d;
        2 * n > below || (2 * n == below && p % 2 == 0)
    }
    &&& p < INFINITY_BITS ==> {
        let above = twice_midpoint(p) * d;
        2 * n < above || (2 * n == above && p % 2 == 0)
    }
}

/// The magnitude that `n / d` rounds to.
pub open spec fn nearest(n: nat, d: nat) -> nat {
    choose|p: nat| rounds_to(n, d, p)
}

proof fn lemma_midpoints_increase(p: nat, q: nat)
    requires
        p < q,
    ensures
        twice_midpoint(p) < twice_midpoint(q),
{
    lemma_scaled_increases(p, q);
    lemma_scaled_increases(p + 1, q + 1);
}

/// At most one magnitude is the rounding of a given fraction.
pub proof fn lemma_rounding_unique(n: nat, d: nat, p: nat, q: nat)
    requires
        d > 0,
        rounds_to(n, d, p),
        rounds_to(n, d, q),
    ensures
        p == q,
{
    lemma_rounding_ordered(n, d, p, q);
    lemma_rounding_ordered(n, d, q, p);
}

proof fn lemma_rounding_ordered(n: nat, d: nat, p: nat, q: nat)
    requires
        d > 0,
        rounds_to(n, d, p),
        rounds_to(n, d, q),
    ensures
        q <= p,
{
    let above = twice_midpoint(p);
    let below = twice_midpoint((q - 1) as nat);
    if p + 1 < q {
        lemma_midpoints_increase(p, (q - 1) as nat);
        assert(above * d < below * d) by (nonlinear_arith)
            requires
                above < below,
                d > 0,
        ;
    }
}

/// The rounding of a fraction is the one magnitude that it rounds to.
pub proof fn lemma_nearest_is(n: nat, d: nat, p: nat)
    requires
        d > 0,
        rounds_to(n, d, p),
    ensures
        nearest(n, d) == p,
{
    lemma_rounding_unique(n, d, p, nearest(n, d));
}

proof fn lemma_rounding_found(n: nat, d: nat, p: nat) -> (r: nat)
    requires
        d > 0,
        p <= INFINITY_BITS,
        p > 0 ==> 2 * n > twice_midpoint((p - 1) as nat) * d,
    ensures
        rounds_to(n, d, r),
    decreases INFINITY_BITS - p,
{
    let above = twice_midpoint(p) * d;
    if p == INFINITY_BITS || 2 * n < above {
        p
    } else if 2 * n > above {
        lemma_rounding_found(n, d, p + 1)
    } else if p % 2 == 0 {
        p
    } else {
        lemma_midpoints_increase(p, p + 1);
        assert(twice_midpoint(p) * d < twice_midpoint(p + 1) * d) by (nonlinear_arith)
            requires
                twice_midpoint(p) < twice_midpoint(p + 1),
                d > 0,
        ;
        p + 1
    }
}

/// Every fraction has a rounding.
pub proof fn lemma_rounding_exists(n: nat, d: nat)
    requires
        d > 0,
    ensures
        rounds_to(n, d, nearest(n, d)),
        nearest(n, d) <= INFINITY_BITS,
{
    let r = lemma_rounding_found(n, d, 0);
    lemma_nearest_is(n, d, r);
}

/// Zero rounds to zero.
pub proof fn lemma_rounds_zero(d: nat)
    requires
        d > 0,
    ensures
        rounds_to(0, d, 0),
        nearest(0, d) == 0,
{
    lemma_scaled_next(0);
    assert(twice_midpoint(0) * d > 0) by (nonlinear_arith)
        requires
            twice_midpoint(0) > 0,
            d > 0,
    ;
    lemma_nearest_is(0, d, 0);
}

/// A fraction that is the number of a magnitude rounds to that magnitude.
pub proof fn lemma_rounds_exact(m: nat, d: nat)
    requires
        m <= INFINITY_BITS,
        d > 0,
    ensures
        rounds_to(scaled(m) * d, d, m),
        nearest(scaled(m) * d, d) == m,
{
    let before = (m - 1) as nat;
    lemma_scaled_next(m);
    assert(2 * (scaled(m) * d) < twice_midpoint(m) * d) by (nonlinear_arith)
        requires
            2 * scaled(m) < twice_midpoint(m),
            d > 0,
    ;
    if m > 0 {
        lemma_scaled_next(before);
        assert(2 * (scaled(m) * d) > twice_midpoint(before) * d) by (nonlinear_arith)
            requires
                2 * scaled(m) > twice_midpoint(before),
                d > 0,
        ;
    }
    lemma_nearest_is(scaled(m) * d, d, m);
}

/// Where `2 * n / d` lies with respect to `sig * 2^u`: on it, or strictly
/// between it and `(sig + 1) * 2^u`. Both sides are multiplied by `2^k`, which
/// keeps the exponents whole; `k` is any number with `u + k >= 0`.
pub open spec fn brackets(sig: nat, u: int, k: nat, inexact: bool, n: nat, d: nat) -> bool {
    let w = pow2((u + k) as nat) * d;
    let x = 2 * n * pow2(k);
    &&& u + k >= 0
    &&& d > 0
    &&& if inexact {
        sig * w < x < (sig + 1) * w
    } else {
        x == sig * w
    }
}

proof fn lemma_halve(sig: nat, u: int, k: nat, inexact: bool, n: nat, d: nat)
    requires
        brackets(sig, u, k, inexact, n, d),
    ensures
        brackets(sig / 2, u + 1, k, inexact || sig % 2 == 1, n, d),
{
    let w = pow2((u + k) as nat) * d;
    let w2 = pow2((u + 1 + k) as nat) * d;
    let x = 2 * n * pow2(k);
    let q = sig / 2;
    let g = sig % 2;
    lemma_pow2_unfold((u + 1 + k) as nat);
    lemma_pow2_pos((u + k) as nat);
    assert(w2 == 2 * w) by (nonlinear_arith)
        requires
            w == pow2((u + k) as nat) * d,
            w2 == (2 * pow2((u + k) as nat)) * d,
    ;
    assert(w > 0) by (nonlinear_arith)
        requires
            w == pow2((u + k) as nat) * d,
            pow2((u + k) as nat) > 0,
            d > 0,
    ;
    assert(sig * w == q * w2 + g * w && (sig + 1) * w == sig * w + w && (q + 1) * w2 == q * w2 + w2)
        by (nonlinear_arith)
        requires
            sig == 2 * q + g,
            w2 == 2 * w,
    ;
    assert(g * w == 0 || g * w == w) by (nonlinear_arith)
        requires
            g == 0 || g == 1,
    ;
}

proof fn lemma_double(sig: nat, u: int, k: nat, n: nat, d: nat)
    requires
        brackets(sig, u, k, false, n, d),
        u + k >= 1,
    ensures
        brackets(2 * sig, u - 1, k, false, n, d),
{
    let w1 = pow2((u - 1 + k) as nat) * d;
    let w = pow2((u + k) as nat) * d;
    lemma_pow2_unfold((u + k) as nat);
    assert(sig * w == (2 * sig) * w1) by (nonlinear_arith)
        requires
            w1 == pow2((u - 1 + k) as nat) * d,
            w == (2 * pow2((u - 1 + k) as nat)) * d,
    ;
}

/// What `brackets` says once the exponent is whole: the common factor `2^k`
/// is gone.
proof fn lemma_brackets_whole(sig: nat, u: nat, k: nat, inexact: bool, n: nat, d: nat)
    requires
        brackets(sig, u as int, k, inexact, n, d),
    ensures
        if inexact {
            sig * (pow2(u) * d) < 2 * n < (sig + 1) * (pow2(u) * d)
        } else {
            2 * n == sig * (pow2(u) * d)
        },
{
    let c = pow2(k);
    let w = pow2(u) * d;
    lemma_pow2_adds(u, k);
    lemma_pow2_pos(k);
    assert(pow2(u + k) * d == w * c) by (nonlinear_arith)
        requires
            pow2(u + k) == pow2(u) * c,
            w == pow2(u) * d,
    ;
    assert(2 * n * c == (2 * n) * c && sig * (w * c) == (sig * w) * c && (sig + 1) * (w * c) == ((sig
        + 1) * w) * c) by (nonlinear_arith);
    let a = sig * w;
    let b = (sig + 1) * w;
    let m = 2 * n;
    assert((a * c < m * c ==> a < m) && (m * c < b * c ==> m < b) && (m * c == a * c ==> m == a))
        by (nonlinear_arith)
        requires
            c > 0,
    ;
}

/// Whether the last step of rounding goes up: the bit below the result is set,
/// and either something lies below that bit or the result would be odd.
pub open spec fn goes_up(sig: nat, inexact: bool) -> bool {
    sig % 2 == 1 && (inexact || (sig / 2) % 2 == 1)
}

proof fn lemma_round_final(sig: nat, u: nat, k: nat, inexact: bool, n: nat, d: nat)
    requires
        brackets(sig, u as int, k, inexact, n, d),
        sig < 4 * HIDDEN_BIT,
        u == 0 || sig >= 2 * HIDDEN_BIT,
    ensures
        u >= 2046 ==> rounds_to(n, d, INFINITY_BITS as nat),
        u < 2046 ==> rounds_to(
            n,
            d,
            if goes_up(sig, inexact) {
                packed(u, sig / 2) + 1
            } else {
                packed(u, sig / 2)
            },
        ),
{
    let q = sig / 2;
    let g = sig % 2;
    let e = pow2(u);
    let w = e * d;
    lemma_brackets_whole(sig, u, k, inexact, n, d);
    lemma_pow2_pos(u);
    assert(w > 0) by (nonlinear_arith)
        requires
            w == e * d,
            e > 0,
            d > 0,
    ;
    assert(sig * w == 2 * (q * w) + g * w && (sig + 1) * w == 2 * (q * w) + g * w + w) by (nonlinear_arith)
        requires
            sig == 2 * q + g,
    ;
    assert(g * w == 0 || g * w == w) by (nonlinear_arith)
        requires
            g == 0 || g == 1,
    ;
    if u >= 2046 {
        let inf = INFINITY_BITS as nat;
        lemma_scaled_infinity();
        lemma_scaled_next((inf - 1) as nat);
        if u > 2046 {
            lemma_pow2_strictly_increases(2046, u);
        }
        let top = HIDDEN_BIT * pow2(2046);
        assert(twice_midpoint((inf - 1) as nat) < 2 * top);
        assert(q * w >= top * d) by (nonlinear_arith)
            requires
                q >= HIDDEN_BIT,
                e >= pow2(2046),
                w == e * d,
                top == HIDDEN_BIT * pow2(2046),
        ;
        assert(twice_midpoint((inf - 1) as nat) * d < 2 * (top * d)) by (nonlinear_arith)
            requires
                twice_midpoint((inf - 1) as nat) < 2 * top,
                d > 0,
        ;
    } else {
        let p = packed(u, q);
        assert(fits(u, q));
        lemma_scaled_packed(u, q);
        lemma_scaled_next(p);
        lemma_scaled_next(p + 1);
        assert(p + 1 <= INFINITY_BITS);
        assert(p % 2 == q % 2) by {
            assert(p == 2 * (u * 0x8_0000_0000_0000) + q);
        }
        // d times the numbers of p and of its neighbours
        assert(scaled(p) * d == q * w && scaled(p + 1) * d == q * w + w) by (nonlinear_arith)
            requires
                scaled(p) == q * e,
                scaled(p + 1) == q * e + e,
                w == e * d,
        ;
        assert(twice_midpoint(p) * d == 2 * (q * w) + w) by (nonlinear_arith)
            requires
                twice_midpoint(p) == scaled(p) + scaled(p + 1),
                scaled(p) * d == q * w,
                scaled(p + 1) * d == q * w + w,
        ;
        if p > 0 {
            lemma_scaled_next((p - 1) as nat);
            assert(twice_midpoint((p - 1) as nat) * d < 2 * (q * w)) by (nonlinear_arith)
                requires
                    twice_midpoint((p - 1) as nat) < 2 * scaled(p),
                    scaled(p) * d == q * w,
                    d > 0,
            ;
        }
        assert(twice_midpoint(p + 1) * d > 2 * (q * w) + 2 * w) by (nonlinear_arith)
            requires
                twice_midpoint(p + 1) > 2 * scaled(p + 1),
                scaled(p + 1) * d == q * w + w,
                d > 0,
        ;
    }
}

/// Rounds `n / d`, known through `brackets`, to a magnitude. Where something
/// was cut off, the significand still holds 55 bits or more.
pub(crate) fn round_pack(
    sig: u128,
    u: i32,
    inexact: bool,
    Ghost(k): Ghost<nat>,
    Ghost(n): Ghost<nat>,
    Ghost(d): Ghost<nat>,
) -> (p: u64)
    requires
        brackets(sig as nat, u as int, k, inexact, n, d),
        inexact ==> sig >= 4 * HIDDEN_BIT,
        -5000 <= u <= 5000,
    ensures
        p <= INFINITY_BITS,
        rounds_to(n, d, p as nat),
        p == nearest(n, d),
{
    let mut sig: u128 = sig;
    let mut u: i32 = u;
    let mut inexact: bool = inexact;
    let ghost mut width: nat = 128;
    proof {
        lemma2_to64_rest();
        lemma_pow2_adds(64, 64);
    }
    while u < 0 || sig >= 0x40_0000_0000_0000
        invariant
            brackets(sig as nat, u as int, k, inexact, n, d),
            inexact ==> sig >= 2 * HIDDEN_BIT || u <= 0,
            sig < pow2(width),
            width <= 128,
            -5000 <= u,
            u <= 0 || u + width <= 5128,
        decreases (if u < 0 { -u } else { 0 }) + sig,
    {
        proof {
            lemma_halve(sig as nat, u as int, k, inexact, n, d);
            if sig > 0 {
                if width == 0 {
                    lemma2_to64();
                }
                lemma_pow2_unfold(width);
                width = (width - 1) as nat;
            }
        }
        inexact = inexact || sig % 2 == 1;
        sig = sig / 2;
        u = u + 1;
    }
    if sig == 0 && !inexact {
        proof {
            assert(brackets(0, 0, k, false, n, d)) by (nonlinear_arith)
                requires
                    brackets(0, u as int, k, false, n, d),
            ;
        }
        u = 0;
    }
    while u > 0 && sig < 0x20_0000_0000_0000 && !inexact
        invariant
            brackets(sig as nat, u as int, k, inexact, n, d),
            inexact ==> sig >= 2 * HIDDEN_BIT || u <= 0,
            sig < 4 * HIDDEN_BIT,
            0 <= u <= 5128,
            u > 0 ==> sig > 0,
        decreases u,
    {
        proof {
            lemma_double(sig as nat, u as int, k, n, d);
        }
        sig = sig * 2;
        u = u - 1;
    }
    proof {
        lemma_round_final(sig as nat, u as nat, k, inexact, n, d);
    }
    let p: u64 = if u >= 2046 {
        INFINITY_BITS
    } else {
        let q: u64 = (sig / 2) as u64;
        let floor: u64 = (u as u64) * HIDDEN_BIT + q;
        if sig % 2 == 1 && (inexact || q % 2 == 1) {
            floor + 1
        } else {
            floor
        }
    };
    proof {
        lemma_nearest_is(n, d, p as nat);
    }
    p
}

} // verus!
