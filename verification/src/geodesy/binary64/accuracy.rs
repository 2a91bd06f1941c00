//! How far a rounded result lies from the exact one.
//!
//! A result in the normal range differs from the exact value by at most one
//! part in `2^53` of itself. Operands between powers of two that are not too
//! far out give a result in the normal range.

use vstd::prelude::*;
use vstd::arithmetic::power2::{
    pow2, lemma_pow2_pos, lemma_pow2_adds, lemma_pow2_strictly_increases, lemma2_to64_rest,
};
use crate::geodesy::binary64::format::{
    HIDDEN_BIT, INFINITY_BITS, magnitude, is_negative, is_finite, scaled, size, packed,
    binade, significand, lemma_packed_parts, lemma_scaled_packed, lemma_scaled_next,
    lemma_scaled_increases,
};
use crate::geodesy::binary64::rounding::{nearest, rounds_to, twice_midpoint, lemma_rounding_exists};
use crate::geodesy::binary64::multiply::product;
use crate::geodesy::binary64::divide::quotient;

verus! {

/// `2^53`: a rounded normal number is exact to one part in this many.
pub open spec fn precision() -> int {
    0x20_0000_0000_0000
}

/// How far apart two numbers are.
pub open spec fn distance(x: nat, y: nat) -> nat {
    if x >= y {
        (x - y) as nat
    } else {
        (y - x) as nat
    }
}

/// The magnitude of the power of two `2^e / 2^1074`, for `e` from 52.
pub open spec fn power_magnitude(e: nat) -> nat {
    packed((e - 52) as nat, HIDDEN_BIT as nat)
}

/// A power of two in the normal range is the number of a magnitude, which is
/// finite below `2^1024`.
pub proof fn lemma_power_magnitude(e: nat)
    requires
        52 <= e,
    ensures
        scaled(power_magnitude(e)) == pow2(e),
        power_magnitude(e) >= HIDDEN_BIT,
        e <= 2097 ==> power_magnitude(e) < INFINITY_BITS,
{
    lemma_scaled_packed((e - 52) as nat, HIDDEN_BIT as nat);
    lemma_pow2_adds(52, (e - 52) as nat);
    lemma2_to64_rest();
}

/// A fraction between the numbers of two magnitudes rounds to a magnitude
/// between the two.
pub proof fn lemma_rounding_between(n: nat, d: nat, p: nat, lo: nat, hi: nat)
    requires
        d > 0,
        rounds_to(n, d, p),
        hi <= INFINITY_BITS,
        scaled(lo) * d <= n <= scaled(hi) * d,
    ensures
        lo <= p <= hi,
{
    if hi < lo {
        lemma_scaled_increases(hi, lo);
        assert(scaled(hi) * d < scaled(lo) * d) by (nonlinear_arith)
            requires
                scaled(hi) < scaled(lo),
                d > 0,
        ;
    }
    if p < lo {
        lemma_scaled_next(p);
        if p + 1 < lo {
            lemma_scaled_increases(p + 1, lo);
        }
        assert(twice_midpoint(p) * d < 2 * (scaled(lo) * d)) by (nonlinear_arith)
            requires
                twice_midpoint(p) < 2 * scaled(lo),
                d > 0,
        ;
    }
    if p > hi {
        lemma_scaled_next((p - 1) as nat);
        if hi < p - 1 {
            lemma_scaled_increases(hi, (p - 1) as nat);
        }
        assert(twice_midpoint((p - 1) as nat) * d > 2 * (scaled(hi) * d)) by (nonlinear_arith)
            requires
                twice_midpoint((p - 1) as nat) > 2 * scaled(hi),
                d > 0,
        ;
    }
}

/// A normal number that a fraction rounds to differs from the fraction by at
/// most one part in `2^53` of itself.
pub proof fn lemma_rounding_error(n: nat, d: nat, p: nat)
    requires
        d > 0,
        rounds_to(n, d, p),
        HIDDEN_BIT <= p < INFINITY_BITS,
    ensures
        precision() * distance(scaled(p) * d, n) <= scaled(p) * d,
{
    let s = binade(p);
    let q = significand(p);
    let ulp = pow2(s);
    let before = (p - 1) as nat;
    let step = pow2(binade(before));
    let sp = scaled(p);
    let w = ulp * d;
    lemma_packed_parts(p);
    lemma_scaled_packed(s, q);
    lemma_scaled_next(p);
    lemma_scaled_next(before);
    assert(binade(before) <= s);
    if binade(before) < s {
        lemma_pow2_strictly_increases(binade(before), s);
    }
    assert(twice_midpoint(p) * d == 2 * (sp * d) + w) by (nonlinear_arith)
        requires
            twice_midpoint(p) == 2 * sp + ulp,
            w == ulp * d,
    ;
    assert(twice_midpoint(before) * d >= 2 * (sp * d) - w) by (nonlinear_arith)
        requires
            twice_midpoint(before) == 2 * sp - step,
            step <= ulp,
            w == ulp * d,
    ;
    assert(sp * d >= HIDDEN_BIT * w) by (nonlinear_arith)
        requires
            sp == q * ulp,
            q >= HIDDEN_BIT,
            w == ulp * d,
    ;
}

/// Whether the pattern is a normal number: finite, and no zero or subnormal,
/// so that its significand has all its 53 bits.
pub open spec fn is_normal(bits: u64) -> bool {
    HIDDEN_BIT <= magnitude(bits) < INFINITY_BITS
}

/// A product that is a normal number has the sign that the two signs give and
/// differs from the exact product by at most one part in `2^53` of itself.
pub proof fn lemma_product_error(a: u64, b: u64)
    requires
        is_normal(product(a, b)),
    ensures
        is_finite(a),
        is_finite(b),
        is_negative(product(a, b)) == (is_negative(a) != is_negative(b)),
        precision() * distance(size(product(a, b)) * pow2(1074), size(a) * size(b)) <= size(
            product(a, b),
        ) * pow2(1074),
{
    let n = size(a) * size(b);
    let d = pow2(1074);
    lemma_pow2_pos(1074);
    lemma_rounding_exists(n, d);
    lemma_rounding_error(n, d, nearest(n, d));
}

/// A quotient that is a normal number has the sign that the two signs give and
/// differs from the exact quotient by at most one part in `2^53` of itself.
pub proof fn lemma_quotient_error(a: u64, b: u64)
    requires
        is_normal(quotient(a, b)),
    ensures
        is_finite(a),
        is_finite(b),
        size(b) > 0,
        is_negative(quotient(a, b)) == (is_negative(a) != is_negative(b)),
        precision() * distance(size(quotient(a, b)) * size(b), size(a) * pow2(1074)) <= size(
            quotient(a, b),
        ) * size(b),
{
    let n = size(a) * pow2(1074);
    let d = size(b);
    lemma_scaled_packed(0, 0);
    if magnitude(b) > 0 {
        lemma_scaled_increases(0, magnitude(b) as nat);
    }
    lemma_rounding_exists(n, d);
    lemma_rounding_error(n, d, nearest(n, d));
}

/// The product of two finite patterns whose sizes lie between powers of two is
/// a normal number between the products of the bounds, where these are in the
/// normal range.
pub proof fn lemma_product_bounds(a: u64, b: u64, la: nat, ha: nat, lb: nat, hb: nat)
    requires
        is_finite(a),
        is_finite(b),
        pow2(la) <= size(a) <= pow2(ha),
        pow2(lb) <= size(b) <= pow2(hb),
        la + lb >= 1074 + 52,
        ha + hb <= 1074 + 2097,
    ensures
        is_normal(product(a, b)),
        pow2((la + lb - 1074) as nat) <= size(product(a, b)) <= pow2((ha + hb - 1074) as nat),
{
    let n = size(a) * size(b);
    let d = pow2(1074);
    let p = nearest(n, d);
    let lo = power_magnitude((la + lb - 1074) as nat);
    let hi = power_magnitude((ha + hb - 1074) as nat);
    lemma_pow2_pos(1074);
    lemma_exponents_ordered(la, ha);
    lemma_exponents_ordered(lb, hb);
    lemma_rounding_exists(n, d);
    lemma_power_magnitude((la + lb - 1074) as nat);
    lemma_power_magnitude((ha + hb - 1074) as nat);
    lemma_pow2_adds((la + lb - 1074) as nat, 1074);
    lemma_pow2_adds((ha + hb - 1074) as nat, 1074);
    lemma_pow2_adds(la, lb);
    lemma_pow2_adds(ha, hb);
    assert(pow2(la) * pow2(lb) <= size(a) * size(b) <= pow2(ha) * pow2(hb)) by (nonlinear_arith)
        requires
            pow2(la) <= size(a) <= pow2(ha),
            pow2(lb) <= size(b) <= pow2(hb),
    ;
    lemma_rounding_between(n, d, p, lo, hi);
    lemma_bounded_size(p, lo, hi);
}

/// The quotient of two finite patterns whose sizes lie between powers of two is
/// a normal number between the quotients of the bounds, where these are in the
/// normal range.
pub proof fn lemma_quotient_bounds(a: u64, b: u64, la: nat, ha: nat, lb: nat, hb: nat)
    requires
        is_finite(a),
        is_finite(b),
        pow2(la) <= size(a) <= pow2(ha),
        pow2(lb) <= size(b) <= pow2(hb),
        la + 1074 >= hb + 52,
        ha + 1074 <= lb + 2097,
    ensures
        is_normal(quotient(a, b)),
        pow2((la + 1074 - hb) as nat) <= size(quotient(a, b)) <= pow2((ha + 1074 - lb) as nat),
{
    let n = size(a) * pow2(1074);
    let d = size(b);
    let p = nearest(n, d);
    let lo = power_magnitude((la + 1074 - hb) as nat);
    let hi = power_magnitude((ha + 1074 - lb) as nat);
    lemma_pow2_pos(lb);
    lemma_pow2_pos(1074);
    lemma_scaled_packed(0, 0);
    assert(magnitude(b) != 0);
    lemma_exponents_ordered(la, ha);
    lemma_exponents_ordered(lb, hb);
    lemma_rounding_exists(n, d);
    lemma_power_magnitude((la + 1074 - hb) as nat);
    lemma_power_magnitude((ha + 1074 - lb) as nat);
    lemma_pow2_adds((la + 1074 - hb) as nat, hb);
    lemma_pow2_adds((ha + 1074 - lb) as nat, lb);
    lemma_pow2_adds(la, 1074);
    lemma_pow2_adds(ha, 1074);
    assert(pow2((la + 1074 - hb) as nat) * size(b) <= pow2((la + 1074 - hb) as nat) * pow2(hb)
        && pow2(la) * pow2(1074) <= size(a) * pow2(1074) <= pow2(ha) * pow2(1074) && pow2(
        (ha + 1074 - lb) as nat,
    ) * pow2(lb) <= pow2((ha + 1074 - lb) as nat) * size(b)) by (nonlinear_arith)
        requires
            pow2(la) <= size(a) <= pow2(ha),
            pow2(lb) <= size(b) <= pow2(hb),
    ;
    lemma_rounding_between(n, d, p, lo, hi);
    lemma_bounded_size(p, lo, hi);
}

proof fn lemma_exponents_ordered(l: nat, h: nat)
    requires
        pow2(l) <= pow2(h),
    ensures
        l <= h,
{
    if h < l {
        lemma_pow2_strictly_increases(h, l);
    }
}

proof fn lemma_bounded_size(p: nat, lo: nat, hi: nat)
    requires
        lo <= p <= hi,
    ensures
        scaled(lo) <= scaled(p) <= scaled(hi),
{
    if lo < p {
        lemma_scaled_increases(lo, p);
    }
    if p < hi {
        lemma_scaled_increases(p, hi);
    }
}

} // verus!
