//! Addition and subtraction.

use vstd::prelude::*;
use vstd::arithmetic::power2::{
    pow2, lemma_pow2_pos, lemma_pow2_unfold, lemma_pow2_adds, lemma_pow2_strictly_increases,
    lemma2_to64, lemma2_to64_rest,
};
use crate::geodesy::binary64::format::{
    SIGN_BIT, HIDDEN_BIT, INFINITY_BITS, QUIET_NAN, magnitude, is_negative, is_nan, is_infinite,
    signed, scaled, magnitude_of, with_sign, unpack, lemma_packed_parts, lemma_scaled_packed,
    lemma_scaled_increases,
};
use crate::geodesy::binary64::rounding::{nearest, brackets, round_pack, lemma_rounds_exact};

verus! {

/// The number of a finite pattern with its sign, multiplied by `2^1074`.
pub open spec fn signed_scaled(bits: u64) -> int {
    if is_negative(bits) {
        -(scaled(magnitude(bits) as nat) as int)
    } else {
        scaled(magnitude(bits) as nat) as int
    }
}

/// The sum of two patterns: a NaN where one of them is a NaN or where they are
/// the two infinities, else the infinite one where one is infinite, else the
/// rounding of the exact sum. A sum that is exactly zero is the positive zero,
/// unless both patterns are negative.
pub open spec fn sum(a: u64, b: u64) -> u64 {
    if is_nan(a) || is_nan(b) || (is_infinite(a) && is_infinite(b) && is_negative(a) != is_negative(
        b,
    )) {
        QUIET_NAN
    } else if is_infinite(a) {
        a
    } else if is_infinite(b) {
        b
    } else {
        let s = signed_scaled(a) + signed_scaled(b);
        if s == 0 {
            signed(is_negative(a) && is_negative(b), 0)
        } else if s > 0 {
            signed(false, nearest(s as nat, 1) as u64)
        } else {
            signed(true, nearest((-s) as nat, 1) as u64)
        }
    }
}

/// The pattern with the other sign.
pub open spec fn negated(bits: u64) -> u64 {
    if bits >= SIGN_BIT {
        (bits - SIGN_BIT) as u64
    } else {
        (bits + SIGN_BIT) as u64
    }
}

/// The difference of two patterns: the sum of the first and the negated second.
pub open spec fn difference(a: u64, b: u64) -> u64 {
    sum(a, negated(b))
}

/// The exact sum or difference of two magnitudes.
pub open spec fn combined(ma: nat, mb: nat, subtract: bool) -> int {
    if subtract {
        scaled(ma) - scaled(mb)
    } else {
        scaled(ma) as int + scaled(mb)
    }
}

/// With the greater significand brought to the binade of the smaller, the sum
/// or difference of the two is exact.
proof fn lemma_near(sa: nat, ea: nat, sb: nat, eb: nat, t: nat, subtract: bool)
    requires
        ea >= eb,
        t == sa * pow2((ea - eb) as nat),
        subtract ==> sa * pow2(ea) >= sb * pow2(eb),
    ensures
        subtract ==> t >= sb,
        brackets(
            if subtract {
                (t - sb) as nat
            } else {
                t + sb
            },
            (eb + 1) as int,
            0,
            false,
            if subtract {
                (sa * pow2(ea) - sb * pow2(eb)) as nat
            } else {
                sa * pow2(ea) + sb * pow2(eb)
            },
            1,
        ),
{
    let x = pow2((ea - eb) as nat);
    let y = pow2(eb);
    lemma_pow2_adds((ea - eb) as nat, eb);
    lemma_pow2_unfold(eb + 1);
    lemma_pow2_pos(eb);
    lemma2_to64();
    assert(sa * (x * y) == t * y) by (nonlinear_arith)
        requires
            t == sa * x,
    ;
    if subtract {
        assert(t >= sb) by (nonlinear_arith)
            requires
                t * y >= sb * y,
                y > 0,
        ;
        assert(2 * (t * y - sb * y) * 1 == (t - sb) * ((2 * y) * 1)) by (nonlinear_arith);
    } else {
        assert(2 * (t * y + sb * y) * 1 == (t + sb) * ((2 * y) * 1)) by (nonlinear_arith);
    }
}

/// Where the smaller magnitude lies wholly below the third bit under the
/// greater significand, it only tells on which side of the greater the result
/// lies.
proof fn lemma_far(sa: nat, ea: nat, sb: nat, eb: nat, subtract: bool)
    requires
        ea >= eb + 56,
        0 < sb < 2 * HIDDEN_BIT,
        sa >= HIDDEN_BIT,
    ensures
        brackets(
            if subtract {
                (8 * sa - 1) as nat
            } else {
                8 * sa
            },
            ea - 2,
            0,
            true,
            if subtract {
                (sa * pow2(ea) - sb * pow2(eb)) as nat
            } else {
                sa * pow2(ea) + sb * pow2(eb)
            },
            1,
        ),
{
    let x = pow2((ea - 2) as nat);
    let y = pow2(eb);
    lemma_pow2_unfold(ea);
    lemma_pow2_unfold((ea - 1) as nat);
    lemma_pow2_pos(eb);
    lemma_pow2_adds(54, eb);
    lemma2_to64();
    lemma2_to64_rest();
    if 54 + eb < ea - 2 {
        lemma_pow2_strictly_increases(54 + eb, (ea - 2) as nat);
    }
    assert(2 * (sb * y) < x) by (nonlinear_arith)
        requires
            sb < 0x20_0000_0000_0000,
            0x40_0000_0000_0000 * y <= x,
            y > 0,
    ;
    assert(sb * y > 0) by (nonlinear_arith)
        requires
            sb > 0,
            y > 0,
    ;
    assert(sa * (2 * (2 * x)) == 4 * (sa * x) && (8 * sa) * (x * 1) == 8 * (sa * x) && (8 * sa + 1)
        * (x * 1) == 8 * (sa * x) + x && (8 * sa - 1) * (x * 1) == 8 * (sa * x) - x)
        by (nonlinear_arith);
    assert(sa * x >= x) by (nonlinear_arith)
        requires
            sa >= 1,
            x >= 0,
    ;
}

/// The rounding of the sum or the difference of two finite magnitudes, the
/// greater one first.
fn combine(ma: u64, mb: u64, subtract: bool) -> (p: u64)
    requires
        0 < mb <= ma < INFINITY_BITS,
        subtract ==> mb < ma,
    ensures
        p <= INFINITY_BITS,
        p == nearest(combined(ma as nat, mb as nat, subtract) as nat, 1),
{
    let (sa, ea): (u64, u32) = unpack(ma);
    let (sb, eb): (u64, u32) = unpack(mb);
    let ghost n: nat = combined(ma as nat, mb as nat, subtract) as nat;
    proof {
        lemma_packed_parts(ma as nat);
        lemma_packed_parts(mb as nat);
        lemma_scaled_packed(ea as nat, sa as nat);
        lemma_scaled_packed(eb as nat, sb as nat);
        if mb < ma {
            lemma_scaled_increases(mb as nat, ma as nat);
        }
        assert(eb <= ea) by {
            if ma >= HIDDEN_BIT && mb >= HIDDEN_BIT {
                vstd::arithmetic::div_mod::lemma_div_is_ordered(
                    mb as int,
                    ma as int,
                    HIDDEN_BIT as int,
                );
            }
        }
    }
    let gap: u32 = ea - eb;
    if gap <= 64 {
        let mut t: u128 = sa as u128;
        let mut i: u32 = 0;
        proof {
            lemma2_to64();
        }
        while i < gap
            invariant
                i <= gap <= 64,
                t == sa * pow2(i as nat),
                sa < 2 * HIDDEN_BIT,
            decreases gap - i,
        {
            proof {
                lemma2_to64();
                lemma_pow2_unfold((i + 1) as nat);
                if i + 1 < 64 {
                    lemma_pow2_strictly_increases((i + 1) as nat, 64);
                }
                assert(sa * (2 * pow2(i as nat)) == 2 * (sa * pow2(i as nat))) by (nonlinear_arith);
                assert(sa * pow2((i + 1) as nat) < 0x20_0000_0000_0000 * 0x1_0000_0000_0000_0000)
                    by (nonlinear_arith)
                    requires
                        sa < 0x20_0000_0000_0000,
                        pow2((i + 1) as nat) <= 0x1_0000_0000_0000_0000,
                ;
            }
            t = t * 2;
            i = i + 1;
        }
        proof {
            lemma_near(sa as nat, ea as nat, sb as nat, eb as nat, t as nat, subtract);
            assert(t < 0x20_0000_0000_0000 * 0x1_0000_0000_0000_0000) by {
                if gap < 64 {
                    lemma_pow2_strictly_increases(gap as nat, 64);
                }
                assert(sa * pow2(gap as nat) < 0x20_0000_0000_0000 * 0x1_0000_0000_0000_0000)
                    by (nonlinear_arith)
                    requires
                        sa < 0x20_0000_0000_0000,
                        pow2(gap as nat) <= 0x1_0000_0000_0000_0000,
                ;
            }
        }
        let sig: u128 = if subtract {
            t - sb as u128
        } else {
            t + sb as u128
        };
        round_pack(sig, eb as i32 + 1, false, Ghost(0), Ghost(n), Ghost(1))
    } else {
        proof {
            lemma_far(sa as nat, ea as nat, sb as nat, eb as nat, subtract);
        }
        let sig: u128 = if subtract {
            (sa as u128) * 8 - 1
        } else {
            (sa as u128) * 8
        };
        round_pack(sig, ea as i32 - 2, true, Ghost(0), Ghost(n), Ghost(1))
    }
}

/// The pattern with the other sign.
pub fn negate(bits: u64) -> (r: u64)
    ensures
        r == negated(bits),
{
    if bits >= SIGN_BIT {
        bits - SIGN_BIT
    } else {
        bits + SIGN_BIT
    }
}

/// Adds two patterns.
pub fn plus(a: u64, b: u64) -> (r: u64)
    ensures
        r == sum(a, b),
{
    let ma: u64 = magnitude_of(a);
    let mb: u64 = magnitude_of(b);
    let na: bool = a >= SIGN_BIT;
    let nb: bool = b >= SIGN_BIT;
    if ma > INFINITY_BITS || mb > INFINITY_BITS {
        return QUIET_NAN;
    }
    if ma == INFINITY_BITS {
        if mb == INFINITY_BITS && na != nb {
            return QUIET_NAN;
        }
        return a;
    }
    if mb == INFINITY_BITS {
        return b;
    }
    proof {
        lemma_scaled_packed(0, 0);
        lemma2_to64();
        assert(scaled(0) == 0);
        if ma > 0 {
            lemma_scaled_increases(0, ma as nat);
        }
        if mb > 0 {
            lemma_scaled_increases(0, mb as nat);
        }
    }
    if mb == 0 {
        if ma == 0 {
            return with_sign(na && nb, 0);
        }
        proof {
            lemma_rounds_exact(ma as nat, 1);
            assert(scaled(ma as nat) * 1 == scaled(ma as nat)) by (nonlinear_arith);
        }
        return a;
    }
    if ma == 0 {
        proof {
            lemma_rounds_exact(mb as nat, 1);
            assert(scaled(mb as nat) * 1 == scaled(mb as nat)) by (nonlinear_arith);
        }
        return b;
    }
    if na == nb {
        let p: u64 = if ma >= mb {
            combine(ma, mb, false)
        } else {
            combine(mb, ma, false)
        };
        with_sign(na, p)
    } else if ma == mb {
        0
    } else if ma > mb {
        proof {
            lemma_scaled_increases(mb as nat, ma as nat);
        }
        with_sign(na, combine(ma, mb, true))
    } else {
        proof {
            lemma_scaled_increases(ma as nat, mb as nat);
        }
        with_sign(nb, combine(mb, ma, true))
    }
}

/// Subtracts the second pattern from the first.
pub fn minus(a: u64, b: u64) -> (r: u64)
    ensures
        r == difference(a, b),
{
    plus(a, negate(b))
}

} // verus!
