//! Division.

use vstd::prelude::*;
use vstd::arithmetic::power2::{
    pow2, lemma_pow2_pos, lemma_pow2_unfold, lemma_pow2_adds, lemma2_to64, lemma2_to64_rest,
};
use crate::geodesy::binary64::format::{
    SIGN_BIT, HIDDEN_BIT, INFINITY_BITS, QUIET_NAN, magnitude, is_negative, is_nan, is_infinite,
    is_zero, signed, scaled, magnitude_of, with_sign, unpack, lemma_packed_parts, lemma_scaled_packed,
};
use crate::geodesy::binary64::rounding::{nearest, brackets, round_pack, lemma_rounds_zero};

verus! {

/// The quotient of two patterns: a NaN where one of them is a NaN, where both
/// are infinite or both zero, else, under the sign that the two signs give,
/// infinity where the first is infinite or the second zero, zero where the
/// second is infinite, else the rounding of the exact quotient.
pub open spec fn quotient(a: u64, b: u64) -> u64 {
    let negative = is_negative(a) != is_negative(b);
    if is_nan(a) || is_nan(b) || (is_infinite(a) && is_infinite(b)) || (is_zero(a) && is_zero(b)) {
        QUIET_NAN
    } else if is_infinite(a) || is_zero(b) {
        signed(negative, INFINITY_BITS)
    } else if is_infinite(b) {
        signed(negative, 0)
    } else {
        signed(
            negative,
            nearest(scaled(magnitude(a) as nat) * pow2(1074), scaled(magnitude(b) as nat)) as u64,
        )
    }
}

/// The long division `sa * 2^c * 2^64 = q * sb + r` brackets the quotient of
/// `sa * 2^ea` by `sb * 2^eb`.
proof fn lemma_quotient_brackets(sa: nat, ea: nat, c: nat, sb: nat, eb: nat, q: nat, r: nat)
    requires
        q * sb + r == (sa * pow2(c)) * pow2(64),
        r < sb,
    ensures
        brackets(
            q,
            ea - c - eb + 1011,
            c + eb,
            r != 0,
            (sa * pow2(ea)) * pow2(1074),
            sb * pow2(eb),
        ),
{
    let x = pow2(ea);
    let y = pow2(eb);
    let z = pow2(c);
    let h = pow2(1011);
    let t = (x * y) * h;
    lemma_pow2_pos(ea);
    lemma_pow2_pos(eb);
    lemma_pow2_pos(c);
    lemma_pow2_pos(1011);
    lemma_pow2_adds(ea, 1011);
    lemma_pow2_adds(c, eb);
    lemma_pow2_adds(1011, 64);
    lemma_pow2_unfold(1075);
    assert((ea - c - eb + 1011 + (c + eb)) as nat == ea + 1011);
    let w = pow2(ea + 1011) * (sb * y);
    let v = 2 * ((sa * x) * pow2(1074)) * pow2(c + eb);
    assert(t > 0) by (nonlinear_arith)
        requires
            t == (x * y) * h,
            x > 0,
            y > 0,
            h > 0,
    ;
    assert(w == sb * t) by (nonlinear_arith)
        requires
            w == (x * h) * (sb * y),
            t == (x * y) * h,
    ;
    assert(v == (q * sb + r) * t) by (nonlinear_arith)
        requires
            v == 2 * ((sa * x) * pow2(1074)) * (z * y),
            2 * pow2(1074) == h * pow2(64),
            q * sb + r == (sa * z) * pow2(64),
            t == (x * y) * h,
    ;
    assert(q * (sb * t) + r * t == (q * sb + r) * t && (q + 1) * (sb * t) == q * (sb * t) + sb * t)
        by (nonlinear_arith);
    assert(r * t < sb * t && (r > 0 ==> r * t > 0) && (r == 0 ==> r * t == 0)) by (nonlinear_arith)
        requires
            r < sb,
            t > 0,
    ;
    assert(sb * y > 0) by (nonlinear_arith)
        requires
            sb > 0,
            y > 0,
    ;
}

/// Divides the first pattern by the second.
pub fn divide(a: u64, b: u64) -> (r: u64)
    ensures
        r == quotient(a, b),
{
    let ma: u64 = magnitude_of(a);
    let mb: u64 = magnitude_of(b);
    let negative: bool = (a >= SIGN_BIT) != (b >= SIGN_BIT);
    if ma > INFINITY_BITS || mb > INFINITY_BITS {
        return QUIET_NAN;
    }
    if (ma == INFINITY_BITS && mb == INFINITY_BITS) || (ma == 0 && mb == 0) {
        return QUIET_NAN;
    }
    if ma == INFINITY_BITS || mb == 0 {
        return with_sign(negative, INFINITY_BITS);
    }
    if mb == INFINITY_BITS {
        return with_sign(negative, 0);
    }
    let ghost d: nat = scaled(mb as nat);
    let (sa0, ea): (u64, u32) = unpack(ma);
    let (sb, eb): (u64, u32) = unpack(mb);
    proof {
        lemma_packed_parts(ma as nat);
        lemma_packed_parts(mb as nat);
        lemma_scaled_packed(ea as nat, sa0 as nat);
        lemma_scaled_packed(eb as nat, sb as nat);
        lemma_pow2_pos(eb as nat);
        assert(d > 0) by (nonlinear_arith)
            requires
                d == sb * pow2(eb as nat),
                sb > 0,
                pow2(eb as nat) > 0,
        ;
    }
    if ma == 0 {
        proof {
            lemma_rounds_zero(d);
            assert(sa0 * pow2(ea as nat) * pow2(1074) == 0) by (nonlinear_arith)
                requires
                    sa0 == 0,
            ;
        }
        return with_sign(negative, 0);
    }
    let mut sa: u64 = sa0;
    let mut c: u32 = 0;
    proof {
        lemma2_to64();
    }
    while sa < HIDDEN_BIT
        invariant
            0 < sa < 2 * HIDDEN_BIT,
            sa == sa0 * pow2(c as nat),
            c <= 52,
            sa0 * pow2(c as nat) < HIDDEN_BIT ==> c < 52,
        decreases 52 - c,
    {
        proof {
            lemma_pow2_unfold((c + 1) as nat);
            assert(sa0 * (2 * pow2(c as nat)) == 2 * (sa0 * pow2(c as nat))) by (nonlinear_arith);
            if c + 1 >= 52 {
                // one step further the least significand has reached the hidden bit
                lemma2_to64_rest();
                vstd::arithmetic::power2::lemma_pow2_strictly_increases(51, (c + 1) as nat);
                assert(sa0 * pow2((c + 1) as nat) >= HIDDEN_BIT) by (nonlinear_arith)
                    requires
                        sa0 >= 1,
                        pow2((c + 1) as nat) >= HIDDEN_BIT,
                ;
            }
        }
        sa = sa * 2;
        c = c + 1;
    }
    let top: u128 = (sa as u128) * 0x1_0000_0000_0000_0000;
    let q: u128 = top / (sb as u128);
    let rem: u128 = top % (sb as u128);
    let u: i32 = ea as i32 - c as i32 - eb as i32 + 1011;
    let ghost n: nat = scaled(ma as nat) * pow2(1074);
    proof {
        lemma2_to64();
        assert(q * sb + rem == top) by {
            vstd::arithmetic::div_mod::lemma_fundamental_div_mod(top as int, sb as int);
            assert(sb * q == q * sb) by (nonlinear_arith);
        }
        assert(q >= 0x8000_0000_0000_0000) by (nonlinear_arith)
            requires
                q * sb + rem == sa * 0x1_0000_0000_0000_0000,
                sa >= 0x10_0000_0000_0000,
                sb < 0x20_0000_0000_0000,
                rem < sb,
        ;
        lemma_quotient_brackets(
            sa0 as nat,
            ea as nat,
            c as nat,
            sb as nat,
            eb as nat,
            q as nat,
            rem as nat,
        );
    }
    let p: u64 = round_pack(q, u, rem != 0, Ghost((c + eb) as nat), Ghost(n), Ghost(d));
    with_sign(negative, p)
}

} // verus!
