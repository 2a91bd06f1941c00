//! Multiplication.

use vstd::prelude::*;
use vstd::arithmetic::power2::{pow2, lemma_pow2_unfold, lemma_pow2_adds};
use crate::geodesy::binary64::format::{
    SIGN_BIT, INFINITY_BITS, QUIET_NAN, magnitude, is_negative, is_nan, is_infinite,
    is_zero, signed, scaled, magnitude_of, with_sign, unpack, lemma_packed_parts, lemma_scaled_packed,
};
use crate::geodesy::binary64::rounding::{nearest, brackets, round_pack};

verus! {

/// The product of two patterns: a NaN where one of them is a NaN or where zero
/// meets infinity, else, under the sign that the two signs give, infinity where
/// one of them is infinite, else the rounding of the exact product.
pub open spec fn product(a: u64, b: u64) -> u64 {
    let negative = is_negative(a) != is_negative(b);
    if is_nan(a) || is_nan(b) || (is_infinite(a) && is_zero(b)) || (is_zero(a) && is_infinite(b)) {
        QUIET_NAN
    } else if is_infinite(a) || is_infinite(b) {
        signed(negative, INFINITY_BITS)
    } else {
        signed(
            negative,
            nearest(scaled(magnitude(a) as nat) * scaled(magnitude(b) as nat), pow2(1074)) as u64,
        )
    }
}

proof fn lemma_product_brackets(sa: nat, ea: nat, sb: nat, eb: nat)
    ensures
        brackets(
            sa * sb,
            ea + eb - 1073,
            1073,
            false,
            (sa * pow2(ea)) * (sb * pow2(eb)),
            pow2(1074),
        ),
{
    let x = pow2(ea);
    let y = pow2(eb);
    let c = pow2(1073);
    lemma_pow2_adds(ea, eb);
    lemma_pow2_unfold(1074);
    vstd::arithmetic::power2::lemma_pow2_pos(1074);
    assert(2 * ((sa * x) * (sb * y)) * c == (sa * sb) * ((x * y) * (2 * c))) by (nonlinear_arith);
}

/// Multiplies two patterns.
pub fn multiply(a: u64, b: u64) -> (r: u64)
    ensures
        r == product(a, b),
{
    let ma: u64 = magnitude_of(a);
    let mb: u64 = magnitude_of(b);
    let negative: bool = (a >= SIGN_BIT) != (b >= SIGN_BIT);
    if ma > INFINITY_BITS || mb > INFINITY_BITS {
        return QUIET_NAN;
    }
    if ma == INFINITY_BITS || mb == INFINITY_BITS {
        if ma == 0 || mb == 0 {
            return QUIET_NAN;
        }
        return with_sign(negative, INFINITY_BITS);
    }
    let (sa, ea): (u64, u32) = unpack(ma);
    let (sb, eb): (u64, u32) = unpack(mb);
    assert(sa * sb < 0x400_0000_0000_0000_0000_0000_0000) by (nonlinear_arith)
        requires
            sa < 0x20_0000_0000_0000,
            sb < 0x20_0000_0000_0000,
    ;
    let sig: u128 = (sa as u128) * (sb as u128);
    let u: i32 = ea as i32 + eb as i32 - 1073;
    let ghost n: nat = scaled(ma as nat) * scaled(mb as nat);
    proof {
        lemma_packed_parts(ma as nat);
        lemma_packed_parts(mb as nat);
        lemma_scaled_packed(ea as nat, sa as nat);
        lemma_scaled_packed(eb as nat, sb as nat);
        lemma_product_brackets(sa as nat, ea as nat, sb as nat, eb as nat);
    }
    let p: u64 = round_pack(sig, u, false, Ghost(1073), Ghost(n), Ghost(pow2(1074)));
    with_sign(negative, p)
}

} // verus!
