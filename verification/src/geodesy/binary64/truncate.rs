//! Truncation toward zero.

use vstd::prelude::*;
use vstd::arithmetic::power2::{
    pow2, lemma_pow2_pos, lemma_pow2_adds, lemma_pow2_strictly_increases, lemma2_to64_rest,
};
use crate::geodesy::binary64::format::{
    SIGN_BIT, HIDDEN_BIT, INFINITY_BITS, QUIET_NAN, magnitude, is_negative, is_nan, is_infinite,
    signed, scaled, packed, binade, significand, magnitude_of, with_sign, unpack,
    lemma_packed_parts, lemma_scaled_packed, lemma_scaled_increases,
};

verus! {

/// The whole part of the number of the magnitude `m`, multiplied by `2^1074`
/// as the number is in `scaled`.
pub open spec fn whole(m: nat) -> nat {
    (scaled(m) / pow2(1074)) * pow2(1074)
}

/// The magnitude that stands for the whole part of the number of `m`.
pub open spec fn truncated(m: nat) -> nat {
    choose|t: nat| scaled(t) == whole(m)
}

/// The pattern without what lies behind the binary point: an infinity is kept,
/// a NaN gives the quiet NaN, and a number keeps its sign, so that what lies
/// between zero and minus one gives the negative zero.
pub open spec fn truncation(a: u64) -> u64 {
    if is_nan(a) {
        QUIET_NAN
    } else if is_infinite(a) {
        a
    } else {
        signed(is_negative(a), truncated(magnitude(a) as nat) as u64)
    }
}

/// Only one magnitude stands for a given number.
pub proof fn lemma_truncated_is(m: nat, t: nat)
    requires
        scaled(t) == whole(m),
    ensures
        truncated(m) == t,
{
    let c = truncated(m);
    if c < t {
        lemma_scaled_increases(c, t);
    } else if t < c {
        lemma_scaled_increases(t, c);
    }
}

proof fn lemma_below_one(sig: nat, s: nat)
    requires
        sig < 2 * HIDDEN_BIT,
        s < 1022,
    ensures
        (sig * pow2(s)) / pow2(1074) == 0,
{
    lemma2_to64_rest();
    lemma_pow2_adds(53, 1021);
    lemma_pow2_pos(s);
    if s < 1021 {
        lemma_pow2_strictly_increases(s, 1021);
    }
    assert(sig * pow2(s) < pow2(53) * pow2(1021)) by (nonlinear_arith)
        requires
            sig < pow2(53),
            0 < pow2(s) <= pow2(1021),
    ;
    vstd::arithmetic::div_mod::lemma_basic_div(
        (sig * pow2(s)) as int,
        pow2(1074) as int,
    );
}

proof fn lemma_all_whole(sig: nat, s: nat)
    requires
        s >= 1074,
    ensures
        ((sig * pow2(s)) / pow2(1074)) * pow2(1074) == sig * pow2(s),
{
    let h = pow2(1074);
    let x = pow2((s - 1074) as nat);
    lemma_pow2_adds((s - 1074) as nat, 1074);
    lemma_pow2_pos(1074);
    assert(sig * (x * h) == (sig * x) * h + 0) by (nonlinear_arith);
    vstd::arithmetic::div_mod::lemma_fundamental_div_mod_converse(
        (sig * pow2(s)) as int,
        h as int,
        (sig * x) as int,
        0,
    );
}

/// Cutting the lowest `j` bits off a significand in the binade `1074 - j`
/// leaves the whole part.
proof fn lemma_cut(sig: nat, s: nat, j: nat, unit: nat)
    requires
        HIDDEN_BIT <= sig < 2 * HIDDEN_BIT,
        1 <= j <= 52,
        s + j == 1074,
        unit == pow2(j),
    ensures
        sig - sig % unit >= HIDDEN_BIT,
        ((sig * pow2(s)) / pow2(1074)) * pow2(1074) == (sig - sig % unit) * pow2(s),
{
    let h = pow2(1074);
    let y = pow2(s);
    let q = sig / unit;
    let r = sig % unit;
    let z = pow2((52 - j) as nat);
    lemma_pow2_pos(j);
    lemma_pow2_pos(s);
    lemma_pow2_adds(j, s);
    lemma_pow2_adds((52 - j) as nat, j);
    lemma2_to64_rest();
    vstd::arithmetic::div_mod::lemma_fundamental_div_mod(sig as int, unit as int);
    assert(sig == unit * q + r);
    assert(q >= z) by (nonlinear_arith)
        requires
            unit * q + r >= z * unit,
            r < unit,
            unit > 0,
    ;
    assert(unit * q >= z * unit) by (nonlinear_arith)
        requires
            q >= z,
            unit > 0,
    ;
    assert(r * y < h && sig * y == q * h + r * y && (unit * q) * y == q * h) by (nonlinear_arith)
        requires
            sig == unit * q + r,
            h == unit * y,
            r < unit,
            y > 0,
    ;
    vstd::arithmetic::div_mod::lemma_fundamental_div_mod_converse(
        (sig * y) as int,
        h as int,
        q as int,
        (r * y) as int,
    );
}

/// The whole part of a number is the number of a magnitude, which is no
/// greater than the magnitude of the number and less than one below it.
pub proof fn lemma_truncated_exists(m: nat)
    requires
        m <= INFINITY_BITS,
    ensures
        scaled(truncated(m)) == whole(m),
        truncated(m) <= m,
        whole(m) <= scaled(m) < whole(m) + pow2(1074),
{
    let s = binade(m);
    let sig = significand(m);
    lemma_packed_parts(m);
    lemma_scaled_packed(s, sig);
    let t: nat = if s >= 1074 {
        lemma_all_whole(sig, s);
        m
    } else if s < 1022 {
        lemma_below_one(sig, s);
        lemma_scaled_packed(0, 0);
        assert(whole(m) == 0 && scaled(0) == 0) by (nonlinear_arith)
            requires
                whole(m) == 0 * pow2(1074),
                scaled(0) == 0 * pow2(0),
        ;
        0
    } else {
        let j = (1074 - s) as nat;
        let unit = pow2(j);
        lemma_pow2_pos(j);
        lemma2_to64_rest();
        if j < 52 {
            lemma_pow2_strictly_increases(j, 52);
        }
        lemma_cut(sig, s, j, unit);
        let low = sig % unit;
        assert(m - low == packed(s, (sig - low) as nat));
        lemma_scaled_packed(s, (sig - low) as nat);
        (m - low) as nat
    };
    lemma_truncated_is(m, t);
    lemma_pow2_pos(1074);
    vstd::arithmetic::div_mod::lemma_fundamental_div_mod(scaled(m) as int, pow2(1074) as int);
    vstd::arithmetic::div_mod::lemma_mod_pos_bound(scaled(m) as int, pow2(1074) as int);
    assert(pow2(1074) * (scaled(m) / pow2(1074)) == (scaled(m) / pow2(1074)) * pow2(1074))
        by (nonlinear_arith);
}

/// Cuts off what lies behind the binary point.
pub fn truncate(a: u64) -> (r: u64)
    ensures
        r == truncation(a),
{
    let m: u64 = magnitude_of(a);
    if m > INFINITY_BITS {
        return QUIET_NAN;
    }
    if m == INFINITY_BITS {
        return a;
    }
    let (sig, s): (u64, u32) = unpack(m);
    proof {
        lemma_packed_parts(m as nat);
        lemma_scaled_packed(s as nat, sig as nat);
    }
    let t: u64 = if s >= 1074 {
        proof {
            lemma_all_whole(sig as nat, s as nat);
        }
        m
    } else if s < 1022 {
        proof {
            lemma_below_one(sig as nat, s as nat);
            lemma_scaled_packed(0, 0);
            assert(scaled(0) == 0) by (nonlinear_arith)
                requires
                    scaled(0) == 0 * pow2(0),
            ;
            assert(whole(m as nat) == 0) by (nonlinear_arith)
                requires
                    whole(m as nat) == 0 * pow2(1074),
            ;
        }
        0
    } else {
        let j: u64 = 1074 - s as u64;
        proof {
            lemma2_to64_rest();
            if j < 52 {
                lemma_pow2_strictly_increases(j as nat, 52);
            }
            lemma_pow2_pos(j as nat);
            vstd::bits::lemma_u64_shl_is_mul(1, j);
        }
        let unit: u64 = 1u64 << j;
        let low: u64 = sig % unit;
        proof {
            lemma_cut(sig as nat, s as nat, j as nat, unit as nat);
            assert(m - low == packed(s as nat, (sig - low) as nat));
            lemma_scaled_packed(s as nat, (sig - low) as nat);
        }
        m - low
    };
    proof {
        lemma_truncated_is(m as nat, t as nat);
    }
    with_sign(a >= SIGN_BIT, t)
}

} // verus!
