//! The layout of a binary64 pattern and the number that it stands for.
//!
//! A pattern without its sign bit is called a magnitude. Magnitudes are ordered
//! as the numbers they stand for: zero, the subnormals, the normals, infinity,
//! and above infinity the NaNs. The number of a magnitude `m` up to infinity is
//! `scaled(m) / 2^1074`, so that the smallest subnormal has `scaled` 1 and
//! every magnitude has a whole `scaled`; infinity takes the place of `2^1024`.

use vstd::prelude::*;
use vstd::arithmetic::power2::{
    pow2, lemma_pow2_pos, lemma_pow2_unfold, lemma2_to64, lemma2_to64_rest,
};

verus! {

/// The sign bit.
pub const SIGN_BIT: u64 = 0x8000_0000_0000_0000;

/// The magnitude of infinity; every greater magnitude is a NaN.
pub const INFINITY_BITS: u64 = 0x7ff0_0000_0000_0000;

/// The bit above the 52 fraction bits, `2^52`.
pub const HIDDEN_BIT: u64 = 0x10_0000_0000_0000;

/// The NaN that every operation here returns when it returns a NaN.
pub const QUIET_NAN: u64 = 0x7ff8_0000_0000_0000;

/// The pattern without its sign bit.
pub open spec fn magnitude(bits: u64) -> u64 {
    if bits >= SIGN_BIT {
        (bits - SIGN_BIT) as u64
    } else {
        bits
    }
}

/// Whether the sign bit is set, as it may be on a zero, an infinity or a NaN
/// too.
pub open spec fn is_negative(bits: u64) -> bool {
    bits >= SIGN_BIT
}

/// Whether the pattern is no number.
pub open spec fn is_nan(bits: u64) -> bool {
    magnitude(bits) > INFINITY_BITS
}

/// Whether the pattern is one of the two infinities.
pub open spec fn is_infinite(bits: u64) -> bool {
    magnitude(bits) == INFINITY_BITS
}

/// Whether the pattern is a number: a zero, a subnormal or a normal one.
pub open spec fn is_finite(bits: u64) -> bool {
    magnitude(bits) < INFINITY_BITS
}

/// Whether the pattern is one of the two zeros.
pub open spec fn is_zero(bits: u64) -> bool {
    magnitude(bits) == 0
}

/// The magnitude of `m` under the sign `negative`.
pub open spec fn signed(negative: bool, m: u64) -> u64 {
    if negative {
        (magnitude(m) + SIGN_BIT) as u64
    } else {
        magnitude(m)
    }
}

/// The integer that the fraction bits stand for, with the hidden bit of a
/// normal number.
pub open spec fn significand(m: nat) -> nat {
    if m < HIDDEN_BIT {
        m
    } else {
        (HIDDEN_BIT + m % (HIDDEN_BIT as nat)) as nat
    }
}

/// The power of two by which the significand is multiplied in `scaled`.
pub open spec fn binade(m: nat) -> nat {
    if m < HIDDEN_BIT {
        0
    } else {
        (m / (HIDDEN_BIT as nat) - 1) as nat
    }
}

/// The number of the magnitude `m`, multiplied by `2^1074`.
pub open spec fn scaled(m: nat) -> nat {
    significand(m) * pow2(binade(m))
}

/// The size of a pattern: the number of its magnitude, multiplied by `2^1074`.
pub open spec fn size(bits: u64) -> nat {
    scaled(magnitude(bits) as nat)
}

/// The magnitude made of the significand `q` in the binade `s`.
pub open spec fn packed(s: nat, q: nat) -> nat {
    (s * HIDDEN_BIT + q) as nat
}

/// Whether `q` is a significand that the binade `s` can hold: any below `2^53`
/// in the lowest one, only those with the hidden bit further up.
pub open spec fn fits(s: nat, q: nat) -> bool {
    q < 2 * HIDDEN_BIT && (s > 0 ==> q >= HIDDEN_BIT)
}

/// The number of a packed magnitude is its significand times the power of two
/// of its binade, and packing is undone by `binade` and `significand`.
pub proof fn lemma_scaled_packed(s: nat, q: nat)
    requires
        fits(s, q),
    ensures
        scaled(packed(s, q)) == q * pow2(s),
        binade(packed(s, q)) == s,
        significand(packed(s, q)) == q,
{
    let m = packed(s, q);
    if q < HIDDEN_BIT {
        assert(s == 0);
        assert(m == q);
        lemma2_to64();
        assert(q * pow2(0) == q);
    } else {
        let f = (q - HIDDEN_BIT) as nat;
        assert(m == (s + 1) * HIDDEN_BIT + f);
        assert(m / (HIDDEN_BIT as nat) == s + 1 && m % (HIDDEN_BIT as nat) == f) by {
            vstd::arithmetic::div_mod::lemma_fundamental_div_mod_converse(
                m as int,
                HIDDEN_BIT as int,
                (s + 1) as int,
                f as int,
            );
        }
        assert(binade(m) == s);
        assert(significand(m) == q);
    }
}

/// Every magnitude is the packing of its own binade and significand.
pub proof fn lemma_packed_parts(m: nat)
    ensures
        fits(binade(m), significand(m)),
        packed(binade(m), significand(m)) == m,
{
    if m >= HIDDEN_BIT {
        let h = HIDDEN_BIT as nat;
        vstd::arithmetic::div_mod::lemma_fundamental_div_mod(m as int, h as int);
        assert(m == h * (m / h) + m % h);
        assert(m / h >= 1);
        assert(h * (m / h) == (m / h - 1) * h + h) by (nonlinear_arith);
    }
}

/// From one magnitude to the next the number grows by one unit of the binade.
pub proof fn lemma_scaled_next(m: nat)
    ensures
        scaled(m + 1) == scaled(m) + pow2(binade(m)),
        scaled(m) < scaled(m + 1),
{
    let s = binade(m);
    let q = significand(m);
    lemma_packed_parts(m);
    lemma_scaled_packed(s, q);
    lemma_pow2_pos(s);
    assert((q + 1) * pow2(s) == q * pow2(s) + pow2(s)) by (nonlinear_arith);
    if q + 1 < 2 * HIDDEN_BIT {
        assert(packed(s, q + 1) == m + 1);
        lemma_scaled_packed(s, q + 1);
    } else {
        assert(packed(s + 1, HIDDEN_BIT as nat) == m + 1);
        lemma_scaled_packed(s + 1, HIDDEN_BIT as nat);
        lemma_pow2_unfold(s + 1);
        assert(HIDDEN_BIT * (2 * pow2(s)) == (q + 1) * pow2(s)) by (nonlinear_arith)
            requires
                q + 1 == 2 * HIDDEN_BIT,
        ;
    }
}

/// Magnitudes are ordered as their numbers.
pub proof fn lemma_scaled_increases(a: nat, b: nat)
    requires
        a < b,
    ensures
        scaled(a) < scaled(b),
    decreases b - a,
{
    lemma_scaled_next(a);
    if a + 1 < b {
        lemma_scaled_increases(a + 1, b);
    }
}

/// A normal number lies between the power of two of its binade and the next.
pub proof fn lemma_scaled_bounds(m: nat)
    requires
        m >= HIDDEN_BIT,
    ensures
        pow2(binade(m) + 52) <= scaled(m) < pow2(binade(m) + 53),
{
    let s = binade(m);
    let q = significand(m);
    lemma_packed_parts(m);
    lemma_scaled_packed(s, q);
    lemma2_to64_rest();
    vstd::arithmetic::power2::lemma_pow2_adds(s, 52);
    vstd::arithmetic::power2::lemma_pow2_adds(s, 53);
    lemma_pow2_pos(s);
    assert(pow2(s) * pow2(52) <= q * pow2(s) < pow2(s) * pow2(53)) by (nonlinear_arith)
        requires
            pow2(52) <= q < pow2(53),
            pow2(s) > 0,
    ;
}

/// Infinity stands where `2^1024` would.
pub proof fn lemma_scaled_infinity()
    ensures
        scaled(INFINITY_BITS as nat) == HIDDEN_BIT * pow2(2046),
{
    assert(INFINITY_BITS as nat == packed(2046, HIDDEN_BIT as nat));
    lemma_scaled_packed(2046, HIDDEN_BIT as nat);
}

/// The pattern without its sign bit.
pub fn magnitude_of(bits: u64) -> (m: u64)
    ensures
        m == magnitude(bits),
{
    if bits >= SIGN_BIT {
        bits - SIGN_BIT
    } else {
        bits
    }
}

/// The magnitude of `m` under the sign `negative`.
pub fn with_sign(negative: bool, m: u64) -> (bits: u64)
    ensures
        bits == signed(negative, m),
        magnitude(bits) == magnitude(m),
        is_negative(bits) == negative,
{
    let magnitude: u64 = magnitude_of(m);
    if negative {
        magnitude + SIGN_BIT
    } else {
        magnitude
    }
}

/// Splits a magnitude into its significand and its binade.
pub fn unpack(m: u64) -> (parts: (u64, u32))
    ensures
        parts.0 == significand(m as nat),
        parts.1 == binade(m as nat),
        fits(parts.1 as nat, parts.0 as nat),
        m >= HIDDEN_BIT <==> parts.0 >= HIDDEN_BIT,
        m <= INFINITY_BITS ==> parts.1 <= 2046,
{
    proof {
        lemma_packed_parts(m as nat);
    }
    if m < HIDDEN_BIT {
        (m, 0)
    } else {
        let e: u64 = m / HIDDEN_BIT;
        let f: u64 = m % HIDDEN_BIT;
        ((HIDDEN_BIT + f), (e - 1) as u32)
    }
}

} // verus!
