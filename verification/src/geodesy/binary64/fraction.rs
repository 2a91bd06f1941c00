//! The part of a number behind the binary point.

use vstd::prelude::*;
use vstd::arithmetic::power2::pow2;
use crate::geodesy::binary64::format::{
    is_finite, is_nan, is_negative, is_zero, magnitude, scaled, size, lemma_scaled_increases,
};
use crate::geodesy::binary64::rounding::{nearest, lemma_rounding_exists};
use crate::geodesy::binary64::addition::{difference, negated, minus};
use crate::geodesy::binary64::truncate::{truncation, truncated, truncate, lemma_truncated_exists};
use crate::geodesy::binary64::accuracy::{
    power_magnitude, lemma_power_magnitude, lemma_rounding_between,
};

verus! {

/// What lies behind the point of `x`, with the sign of `x`: `x` less its
/// truncation.
pub open spec fn fraction(x: u64) -> u64 {
    difference(x, truncation(x))
}

/// Keeps what lies behind the binary point.
pub fn fraction_of(x: u64) -> (r: u64)
    ensures
        r == fraction(x),
{
    minus(x, truncate(x))
}

/// The fraction of a finite number is finite and no greater than one, and it
/// is the positive zero or has the sign of the number; that of a whole number,
/// zero among them, is the positive zero. An infinity and a NaN have a NaN for
/// their fraction.
pub proof fn lemma_fraction(x: u64)
    ensures
        is_finite(x) ==> is_finite(fraction(x)) && size(fraction(x)) <= pow2(1074),
        is_finite(x) ==> fraction(x) == 0 || is_negative(fraction(x)) == is_negative(x),
        is_finite(x) && size(x) % pow2(1074) == 0 ==> fraction(x) == 0,
        is_zero(x) ==> fraction(x) == 0,
        !is_finite(x) ==> is_nan(fraction(x)),
{
    if is_finite(x) {
        let m = magnitude(x) as nat;
        let t = truncated(m);
        let rest = (scaled(m) - scaled(t)) as nat;
        let cut = truncation(x);
        let one = power_magnitude(1074);
        lemma_truncated_exists(m);
        lemma_power_magnitude(1074);
        assert(magnitude(cut) == t && is_negative(cut) == is_negative(x));
        assert(magnitude(negated(cut)) == t && is_negative(negated(cut)) != is_negative(x));
        assert(scaled(0) == 0) by (nonlinear_arith)
            requires
                scaled(0) == 0 * pow2(0),
        ;
        vstd::arithmetic::power2::lemma_pow2_pos(1074);
        vstd::arithmetic::div_mod::lemma_fundamental_div_mod(scaled(m) as int, pow2(1074) as int);
        assert(pow2(1074) * (scaled(m) / pow2(1074)) == (scaled(m) / pow2(1074)) * pow2(1074))
            by (nonlinear_arith);
        if rest > 0 {
            lemma_rounding_exists(rest, 1);
            assert(scaled(one) * 1 == pow2(1074) && scaled(0) * 1 == 0) by (nonlinear_arith)
                requires
                    scaled(one) == pow2(1074),
                    scaled(0) == 0,
            ;
            lemma_rounding_between(rest, 1, nearest(rest, 1), 0, one);
            if nearest(rest, 1) < one {
                lemma_scaled_increases(nearest(rest, 1), one);
            }
        }
    }
}

} // verus!
