//! Angles, held in radians, and their conversions from and to other units.
//!
//! A conversion between units multiplies by one constant and divides by
//! another, rounding after each step. The variance is converted by the same two
//! steps as the value: it is scaled by the factor itself, not by its square.
//! Nothing is brought into a range and nothing is refused: what the arithmetic
//! gives for an input is the result, a NaN or an infinity included.

use vstd::prelude::*;
use vstd::arithmetic::power2::pow2;
use crate::geodesy::vv::F64v;
use crate::geodesy::binary64::format::{
    is_finite, is_nan, is_negative, is_zero, magnitude, size, scaled, lemma_scaled_bounds,
    lemma_scaled_increases,
};
use crate::geodesy::binary64::rounding::{nearest, lemma_rounding_exists, lemma_rounds_zero};
use crate::geodesy::binary64::multiply::{product, multiply};
use crate::geodesy::binary64::divide::{quotient, divide};
use crate::geodesy::binary64::addition::{sum, difference, plus};
use crate::geodesy::binary64::truncate::truncation;
use crate::geodesy::binary64::fraction::{fraction, fraction_of, lemma_fraction};
use crate::geodesy::binary64::accuracy::{
    precision, distance, is_normal, power_magnitude, lemma_power_magnitude, lemma_product_error,
    lemma_quotient_error, lemma_product_bounds, lemma_quotient_bounds, lemma_rounding_between,
};

verus! {

/// The binary64 number nearest to pi.
pub const PI: u64 = 0x4009_21fb_5444_2d18;

/// 180, the degrees of half a turn.
pub const HALF_TURN_DEGREES: u64 = 0x4066_8000_0000_0000;

/// 200, the gradians of half a turn.
pub const HALF_TURN_GRADIANS: u64 = 0x4069_0000_0000_0000;

/// 60, the minutes of a degree and the seconds of such a minute.
pub const SIXTY: u64 = 0x404e_0000_0000_0000;

/// 3600, the seconds of a degree.
pub const SIXTY_SQUARED: u64 = 0x40ac_2000_0000_0000;

/// 100, the minutes of a gradian and the seconds of such a minute.
pub const HUNDRED: u64 = 0x4059_0000_0000_0000;

/// 10000, the seconds of a gradian.
pub const HUNDRED_SQUARED: u64 = 0x40c3_8800_0000_0000;

/// An angle. It is kept in radians, whatever unit it was given in, and is not
/// brought into any range.
pub struct Angle {
    radians: F64v,
}

impl View for Angle {
    type V = F64v;

    /// The angle in radians.
    closed spec fn view(&self) -> F64v {
        self.radians
    }
}

/// `x * by / over`, rounded after the multiplication and again after the
/// division.
pub open spec fn rescaled(x: u64, by: u64, over: u64) -> u64 {
    quotient(product(x, by), over)
}

/// The scalar whose value and variance are those of `v`, each multiplied by `by`
/// and divided by `over`.
pub open spec fn converted(v: F64v, by: u64, over: u64) -> F64v {
    F64v { value: rescaled(v.value, by, over), variance: rescaled(v.variance, by, over) }
}

/// `unit + minutes / per + seconds / per_squared`, summed from the left and
/// rounded after each step.
pub open spec fn joined(unit: u64, minutes: u64, seconds: u64, per: u64, per_squared: u64) -> u64 {
    sum(sum(unit, quotient(minutes, per)), quotient(seconds, per_squared))
}

/// The scalar of a unit, its minutes and its seconds taken together: the values
/// joined, and the variances joined in the same way.
pub open spec fn composed(unit: F64v, minutes: F64v, seconds: F64v, per: u64, per_squared: u64) -> F64v {
    F64v {
        value: joined(unit.value, minutes.value, seconds.value, per, per_squared),
        variance: joined(unit.variance, minutes.variance, seconds.variance, per, per_squared),
    }
}

/// A scalar split into the unit, its minutes and its seconds. The unit keeps
/// the whole value, the minutes are its fraction times `per`, the seconds the
/// fraction of the minutes times `per`. Each of the three has the variance of
/// `v`, undivided.
pub open spec fn split(v: F64v, per: u64) -> (F64v, F64v, F64v) {
    let minutes = product(fraction(v.value), per);
    let seconds = product(fraction(minutes), per);
    (
        v,
        F64v { value: minutes, variance: v.variance },
        F64v { value: seconds, variance: v.variance },
    )
}

/// The radians of `value` degrees.
pub open spec fn degrees_in_radians(value: F64v) -> F64v {
    converted(value, PI, HALF_TURN_DEGREES)
}

/// The radians of `value` gradians.
pub open spec fn gradians_in_radians(value: F64v) -> F64v {
    converted(value, PI, HALF_TURN_GRADIANS)
}

/// The radians of degrees, minutes and seconds of arc.
pub open spec fn dms_in_radians(degrees: F64v, minutes: F64v, seconds: F64v) -> F64v {
    degrees_in_radians(composed(degrees, minutes, seconds, SIXTY, SIXTY_SQUARED))
}

/// The radians of gradians with their minutes and seconds.
pub open spec fn gms_in_radians(gradians: F64v, minutes: F64v, seconds: F64v) -> F64v {
    gradians_in_radians(composed(gradians, minutes, seconds, HUNDRED, HUNDRED_SQUARED))
}

/// The degrees of `radians`.
pub open spec fn radians_in_degrees(radians: F64v) -> F64v {
    converted(radians, HALF_TURN_DEGREES, PI)
}

/// The gradians of `radians`.
pub open spec fn radians_in_gradians(radians: F64v) -> F64v {
    converted(radians, HALF_TURN_GRADIANS, PI)
}

/// The degrees, minutes and seconds of arc of `radians`.
pub open spec fn radians_in_dms(radians: F64v) -> (F64v, F64v, F64v) {
    split(radians_in_degrees(radians), SIXTY)
}

/// The gradians of `radians` with their minutes and seconds.
pub open spec fn radians_in_gms(radians: F64v) -> (F64v, F64v, F64v) {
    split(radians_in_gradians(radians), HUNDRED)
}

fn rescale(x: u64, by: u64, over: u64) -> (r: u64)
    ensures
        r == rescaled(x, by, over),
{
    divide(multiply(x, by), over)
}

fn convert(v: F64v, by: u64, over: u64) -> (r: F64v)
    ensures
        r == converted(v, by, over),
{
    F64v { value: rescale(v.value, by, over), variance: rescale(v.variance, by, over) }
}

fn join(unit: u64, minutes: u64, seconds: u64, per: u64, per_squared: u64) -> (r: u64)
    ensures
        r == joined(unit, minutes, seconds, per, per_squared),
{
    plus(plus(unit, divide(minutes, per)), divide(seconds, per_squared))
}

fn compose(unit: F64v, minutes: F64v, seconds: F64v, per: u64, per_squared: u64) -> (r: F64v)
    ensures
        r == composed(unit, minutes, seconds, per, per_squared),
{
    F64v {
        value: join(unit.value, minutes.value, seconds.value, per, per_squared),
        variance: join(unit.variance, minutes.variance, seconds.variance, per, per_squared),
    }
}

fn split_up(v: F64v, per: u64) -> (r: (F64v, F64v, F64v))
    ensures
        r == split(v, per),
{
    let minutes: u64 = multiply(fraction_of(v.value), per);
    let seconds: u64 = multiply(fraction_of(minutes), per);
    (
        v,
        F64v { value: minutes, variance: v.variance },
        F64v { value: seconds, variance: v.variance },
    )
}

/* Constructors */

/// The angle of `value` radians.
pub fn radians(value: F64v) -> (angle: Angle)
    ensures
        angle@ == value,
{
    Angle { radians: value }
}

/// The angle of `value` degrees.
pub fn degrees(value: F64v) -> (angle: Angle)
    ensures
        angle@ == degrees_in_radians(value),
{
    Angle { radians: convert(value, PI, HALF_TURN_DEGREES) }
}

/// The angle of `value` gradians.
pub fn gradians(value: F64v) -> (angle: Angle)
    ensures
        angle@ == gradians_in_radians(value),
{
    Angle { radians: convert(value, PI, HALF_TURN_GRADIANS) }
}

/// The angle of degrees, minutes and seconds of arc.
pub fn dms(degrees: F64v, minutes: F64v, seconds: F64v) -> (angle: Angle)
    ensures
        angle@ == dms_in_radians(degrees, minutes, seconds),
{
    let whole: F64v = compose(degrees, minutes, seconds, SIXTY, SIXTY_SQUARED);
    Angle { radians: convert(whole, PI, HALF_TURN_DEGREES) }
}

/// The angle of gradians with their minutes and seconds.
pub fn gms(gradians: F64v, minutes: F64v, seconds: F64v) -> (angle: Angle)
    ensures
        angle@ == gms_in_radians(gradians, minutes, seconds),
{
    let whole: F64v = compose(gradians, minutes, seconds, HUNDRED, HUNDRED_SQUARED);
    Angle { radians: convert(whole, PI, HALF_TURN_GRADIANS) }
}

/* Converters */

impl Angle {
    /// The angle in radians, as it is kept.
    pub fn to_radians(angle: Angle) -> (value: F64v)
        ensures
            value == angle@,
    {
        angle.radians
    }

    /// The angle in degrees.
    pub fn to_degrees(angle: Angle) -> (value: F64v)
        ensures
            value == radians_in_degrees(angle@),
    {
        convert(angle.radians, HALF_TURN_DEGREES, PI)
    }

    /// The angle in gradians.
    pub fn to_gradians(angle: Angle) -> (value: F64v)
        ensures
            value == radians_in_gradians(angle@),
    {
        convert(angle.radians, HALF_TURN_GRADIANS, PI)
    }

    /// The angle in degrees, minutes and seconds of arc. The three variances
    /// are one and the same, that of the angle in degrees.
    pub fn to_dms(angle: Angle) -> (parts: (F64v, F64v, F64v))
        ensures
            parts == radians_in_dms(angle@),
            parts.0.variance == rescaled(angle@.variance, HALF_TURN_DEGREES, PI),
            parts.1.variance == parts.0.variance,
            parts.2.variance == parts.0.variance,
    {
        split_up(convert(angle.radians, HALF_TURN_DEGREES, PI), SIXTY)
    }

    /// The angle in gradians with their minutes and seconds. The three
    /// variances are one and the same, that of the angle in gradians.
    pub fn to_gms(angle: Angle) -> (parts: (F64v, F64v, F64v))
        ensures
            parts == radians_in_gms(angle@),
            parts.0.variance == rescaled(angle@.variance, HALF_TURN_GRADIANS, PI),
            parts.1.variance == parts.0.variance,
            parts.2.variance == parts.0.variance,
    {
        split_up(convert(angle.radians, HALF_TURN_GRADIANS, PI), HUNDRED)
    }
}

/// Whether `x` differs from `y` by at most one part in `parts` of `y`, both
/// being finite and of one sign.
pub open spec fn within(x: u64, y: u64, parts: nat) -> bool {
    &&& is_finite(x)
    &&& is_finite(y)
    &&& is_negative(x) == is_negative(y)
    &&& parts * distance(size(x), size(y)) <= size(y)
}

/// Whether `x` stays a normal number on the way there and back: multiplied by
/// `by`, divided by `over`, multiplied by `over` and divided by `by`, it is one
/// after each of the four steps, with no overflow and no loss of bits near zero.
pub open spec fn stays_normal(x: u64, by: u64, over: u64) -> bool {
    &&& is_normal(product(x, by))
    &&& is_normal(rescaled(x, by, over))
    &&& is_normal(product(rescaled(x, by, over), over))
    &&& is_normal(rescaled(rescaled(x, by, over), over, by))
}

/// `2^-1015`, the least size from which a value is shown to stay normal on its
/// way to radians and back.
pub const LEAST_SHOWN: u64 = 0x0080_0000_0000_0000;

/// `2^1020`, the greatest such size.
pub const GREATEST_SHOWN: u64 = 0x7fb0_0000_0000_0000;

/// Four roundings in a row, each exact to one part in `2^53`, stay within one
/// part in `10^15`.
proof fn lemma_four_roundings(a: nat, b: nat, c: nat, d: nat, f: nat)
    requires
        precision() * distance(b, a) <= b,
        precision() * distance(c, b) <= c,
        precision() * distance(d, c) <= d,
        precision() * distance(f, d) <= f,
    ensures
        1_000_000_000_000_000 * distance(f, a) <= a,
{
}

/// A number that stays normal on the way there and back comes back to within
/// one part in `10^15`.
pub proof fn lemma_there_and_back(x: u64, by: u64, over: u64)
    requires
        stays_normal(x, by, over),
    ensures
        within(rescaled(rescaled(x, by, over), over, by), x, 1_000_000_000_000_000),
{
    let y1 = product(x, by);
    let y2 = quotient(y1, over);
    let y3 = product(y2, over);
    let y4 = quotient(y3, by);
    let h = pow2(1074);
    lemma_product_error(x, by);
    lemma_quotient_error(y1, over);
    lemma_product_error(y2, over);
    lemma_quotient_error(y3, by);
    let a = size(x) * size(by);
    let f = size(y4) * size(by);
    lemma_four_roundings(a, size(y1) * h, size(y2) * size(over), size(y3) * h, f);
    assert(1_000_000_000_000_000 * distance(size(y4), size(x)) <= size(x)) by (nonlinear_arith)
        requires
            1_000_000_000_000_000 * distance(size(y4) * size(by), size(x) * size(by)) <= size(x)
                * size(by),
            size(by) > 0,
    ;
}

/// A size from `2^-1015` to `2^1020` stays normal on the way there and back,
/// where `by` lies from 2 to 4 and `over` from 128 to 256.
proof fn lemma_range_stays_normal(x: u64, by: u64, over: u64)
    requires
        LEAST_SHOWN <= magnitude(x) <= GREATEST_SHOWN,
        is_finite(by),
        is_finite(over),
        pow2(1075) <= size(by) <= pow2(1076),
        pow2(1081) <= size(over) <= pow2(1082),
    ensures
        stays_normal(x, by, over),
{
    let y1 = product(x, by);
    let y2 = quotient(y1, over);
    let y3 = product(y2, over);
    lemma_power_magnitude(59);
    lemma_power_magnitude(2094);
    assert(power_magnitude(59) == LEAST_SHOWN);
    assert(power_magnitude(2094) == GREATEST_SHOWN);
    if LEAST_SHOWN < magnitude(x) {
        lemma_scaled_increases(LEAST_SHOWN as nat, magnitude(x) as nat);
    }
    if magnitude(x) < GREATEST_SHOWN {
        lemma_scaled_increases(magnitude(x) as nat, GREATEST_SHOWN as nat);
    }
    lemma_product_bounds(x, by, 59, 2094, 1075, 1076);
    lemma_quotient_bounds(y1, over, 60, 2096, 1081, 1082);
    lemma_product_bounds(y2, over, 52, 2089, 1081, 1082);
    lemma_quotient_bounds(y3, by, 59, 2097, 1075, 1076);
}

/// A zero multiplied and divided by positive numbers, there and back, is the
/// same zero.
proof fn lemma_zero_there_and_back(x: u64, by: u64, over: u64)
    requires
        is_zero(x),
        is_finite(by),
        is_finite(over),
        !is_negative(by),
        !is_negative(over),
        size(by) > 0,
        size(over) > 0,
    ensures
        rescaled(rescaled(x, by, over), over, by) == x,
{
    vstd::arithmetic::power2::lemma_pow2_pos(1074);
    lemma_rounds_zero(pow2(1074));
    lemma_rounds_zero(size(by));
    lemma_rounds_zero(size(over));
    assert(size(x) == 0) by (nonlinear_arith)
        requires
            size(x) == 0 * pow2(0),
    ;
    assert(0 * size(by) == 0 && 0 * size(over) == 0 && 0 * pow2(1074) == 0) by (nonlinear_arith);
}

/// Degrees made into an angle and read in degrees again come back to within
/// one part in `10^15` of the value given, and so within one part in `10^9`:
/// a zero does, and so does every value that stays a normal number at each step
/// of the way.
pub proof fn lemma_degrees_come_back(value: F64v)
    requires
        is_zero(value.value) || stays_normal(value.value, PI, HALF_TURN_DEGREES),
    ensures
        within(
            radians_in_degrees(degrees_in_radians(value)).value,
            value.value,
            1_000_000_000_000_000,
        ),
        within(radians_in_degrees(degrees_in_radians(value)).value, value.value, 1_000_000_000),
{
    if is_zero(value.value) {
        lemma_scaled_bounds(PI as nat);
        lemma_scaled_bounds(HALF_TURN_DEGREES as nat);
        vstd::arithmetic::power2::lemma_pow2_pos(1075);
        vstd::arithmetic::power2::lemma_pow2_pos(1081);
        lemma_zero_there_and_back(value.value, PI, HALF_TURN_DEGREES);
    } else {
        lemma_there_and_back(value.value, PI, HALF_TURN_DEGREES);
    }
}

/// Gradians made into an angle and read in gradians again come back to within
/// one part in `10^15` of the value given, and so within one part in `10^9`:
/// a zero does, and so does every value that stays a normal number at each step
/// of the way.
pub proof fn lemma_gradians_come_back(value: F64v)
    requires
        is_zero(value.value) || stays_normal(value.value, PI, HALF_TURN_GRADIANS),
    ensures
        within(
            radians_in_gradians(gradians_in_radians(value)).value,
            value.value,
            1_000_000_000_000_000,
        ),
        within(radians_in_gradians(gradians_in_radians(value)).value, value.value, 1_000_000_000),
{
    if is_zero(value.value) {
        lemma_scaled_bounds(PI as nat);
        lemma_scaled_bounds(HALF_TURN_GRADIANS as nat);
        vstd::arithmetic::power2::lemma_pow2_pos(1075);
        vstd::arithmetic::power2::lemma_pow2_pos(1081);
        lemma_zero_there_and_back(value.value, PI, HALF_TURN_GRADIANS);
    } else {
        lemma_there_and_back(value.value, PI, HALF_TURN_GRADIANS);
    }
}

/// Every value of a size from `2^-1015` to `2^1020` stays a normal number on
/// its way from degrees or gradians to radians and back.
pub proof fn lemma_values_stay_normal(value: F64v)
    requires
        LEAST_SHOWN <= magnitude(value.value) <= GREATEST_SHOWN,
    ensures
        stays_normal(value.value, PI, HALF_TURN_DEGREES),
        stays_normal(value.value, PI, HALF_TURN_GRADIANS),
{
    lemma_scaled_bounds(PI as nat);
    lemma_scaled_bounds(HALF_TURN_DEGREES as nat);
    lemma_scaled_bounds(HALF_TURN_GRADIANS as nat);
    lemma_range_stays_normal(value.value, PI, HALF_TURN_DEGREES);
    lemma_range_stays_normal(value.value, PI, HALF_TURN_GRADIANS);
}

/// A NaN among the operands of an operation gives a NaN.
pub proof fn lemma_nan_spreads(a: u64, b: u64)
    requires
        is_nan(a) || is_nan(b),
    ensures
        is_nan(product(a, b)),
        is_nan(quotient(a, b)),
        is_nan(sum(a, b)),
        is_nan(difference(a, b)),
        is_nan(a) ==> is_nan(truncation(a)) && is_nan(fraction(a)),
{
}

/// A value that is a NaN stays one through every conversion, and so does a
/// variance: no conversion refuses it.
pub proof fn lemma_nan_passes_through(v: F64v, other: F64v, third: F64v)
    ensures
        is_nan(v.value) ==> {
            &&& is_nan(degrees_in_radians(v).value)
            &&& is_nan(gradians_in_radians(v).value)
            &&& is_nan(radians_in_degrees(v).value)
            &&& is_nan(radians_in_gradians(v).value)
            &&& is_nan(dms_in_radians(v, other, third).value)
            &&& is_nan(dms_in_radians(other, v, third).value)
            &&& is_nan(dms_in_radians(other, third, v).value)
            &&& is_nan(gms_in_radians(v, other, third).value)
            &&& is_nan(gms_in_radians(other, v, third).value)
            &&& is_nan(gms_in_radians(other, third, v).value)
            &&& is_nan(radians_in_dms(v).0.value)
            &&& is_nan(radians_in_dms(v).1.value)
            &&& is_nan(radians_in_dms(v).2.value)
            &&& is_nan(radians_in_gms(v).0.value)
            &&& is_nan(radians_in_gms(v).1.value)
            &&& is_nan(radians_in_gms(v).2.value)
        },
        is_nan(v.variance) ==> {
            &&& is_nan(degrees_in_radians(v).variance)
            &&& is_nan(gradians_in_radians(v).variance)
            &&& is_nan(radians_in_degrees(v).variance)
            &&& is_nan(radians_in_gradians(v).variance)
            &&& is_nan(dms_in_radians(v, other, third).variance)
            &&& is_nan(dms_in_radians(other, v, third).variance)
            &&& is_nan(dms_in_radians(other, third, v).variance)
            &&& is_nan(gms_in_radians(v, other, third).variance)
            &&& is_nan(gms_in_radians(other, v, third).variance)
            &&& is_nan(gms_in_radians(other, third, v).variance)
            &&& is_nan(radians_in_dms(v).0.variance)
            &&& is_nan(radians_in_dms(v).1.variance)
            &&& is_nan(radians_in_dms(v).2.variance)
            &&& is_nan(radians_in_gms(v).0.variance)
            &&& is_nan(radians_in_gms(v).1.variance)
            &&& is_nan(radians_in_gms(v).2.variance)
        },
{
}

/// In a split of a finite value by a positive finite `per`, the minutes and
/// the seconds are finite, and each is the positive zero or has the sign of the
/// value.
pub proof fn lemma_split_signs(v: F64v, per: u64)
    requires
        is_finite(v.value),
        is_finite(per),
        !is_negative(per),
    ensures
        is_finite(split(v, per).1.value),
        is_finite(split(v, per).2.value),
        split(v, per).1.value == 0 || is_negative(split(v, per).1.value) == is_negative(v.value),
        split(v, per).2.value == 0 || is_negative(split(v, per).2.value) == is_negative(v.value),
{
    let minutes = split(v, per).1.value;
    lemma_fraction_scaled(v.value, per);
    lemma_fraction_scaled(minutes, per);
    lemma_fraction(minutes);
}

/// The fraction of a finite number times a positive finite `per` is finite,
/// and it is the positive zero or has the sign of the number.
proof fn lemma_fraction_scaled(x: u64, per: u64)
    requires
        is_finite(x),
        is_finite(per),
        !is_negative(per),
    ensures
        is_finite(product(fraction(x), per)),
        product(fraction(x), per) == 0 || is_negative(product(fraction(x), per)) == is_negative(x),
        fraction(x) == 0 ==> product(fraction(x), per) == 0,
{
    let f = fraction(x);
    let n = size(f) * size(per);
    let d = pow2(1074);
    lemma_fraction(x);
    vstd::arithmetic::power2::lemma_pow2_pos(1074);
    lemma_rounding_exists(n, d);
    assert(scaled(0) * d <= n <= size(per) * d) by (nonlinear_arith)
        requires
            n == size(f) * size(per),
            size(f) <= d,
            scaled(0) == 0 * pow2(0),
    ;
    lemma_rounding_between(n, d, nearest(n, d), 0, magnitude(per) as nat);
    if f == 0 {
        lemma_rounds_zero(d);
        assert(n == 0) by (nonlinear_arith)
            requires
                n == size(f) * size(per),
                size(f) == 0 * pow2(0),
        ;
    }
}

/// The minutes and seconds of an angle whose degrees or gradians are finite are
/// finite, and each is the positive zero or has the sign of the degrees or
/// gradians.
pub proof fn lemma_minutes_keep_sign(radians: F64v)
    ensures
        is_finite(radians_in_dms(radians).0.value) ==> {
            let parts = radians_in_dms(radians);
            &&& is_finite(parts.1.value)
            &&& is_finite(parts.2.value)
            &&& parts.1.value == 0 || is_negative(parts.1.value) == is_negative(parts.0.value)
            &&& parts.2.value == 0 || is_negative(parts.2.value) == is_negative(parts.0.value)
        },
        is_finite(radians_in_gms(radians).0.value) ==> {
            let parts = radians_in_gms(radians);
            &&& is_finite(parts.1.value)
            &&& is_finite(parts.2.value)
            &&& parts.1.value == 0 || is_negative(parts.1.value) == is_negative(parts.0.value)
            &&& parts.2.value == 0 || is_negative(parts.2.value) == is_negative(parts.0.value)
        },
{
    if is_finite(radians_in_dms(radians).0.value) {
        lemma_split_signs(radians_in_degrees(radians), SIXTY);
    }
    if is_finite(radians_in_gms(radians).0.value) {
        lemma_split_signs(radians_in_gradians(radians), HUNDRED);
    }
}

/// An angle given in radians comes back in radians as it was given, bit for
/// bit.
pub proof fn lemma_radians_come_back(value: F64v, angle: Angle, back: F64v)
    requires
        call_ensures(radians, (value,), angle),
        call_ensures(Angle::to_radians, (angle,), back),
    ensures
        back == value,
{
}

} // verus!
