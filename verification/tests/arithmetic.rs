use vermessungskunde::geodesy::binary64::addition::{minus, negate, plus};
use vermessungskunde::geodesy::binary64::format::{magnitude_of, unpack, with_sign};
use vermessungskunde::geodesy::binary64::fraction::fraction_of;
use vermessungskunde::geodesy::binary64::divide::divide;
use vermessungskunde::geodesy::binary64::truncate::truncate;
use vermessungskunde::geodesy::binary64::multiply::multiply;

/// Bit patterns that between them reach every branch of the arithmetic.
fn samples() -> Vec<u64> {
    let mut all: Vec<u64> = vec![
        0x0000_0000_0000_0000,
        0x0000_0000_0000_0001,
        0x0000_0000_0000_0002,
        0x0000_0000_0000_0003,
        0x0000_0000_8000_0000,
        0x0007_ffff_ffff_ffff,
        0x0008_0000_0000_0000,
        0x000f_ffff_ffff_ffff,
        0x0010_0000_0000_0000,
        0x0010_0000_0000_0001,
        0x001f_ffff_ffff_ffff,
        0x0020_0000_0000_0000,
        0x0340_0000_0000_0000,
        0x1ff0_0000_0000_0001,
        0x2000_0000_0000_0000,
        0x3ca0_0000_0000_0000,
        0x3cb0_0000_0000_0000,
        0x3fd5_5555_5555_5555,
        0x3fe0_0000_0000_0000,
        0x3fef_ffff_ffff_ffff,
        0x3ff0_0000_0000_0000,
        0x3ff0_0000_0000_0001,
        0x3ff8_0000_0000_0000,
        0x3fff_ffff_ffff_ffff,
        0x4000_0000_0000_0000,
        0x4008_0000_0000_0000,
        0x4009_21fb_5444_2d18,
        0x4024_0000_0000_0000,
        0x404e_0000_0000_0000,
        0x4059_0000_0000_0000,
        0x4066_8000_0000_0000,
        0x4069_0000_0000_0000,
        0x40ac_2000_0000_0000,
        0x40c3_8800_0000_0000,
        0x4330_0000_0000_0000,
        0x4330_0000_0000_0001,
        0x433f_ffff_ffff_ffff,
        0x4340_0000_0000_0000,
        0x5fe0_0000_0000_0000,
        0x5ff0_0000_0000_0000,
        0x7fd0_0000_0000_0000,
        0x7fe0_0000_0000_0000,
        0x7fef_ffff_ffff_fffe,
        0x7fef_ffff_ffff_ffff,
        0x7ff0_0000_0000_0000,
        0x7ff0_0000_0000_0001,
        0x7ff8_0000_0000_0000,
        0x7fff_ffff_ffff_ffff,
    ];
    let mut state: u64 = 0x9e37_79b9_7f4a_7c15;
    for _ in 0..200 {
        state ^= state << 13;
        state ^= state >> 7;
        state ^= state << 17;
        all.push(state & 0x7fff_ffff_ffff_ffff);
    }
    let positive = all.clone();
    for m in positive {
        all.push(m | 0x8000_0000_0000_0000);
    }
    all
}

/// The same number: the same bits, or a NaN on both sides.
fn same(ours: u64, theirs: f64) -> bool {
    if theirs.is_nan() {
        f64::from_bits(ours).is_nan()
    } else {
        ours == theirs.to_bits()
    }
}

#[test]
fn multiply_agrees_with_the_machine() {
    let all = samples();
    for &a in &all {
        for &b in &all {
            let theirs = f64::from_bits(a) * f64::from_bits(b);
            assert!(same(multiply(a, b), theirs), "{:#018x} * {:#018x}", a, b);
        }
    }
}

#[test]
fn divide_agrees_with_the_machine() {
    let all = samples();
    for &a in &all {
        for &b in &all {
            let theirs = f64::from_bits(a) / f64::from_bits(b);
            assert!(same(divide(a, b), theirs), "{:#018x} / {:#018x}", a, b);
        }
    }
}

#[test]
fn multiply_rounds_ties_to_even() {
    // (1 + 2^-52) * (1 + 2^-1) lies half way between two numbers
    let a = 0x3ff0_0000_0000_0001u64;
    let b = 0x3ff8_0000_0000_0000u64;
    assert_eq!(multiply(a, b), 0x3ff8_0000_0000_0002);
    // the least subnormal times one half is half way between zero and itself
    assert_eq!(multiply(0x0000_0000_0000_0001, 0x3fe0_0000_0000_0000), 0);
    assert_eq!(multiply(0x0000_0000_0000_0003, 0x3fe0_0000_0000_0000), 2);
}

#[test]
fn multiply_overflows_to_infinity() {
    assert_eq!(multiply(0x7fef_ffff_ffff_ffff, 0x4000_0000_0000_0000), 0x7ff0_0000_0000_0000);
    assert_eq!(multiply(0xffef_ffff_ffff_ffff, 0x4000_0000_0000_0000), 0xfff0_0000_0000_0000);
}

#[test]
fn nan_operands_give_the_quiet_nan() {
    let nan = 0x7ff8_0000_0000_0000u64;
    assert_eq!(multiply(0x7ff0_0000_0000_0001, 0x3ff0_0000_0000_0000), nan);
    assert_eq!(multiply(0x7ff0_0000_0000_0000, 0), nan);
    assert_eq!(divide(0, 0x8000_0000_0000_0000), nan);
    assert_eq!(divide(0x7ff0_0000_0000_0000, 0xfff0_0000_0000_0000), nan);
    assert_eq!(divide(0x3ff0_0000_0000_0000, 0xffff_ffff_ffff_ffff), nan);
}

#[test]
fn divide_by_zero_is_infinite() {
    assert_eq!(divide(0x3ff0_0000_0000_0000, 0), 0x7ff0_0000_0000_0000);
    assert_eq!(divide(0xbff0_0000_0000_0000, 0), 0xfff0_0000_0000_0000);
    assert_eq!(divide(0x3ff0_0000_0000_0000, 0x7ff0_0000_0000_0000), 0);
}

#[test]
fn plus_agrees_with_the_machine() {
    let all = samples();
    for &a in &all {
        for &b in &all {
            let theirs = f64::from_bits(a) + f64::from_bits(b);
            assert!(same(plus(a, b), theirs), "{:#018x} + {:#018x}", a, b);
        }
    }
}

#[test]
fn minus_agrees_with_the_machine() {
    let all = samples();
    for &a in &all {
        for &b in &all {
            let theirs = f64::from_bits(a) - f64::from_bits(b);
            assert!(same(minus(a, b), theirs), "{:#018x} - {:#018x}", a, b);
        }
    }
}

#[test]
fn truncate_agrees_with_the_machine() {
    for &a in &samples() {
        let theirs = f64::from_bits(a).trunc();
        assert!(same(truncate(a), theirs), "trunc {:#018x}", a);
    }
}

#[test]
fn truncate_cuts_toward_zero() {
    assert_eq!(truncate(1.7f64.to_bits()), 1.0f64.to_bits());
    assert_eq!(truncate((-1.7f64).to_bits()), (-1.0f64).to_bits());
    assert_eq!(truncate(0.99f64.to_bits()), 0);
    assert_eq!(truncate((-0.99f64).to_bits()), 0x8000_0000_0000_0000);
    assert_eq!(truncate(2251799813685249.5f64.to_bits()), 2251799813685249.0f64.to_bits());
    assert_eq!(truncate(1e300f64.to_bits()), 1e300f64.to_bits());
    assert_eq!(truncate(0xfff0_0000_0000_0000), 0xfff0_0000_0000_0000);
    assert_eq!(truncate(0xfff0_0000_0000_0001), 0x7ff8_0000_0000_0000);
}

#[test]
fn plus_keeps_the_sign_of_zero() {
    let minus_zero = 0x8000_0000_0000_0000u64;
    assert_eq!(plus(0, 0), 0);
    assert_eq!(plus(0, minus_zero), 0);
    assert_eq!(plus(minus_zero, 0), 0);
    assert_eq!(plus(minus_zero, minus_zero), minus_zero);
    assert_eq!(plus(1.5f64.to_bits(), (-1.5f64).to_bits()), 0);
    assert_eq!(minus(1.5f64.to_bits(), 1.5f64.to_bits()), 0);
    assert_eq!(minus((-1.5f64).to_bits(), (-1.5f64).to_bits()), 0);
}

#[test]
fn plus_of_unlike_sizes() {
    // the small one lies far below the last bit of the great one
    let great = 1e300f64.to_bits();
    let small = 1e-300f64.to_bits();
    assert_eq!(plus(great, small), great);
    assert_eq!(minus(great, small), great);
    assert_eq!(minus(small, great), (-1e300f64).to_bits());
    // one unit in the last place below a power of two
    assert_eq!(minus(0x4340_0000_0000_0000, 0x3ff0_0000_0000_0000), 0x433f_ffff_ffff_ffff);
    assert_eq!(minus(0x4340_0000_0000_0000, 0x0000_0000_0000_0001), 0x4340_0000_0000_0000);
    // opposite infinities
    assert_eq!(plus(0x7ff0_0000_0000_0000, 0xfff0_0000_0000_0000), 0x7ff8_0000_0000_0000);
    assert_eq!(minus(0x7ff0_0000_0000_0000, 0x7ff0_0000_0000_0000), 0x7ff8_0000_0000_0000);
    assert_eq!(plus(0x7ff0_0000_0000_0000, 0x7ff0_0000_0000_0000), 0x7ff0_0000_0000_0000);
    assert_eq!(plus(0x7fef_ffff_ffff_ffff, 0x7fef_ffff_ffff_ffff), 0x7ff0_0000_0000_0000);
}

#[test]
fn negate_turns_the_sign() {
    assert_eq!(negate(0), 0x8000_0000_0000_0000);
    assert_eq!(negate(0x8000_0000_0000_0000), 0);
    assert_eq!(negate(2.5f64.to_bits()), (-2.5f64).to_bits());
    assert_eq!(negate(0xfff8_0000_0000_0000), 0x7ff8_0000_0000_0000);
}

#[test]
fn magnitudes_and_signs() {
    assert_eq!(magnitude_of((-2.5f64).to_bits()), 2.5f64.to_bits());
    assert_eq!(magnitude_of(2.5f64.to_bits()), 2.5f64.to_bits());
    assert_eq!(with_sign(true, 2.5f64.to_bits()), (-2.5f64).to_bits());
    assert_eq!(with_sign(false, 2.5f64.to_bits()), 2.5f64.to_bits());
    // one and a half is 3 * 2^51 in the binade of one
    assert_eq!(unpack(1.5f64.to_bits()), (3 << 51, 1022));
    assert_eq!(unpack(3), (3, 0));
    assert_eq!(unpack(0x7ff0_0000_0000_0000), (1 << 52, 2046));
}

#[test]
fn fraction_has_the_sign_of_the_number() {
    assert_eq!(fraction_of((-1.7f64).to_bits()), 0xbfe6_6666_6666_6666);
    assert_eq!(fraction_of(1.75f64.to_bits()), 0.75f64.to_bits());
    assert_eq!(fraction_of((-0.25f64).to_bits()), (-0.25f64).to_bits());
    // a whole number leaves the positive zero, whatever its sign
    assert_eq!(fraction_of(3.0f64.to_bits()), 0);
    assert_eq!(fraction_of((-3.0f64).to_bits()), 0);
    assert_eq!(fraction_of(0x8000_0000_0000_0000), 0);
    assert_eq!(fraction_of(1e300f64.to_bits()), 0);
    // infinity less infinity
    assert_eq!(fraction_of(0x7ff0_0000_0000_0000), 0x7ff8_0000_0000_0000);
    assert_eq!(fraction_of(0xfff0_0000_0000_0000), 0x7ff8_0000_0000_0000);
    assert_eq!(fraction_of(0x7ff0_0000_0000_0001), 0x7ff8_0000_0000_0000);
}

#[test]
fn fraction_agrees_with_the_machine() {
    for &a in &samples() {
        let x = f64::from_bits(a);
        assert!(same(fraction_of(a), x - x.trunc()), "fraction {:#018x}", a);
    }
}
