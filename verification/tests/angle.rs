use std::f64::consts::PI as PI_NUMBER;
use vermessungskunde::geodesy::angle::{
    degrees, dms, gms, gradians, radians, Angle, HALF_TURN_DEGREES, HALF_TURN_GRADIANS, HUNDRED,
    HUNDRED_SQUARED, PI, SIXTY, SIXTY_SQUARED,
};
use vermessungskunde::geodesy::vv::{make_scalar, F64v};

fn scalar(value: f64, variance: f64) -> F64v {
    make_scalar(value.to_bits(), variance.to_bits())
}

fn value_of(v: F64v) -> f64 {
    f64::from_bits(v.value)
}

fn variance_of(v: F64v) -> f64 {
    f64::from_bits(v.variance)
}

/// The same number: the same bits, or a NaN on both sides.
fn same(ours: u64, theirs: f64) -> bool {
    if theirs.is_nan() {
        f64::from_bits(ours).is_nan()
    } else {
        ours == theirs.to_bits()
    }
}

fn same_scalar(ours: F64v, value: f64, variance: f64) -> bool {
    same(ours.value, value) && same(ours.variance, variance)
}

fn numbers() -> Vec<f64> {
    vec![
        0.0,
        -0.0,
        1.0,
        -1.0,
        0.5,
        1.5,
        -1.5,
        30.0,
        59.999999,
        90.0,
        179.99,
        180.0,
        200.0,
        -359.25,
        400.0,
        721.125,
        0.017453292519943295,
        3.141592653589793,
        -6.283185307179586,
        1e-9,
        -3e-7,
        123456.789,
        1e15,
        4503599627370496.0,
        9007199254740993.0,
        1e22,
        1e-300,
        5e-324,
        2.2250738585072014e-308,
        1e300,
        1.7976931348623157e308,
        f64::INFINITY,
        f64::NEG_INFINITY,
        f64::NAN,
    ]
}

#[test]
fn constants_are_the_numbers_they_name() {
    assert_eq!(PI, PI_NUMBER.to_bits());
    assert_eq!(HALF_TURN_DEGREES, 180.0f64.to_bits());
    assert_eq!(HALF_TURN_GRADIANS, 200.0f64.to_bits());
    assert_eq!(SIXTY, 60.0f64.to_bits());
    assert_eq!(SIXTY_SQUARED, 3600.0f64.to_bits());
    assert_eq!(HUNDRED, 100.0f64.to_bits());
    assert_eq!(HUNDRED_SQUARED, 10000.0f64.to_bits());
}

#[test]
fn make_scalar_keeps_both_fields() {
    let v = make_scalar(7, 9);
    assert_eq!(v.value, 7);
    assert_eq!(v.variance, 9);
    assert_eq!(v, F64v { value: 7, variance: 9 });
}

#[test]
fn radians_are_kept_as_given() {
    let v = scalar(0.75, 0.002);
    assert_eq!(Angle::to_radians(radians(v)), v);
    let odd = make_scalar(0x7ff0_0000_0000_0123, 0xfff8_0000_0000_0001);
    assert_eq!(Angle::to_radians(radians(odd)), odd);
    for &x in &numbers() {
        let v = scalar(x, -x);
        assert_eq!(Angle::to_radians(radians(v)), v);
    }
}

#[test]
fn half_turn_in_degrees_is_pi() {
    let r = Angle::to_radians(degrees(scalar(180.0, 0.0)));
    assert_eq!(value_of(r), 180.0 * PI_NUMBER / 180.0);
    assert!((value_of(r) - PI_NUMBER).abs() < 1e-15);
    assert_eq!(r.variance, 0);
}

#[test]
fn half_turn_in_gradians_is_pi() {
    let r = Angle::to_radians(gradians(scalar(200.0, 0.0)));
    assert_eq!(value_of(r), 200.0 * PI_NUMBER / 200.0);
    assert!((value_of(r) - PI_NUMBER).abs() < 1e-15);
    assert_eq!(r.variance, 0);
}

#[test]
fn variance_is_scaled_like_the_value() {
    let r = Angle::to_radians(degrees(scalar(90.0, 4.0)));
    assert_eq!(variance_of(r), 4.0 * PI_NUMBER / 180.0);
    assert!((variance_of(r) - 0.06981317007977318).abs() < 1e-15);
    let squared = 4.0 * (PI_NUMBER / 180.0) * (PI_NUMBER / 180.0);
    assert!((variance_of(r) - squared).abs() > 0.06);
    let g = Angle::to_radians(gradians(scalar(100.0, 4.0)));
    assert_eq!(variance_of(g), 4.0 * PI_NUMBER / 200.0);
}

#[test]
fn degrees_follow_the_formula() {
    for &x in &numbers() {
        for &y in &numbers() {
            let r = Angle::to_radians(degrees(scalar(x, y)));
            assert!(same_scalar(r, x * PI_NUMBER / 180.0, y * PI_NUMBER / 180.0), "{} {}", x, y);
            let d = Angle::to_degrees(radians(scalar(x, y)));
            assert!(same_scalar(d, x * 180.0 / PI_NUMBER, y * 180.0 / PI_NUMBER), "{} {}", x, y);
        }
    }
}

#[test]
fn gradians_follow_the_formula() {
    for &x in &numbers() {
        for &y in &numbers() {
            let r = Angle::to_radians(gradians(scalar(x, y)));
            assert!(same_scalar(r, x * PI_NUMBER / 200.0, y * PI_NUMBER / 200.0), "{} {}", x, y);
            let g = Angle::to_gradians(radians(scalar(x, y)));
            assert!(same_scalar(g, x * 200.0 / PI_NUMBER, y * 200.0 / PI_NUMBER), "{} {}", x, y);
        }
    }
}

#[test]
fn degrees_come_back() {
    for &x in &[0.0, 1.0, -1.0, 45.0, 90.0, 123.456, -359.999, 1e-300, 1e300, 6.02e23] {
        let back = Angle::to_degrees(degrees(scalar(x, x)));
        assert!((value_of(back) - x).abs() <= 1e-9 * x.abs(), "{}", x);
        assert_eq!(back.variance, back.value);
    }
}

#[test]
fn gradians_come_back() {
    for &x in &[0.0, 1.0, -1.0, 50.0, 100.0, 123.456, -399.999, 1e-300, 1e300] {
        let back = Angle::to_gradians(gradians(scalar(x, 0.25)));
        assert!((value_of(back) - x).abs() <= 1e-9 * x.abs(), "{}", x);
    }
}

#[test]
fn round_trip_fails_at_the_ends_of_the_range() {
    // the least number above zero is lost on the way, the greatest overflows
    let least = f64::from_bits(1);
    assert_eq!(value_of(Angle::to_degrees(degrees(scalar(least, 0.0)))), 0.0);
    let greatest = f64::MAX;
    assert!(value_of(Angle::to_degrees(degrees(scalar(greatest, 0.0)))).is_infinite());
}

#[test]
fn one_degree_thirty_minutes() {
    let a = dms(scalar(1.0, 0.0), scalar(30.0, 0.0), scalar(0.0, 0.0));
    let d = Angle::to_degrees(a);
    assert!((value_of(d) - 1.5).abs() < 1e-12);
    assert_eq!(value_of(d), 1.5 * PI_NUMBER / 180.0 * 180.0 / PI_NUMBER);
    assert_eq!(d.variance, 0);
}

#[test]
fn one_gradian_fifty_minutes() {
    let a = gms(scalar(1.0, 0.0), scalar(50.0, 0.0), scalar(0.0, 0.0));
    let g = Angle::to_gradians(a);
    assert!((value_of(g) - 1.5).abs() < 1e-12);
    assert_eq!(value_of(g), 1.5 * PI_NUMBER / 200.0 * 200.0 / PI_NUMBER);
}

#[test]
fn dms_follows_the_formula() {
    let all = numbers();
    for (i, &d) in all.iter().enumerate() {
        for (j, &m) in all.iter().enumerate() {
            let s = all[(i * 7 + j * 3 + 1) % all.len()];
            let (vd, vm, vs) = (m, s, d);
            let r = Angle::to_radians(dms(scalar(d, vd), scalar(m, vm), scalar(s, vs)));
            let value = d + m / 60.0 + s / 3600.0;
            let variance = vd + vm / 60.0 + vs / 3600.0;
            assert!(
                same_scalar(r, value * PI_NUMBER / 180.0, variance * PI_NUMBER / 180.0),
                "{} {} {}",
                d,
                m,
                s
            );
        }
    }
}

#[test]
fn gms_follows_the_formula() {
    let all = numbers();
    for (i, &g) in all.iter().enumerate() {
        for (j, &m) in all.iter().enumerate() {
            let s = all[(i * 5 + j * 11 + 2) % all.len()];
            let (vg, vm, vs) = (s, g, m);
            let r = Angle::to_radians(gms(scalar(g, vg), scalar(m, vm), scalar(s, vs)));
            let value = g + m / 100.0 + s / 10000.0;
            let variance = vg + vm / 100.0 + vs / 10000.0;
            assert!(
                same_scalar(r, value * PI_NUMBER / 200.0, variance * PI_NUMBER / 200.0),
                "{} {} {}",
                g,
                m,
                s
            );
        }
    }
}

#[test]
fn to_dms_follows_the_formula() {
    for &x in &numbers() {
        for &y in &numbers() {
            let (d, m, s) = Angle::to_dms(radians(scalar(x, y)));
            let degrees = x * 180.0 / PI_NUMBER;
            let minutes = (degrees - degrees.trunc()) * 60.0;
            let seconds = (minutes - minutes.trunc()) * 60.0;
            let variance = y * 180.0 / PI_NUMBER;
            assert!(same_scalar(d, degrees, variance), "{} {}", x, y);
            assert!(same_scalar(m, minutes, variance), "{} {}", x, y);
            assert!(same_scalar(s, seconds, variance), "{} {}", x, y);
        }
    }
}

#[test]
fn to_gms_follows_the_formula() {
    for &x in &numbers() {
        for &y in &numbers() {
            let (g, m, s) = Angle::to_gms(radians(scalar(x, y)));
            let gradians = x * 200.0 / PI_NUMBER;
            let minutes = (gradians - gradians.trunc()) * 100.0;
            let seconds = (minutes - minutes.trunc()) * 100.0;
            let variance = y * 200.0 / PI_NUMBER;
            assert!(same_scalar(g, gradians, variance), "{} {}", x, y);
            assert!(same_scalar(m, minutes, variance), "{} {}", x, y);
            assert!(same_scalar(s, seconds, variance), "{} {}", x, y);
        }
    }
}

#[test]
fn to_dms_gives_one_variance_three_times() {
    for &y in &[0.0, 4.0, 1e-12, -2.0, 1e300] {
        let angle = radians(scalar(0.7, y));
        let (d, m, s) = Angle::to_dms(angle);
        assert_eq!(d.variance, (y * 180.0 / PI_NUMBER).to_bits());
        assert_eq!(m.variance, d.variance);
        assert_eq!(s.variance, d.variance);
        let (g, gm, gs) = Angle::to_gms(radians(scalar(0.7, y)));
        assert_eq!(g.variance, (y * 200.0 / PI_NUMBER).to_bits());
        assert_eq!(gm.variance, g.variance);
        assert_eq!(gs.variance, g.variance);
    }
}

#[test]
fn minutes_of_a_negative_angle_are_negative() {
    let (d, m, s) = Angle::to_dms(degrees(scalar(-1.5, 0.0)));
    assert!((value_of(d) + 1.5).abs() < 1e-12);
    assert!((value_of(m) + 30.0).abs() < 1e-9);
    assert!(value_of(m) < 0.0);
    assert!(value_of(s) <= 0.0);
    let (g, gm, _) = Angle::to_gms(gradians(scalar(-1.5, 0.0)));
    assert!((value_of(g) + 1.5).abs() < 1e-12);
    assert!((value_of(gm) + 50.0).abs() < 1e-9);
}

#[test]
fn degrees_are_not_brought_into_a_range() {
    let (d, m, _) = Angle::to_dms(degrees(scalar(725.5, 0.0)));
    assert!((value_of(d) - 725.5).abs() < 1e-9);
    assert!((value_of(m) - 30.0).abs() < 1e-9);
    let back = Angle::to_degrees(dms(scalar(-10.0, 0.0), scalar(-90.0, 0.0), scalar(7200.0, 0.0)));
    assert!((value_of(back) + 9.5).abs() < 1e-12);
}

#[test]
fn nan_and_infinity_pass_through() {
    let nan = scalar(f64::NAN, f64::NAN);
    assert!(value_of(Angle::to_radians(degrees(nan))).is_nan());
    assert!(variance_of(Angle::to_radians(degrees(nan))).is_nan());
    assert!(value_of(Angle::to_radians(gradians(nan))).is_nan());
    assert!(value_of(Angle::to_degrees(radians(nan))).is_nan());
    assert!(value_of(Angle::to_gradians(radians(nan))).is_nan());
    assert!(value_of(Angle::to_radians(dms(scalar(1.0, 0.0), nan, scalar(0.0, 0.0)))).is_nan());
    assert!(value_of(Angle::to_radians(gms(scalar(1.0, 0.0), scalar(0.0, 0.0), nan))).is_nan());
    let (d, m, s) = Angle::to_dms(radians(nan));
    assert!(value_of(d).is_nan() && value_of(m).is_nan() && value_of(s).is_nan());
    let infinite = scalar(f64::INFINITY, 0.0);
    assert_eq!(value_of(Angle::to_radians(degrees(infinite))), f64::INFINITY);
    assert_eq!(value_of(Angle::to_degrees(radians(infinite))), f64::INFINITY);
    let (d, m, s) = Angle::to_gms(radians(infinite));
    assert_eq!(value_of(d), f64::INFINITY);
    assert!(value_of(m).is_nan() && value_of(s).is_nan());
    // infinity times zero
    let r = Angle::to_radians(dms(scalar(0.0, 0.0), scalar(f64::INFINITY, 0.0), scalar(f64::NEG_INFINITY, 0.0)));
    assert!(value_of(r).is_nan());
    assert_eq!(r.variance, 0);
}

#[test]
fn degrees_to_the_bit() {
    let r = Angle::to_radians(degrees(scalar(90.0, 4.0)));
    assert_eq!(r.value, 0x3ff9_21fb_5444_2d18);
    assert_eq!(r.variance, 0x3fb1_df46_a252_9d39);
    let half_turn = Angle::to_radians(degrees(scalar(180.0, 0.0)));
    assert_eq!(half_turn.value, 0x4009_21fb_5444_2d18);
}

#[test]
fn gradians_to_the_bit() {
    let r = Angle::to_radians(gradians(scalar(100.0, 4.0)));
    assert_eq!(r.value, 0x3ff9_21fb_5444_2d18);
    assert_eq!(r.variance, 0x3fb0_15bf_9217_271a);
    let half_turn = Angle::to_radians(gradians(scalar(200.0, 0.0)));
    assert_eq!(half_turn.value, 0x4009_21fb_5444_2d18);
}

#[test]
fn dms_to_the_bit() {
    let r = Angle::to_radians(dms(scalar(12.0, 0.01), scalar(34.0, 0.02), scalar(56.5, 0.03)));
    assert_eq!(r.value, 0x3fcc_1bf8_c274_b7a4);
    assert_eq!(r.variance, 0x3f27_a871_fb0d_a635);
}

#[test]
fn gms_to_the_bit() {
    let r = Angle::to_radians(gms(scalar(12.0, 0.01), scalar(34.0, 0.02), scalar(56.5, 0.03)));
    assert_eq!(r.value, 0x3fc8_d288_f257_9298);
    assert_eq!(r.variance, 0x3f25_01b6_a311_eec6);
}

#[test]
fn to_degrees_to_the_bit() {
    let d = Angle::to_degrees(radians(scalar(0.5, 0.001)));
    assert_eq!(d.value, 0x403c_a5dc_1a63_c1f8);
    assert_eq!(d.variance, 0x3fad_55df_566a_3f74);
}

#[test]
fn to_gradians_to_the_bit() {
    let g = Angle::to_gradians(radians(scalar(0.5, 0.001)));
    assert_eq!(g.value, 0x403f_d4bb_ab8b_494c);
    assert_eq!(g.variance, 0x3fb0_4c26_be3b_06cf);
}

#[test]
fn to_dms_to_the_bit() {
    let (d, m, s) = Angle::to_dms(radians(scalar(0.5, 0.001)));
    assert_eq!(d.value, 0x403c_a5dc_1a63_c1f8);
    assert_eq!(m.value, 0x4043_6fcb_17b0_bb10);
    assert_eq!(s.value, 0x404a_3399_8d6b_d7c0);
    assert_eq!(d.variance, 0x3fad_55df_566a_3f74);
    assert_eq!(m.variance, 0x3fad_55df_566a_3f74);
    assert_eq!(s.variance, 0x3fad_55df_566a_3f74);
}

#[test]
fn to_gms_to_the_bit() {
    let (g, m, s) = Angle::to_gms(radians(scalar(0.5, 0.001)));
    assert_eq!(g.value, 0x403f_d4bb_ab8b_494c);
    assert_eq!(m.value, 0x4054_c653_c09a_286c);
    assert_eq!(s.value, 0x4023_c5b9_e1be_5180);
    assert_eq!(g.variance, 0x3fb0_4c26_be3b_06cf);
    assert_eq!(m.variance, 0x3fb0_4c26_be3b_06cf);
    assert_eq!(s.variance, 0x3fb0_4c26_be3b_06cf);
}

#[test]
fn minus_one_and_a_half_degrees_to_the_bit() {
    let (d, m, s) = Angle::to_dms(degrees(scalar(-1.5, 0.0)));
    assert_eq!(d.value, (-1.5f64).to_bits());
    assert_eq!(m.value, (-30.0f64).to_bits());
    assert_eq!(s.value, 0);
    let (d, m, s) = Angle::to_dms(degrees(scalar(-1.7, 0.0)));
    assert_eq!(d.value, 0xbffb_3333_3333_3333);
    assert_eq!(m.value, (-42.0f64).to_bits());
    assert_eq!(s.value, 0);
}
