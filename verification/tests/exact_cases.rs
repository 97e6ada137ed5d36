use softlibm::{double, logf, pow, powf, single};

fn pow64(x: f64, y: f64) -> f64 {
    f64::from_bits(pow(x.to_bits(), y.to_bits()))
}

fn pow32(x: f32, y: f32) -> f32 {
    f32::from_bits(powf(x.to_bits(), y.to_bits()))
}

fn ln32(x: f32) -> f32 {
    f32::from_bits(logf(x.to_bits()))
}

const BASES: &[f64] = &[
    0.0,
    -0.0,
    1.0,
    -1.0,
    0.5,
    -0.5,
    2.0,
    -2.0,
    3.25,
    -3.25,
    1e-310,
    -1e-310,
    1e300,
    -1e300,
    f64::MIN_POSITIVE,
    f64::MAX,
    f64::MIN,
    f64::INFINITY,
    f64::NEG_INFINITY,
];

#[test]
fn power_zero_is_one() {
    for x in BASES {
        assert_eq!(pow64(*x, 0.0).to_bits(), 1.0f64.to_bits());
        assert_eq!(pow64(*x, -0.0).to_bits(), 1.0f64.to_bits());
        assert_eq!(pow32(*x as f32, 0.0).to_bits(), 1.0f32.to_bits());
    }
    assert_eq!(pow64(f64::NAN, 0.0), 1.0);
    assert_eq!(pow(0x7ff0_0000_0000_0001, 0x8000_0000_0000_0000), 1.0f64.to_bits());
    assert_eq!(powf(0xffc0_1234, 0), 1.0f32.to_bits());
}

#[test]
fn one_to_any_power_is_one() {
    for y in BASES {
        assert_eq!(pow64(1.0, *y).to_bits(), 1.0f64.to_bits());
        assert_eq!(pow32(1.0, *y as f32).to_bits(), 1.0f32.to_bits());
    }
    assert_eq!(pow64(1.0, f64::NAN), 1.0);
    assert_eq!(pow32(1.0, f32::NAN), 1.0);
}

#[test]
fn power_one_is_the_base_bit_for_bit() {
    for x in BASES {
        assert_eq!(pow64(*x, 1.0).to_bits(), x.to_bits());
        assert_eq!(pow32(*x as f32, 1.0).to_bits(), (*x as f32).to_bits());
    }
    // a quiet NaN comes back as it is, a signalling one made quiet
    assert_eq!(pow(0x7ff8_0000_0000_0abc, 1.0f64.to_bits()), 0x7ff8_0000_0000_0abc);
    assert_eq!(pow(0xfff0_0000_0000_0abc, 1.0f64.to_bits()), 0xfff8_0000_0000_0abc);
    assert_eq!(powf(0x7f80_0001, 1.0f32.to_bits()), 0x7fc0_0001);
}

#[test]
fn power_minus_one_is_the_reciprocal_bit_for_bit() {
    for x in BASES {
        assert_eq!(pow64(*x, -1.0).to_bits(), (1.0 / *x).to_bits());
        let s = *x as f32;
        assert_eq!(pow32(s, -1.0).to_bits(), (1.0 / s).to_bits());
        let reciprocal = double::over(1.0f64.to_bits(), x.to_bits());
        assert_eq!(pow(x.to_bits(), (-1.0f64).to_bits()), reciprocal);
    }
    assert_eq!(pow64(3.0, -1.0).to_bits(), 0x3fd5_5555_5555_5555);
    assert_eq!(pow32(3.0, -1.0).to_bits(), 0x3eaa_aaab);
}

#[test]
fn power_two_is_the_square() {
    for x in BASES {
        assert_eq!(pow64(*x, 2.0).to_bits(), (*x * *x).to_bits());
        let s = *x as f32;
        assert_eq!(pow32(s, 2.0).to_bits(), (s * s).to_bits());
        assert_eq!(powf(s.to_bits(), 2.0f32.to_bits()), single::times(s.to_bits(), s.to_bits()));
    }
    assert_eq!(pow64(1.1, 2.0).to_bits(), (1.1f64 * 1.1).to_bits());
}

#[test]
fn power_half_is_the_root() {
    for x in [0.0, 2.0, 0.25, 1e-310, 1e300, f64::INFINITY, 7.0] {
        assert_eq!(pow64(x, 0.5).to_bits(), x.sqrt().to_bits());
        let s = x as f32;
        assert_eq!(pow32(s, 0.5).to_bits(), s.sqrt().to_bits());
    }
    assert_eq!(pow64(2.0, 0.5).to_bits(), 0x3ff6_a09e_667f_3bcd);
    // a negative zero is not "at least plus zero": the general rule for a zero base applies
    assert_eq!(pow64(-0.0, 0.5).to_bits(), 0.0f64.to_bits());
    assert_eq!(pow64(f64::NEG_INFINITY, 0.5), f64::INFINITY);
}

#[test]
fn minus_one_to_the_infinities() {
    assert_eq!(pow64(-1.0, f64::INFINITY).to_bits(), 1.0f64.to_bits());
    assert_eq!(pow64(-1.0, f64::NEG_INFINITY).to_bits(), 1.0f64.to_bits());
    assert_eq!(pow32(-1.0, f32::INFINITY).to_bits(), 1.0f32.to_bits());
    assert_eq!(pow32(-1.0, f32::NEG_INFINITY).to_bits(), 1.0f32.to_bits());
}

#[test]
fn infinite_powers() {
    let above_one =
        [1.5, -1.5, 2.0, -7.0, 1e300, f64::INFINITY, f64::NEG_INFINITY, 1.000_000_000_000_000_2];
    for x in above_one {
        assert_eq!(pow64(x, f64::INFINITY).to_bits(), f64::INFINITY.to_bits());
        assert_eq!(pow64(x, f64::NEG_INFINITY).to_bits(), 0.0f64.to_bits());
        assert_eq!(pow32(x as f32 * 1.5, f32::INFINITY).to_bits(), f32::INFINITY.to_bits());
        assert_eq!(pow32(x as f32 * 1.5, f32::NEG_INFINITY).to_bits(), 0.0f32.to_bits());
    }
    for x in [0.5, -0.5, 0.0, -0.0, 1e-310, -1e-300, 0.999_999_999_999_999_9] {
        assert_eq!(pow64(x, f64::INFINITY).to_bits(), 0.0f64.to_bits());
        assert_eq!(pow64(x, f64::NEG_INFINITY).to_bits(), f64::INFINITY.to_bits());
        assert_eq!(pow32(x as f32 * 0.5, f32::INFINITY).to_bits(), 0.0f32.to_bits());
        assert_eq!(pow32(x as f32 * 0.5, f32::NEG_INFINITY).to_bits(), f32::INFINITY.to_bits());
    }
}

#[test]
fn negative_base_with_fractional_power_is_nan() {
    for x in [-1.0, -0.5, -2.0, -1e-310, -1e300, f64::MIN, -f64::MIN_POSITIVE] {
        for y in [0.5, -0.5, 2.2, -1.14, 1e-300, 4503599627370495.5, 0.999_999_999, -3.000_000_1] {
            assert!(pow64(x, y).is_nan(), "{} ** {}", x, y);
        }
    }
    for x in [-1.0f32, -0.5, -2.0, -1e-40, -1e30, f32::MIN, -f32::MIN_POSITIVE] {
        for y in [0.5f32, -0.5, 2.2, -1.14, 1e-30, 8388607.5, 0.999_999, -3.000_001] {
            assert!(pow32(x, y).is_nan(), "{} ** {}", x, y);
        }
    }
    assert_eq!(pow((-2.5f64).to_bits(), 0.5f64.to_bits()), 0x7ff8_0000_0000_0000);
    assert_eq!(powf((-2.5f32).to_bits(), 0.5f32.to_bits()), 0x7fc0_0000);
}

#[test]
fn nan_operands_give_nan() {
    for v in BASES {
        if *v != 0.0 {
            assert!(pow64(f64::NAN, *v).is_nan());
            assert!(pow32(f32::NAN, *v as f32).is_nan() || *v as f32 == 0.0);
        }
        if *v != 1.0 {
            assert!(pow64(*v, f64::NAN).is_nan());
            assert!(pow32(*v as f32, f32::NAN).is_nan() || *v as f32 == 1.0);
        }
    }
    // the first NaN operand is handed on, made quiet
    assert_eq!(pow(0x7ff0_0000_0000_0007, 3.0f64.to_bits()), 0x7ff8_0000_0000_0007);
    assert_eq!(pow(3.0f64.to_bits(), 0xfff0_0000_0000_0007), 0xfff8_0000_0000_0007);
}

#[test]
fn sign_factors_out_of_whole_powers() {
    let exponents = [
        0.0, -0.0, 1.0, -1.0, 2.0, -2.0, 3.0, -3.0, 7.0, 10.0, -11.0, 100.0, 1023.0, -1075.0,
        9007199254740991.0, 9007199254740992.0, 1e300, -1e300, f64::INFINITY, f64::NEG_INFINITY,
        4294967297.0, 18446744073709551616.0, 36893488147419103232.0,
    ];
    let bases = [
        0.0, -0.0, 1.0, -1.0, 0.5, -0.5, 2.0, -2.0, 3.25, -3.25, 1e-310, -1e-310, 1e300, -1e300,
        f64::MAX, f64::MIN, f64::INFINITY, f64::NEG_INFINITY, 1.000_000_000_1, -0.999_999_999_9,
        f64::NAN,
    ];
    for n in exponents {
        for x in bases {
            let left = pow((-x).to_bits(), n.to_bits());
            let right = double::times(
                pow((-1.0f64).to_bits(), n.to_bits()),
                pow(x.to_bits(), n.to_bits()),
            );
            let both_nan = f64::from_bits(left).is_nan() && f64::from_bits(right).is_nan();
            assert!(left == right || both_nan, "({})^{}: {:#x} and {:#x}", -x, n, left, right);
            let (xs, ns) = (x as f32, n as f32);
            let left = powf((-xs).to_bits(), ns.to_bits());
            let right = single::times(
                powf((-1.0f32).to_bits(), ns.to_bits()),
                powf(xs.to_bits(), ns.to_bits()),
            );
            let both_nan = f32::from_bits(left).is_nan() && f32::from_bits(right).is_nan();
            assert!(left == right || both_nan, "({})^{}: {:#x} and {:#x}", -xs, ns, left, right);
        }
    }
}

#[test]
fn small_whole_powers_are_exact() {
    assert_eq!(pow64(2.0, 20.0), 1048576.0);
    assert_eq!(pow64(2.0, 20.0).to_bits(), 0x4130_0000_0000_0000);
    assert_eq!(pow64(3.0, 4.0), 81.0);
    assert_eq!(pow64(10.0, 15.0), 1e15);
    assert_eq!(pow64(-3.0, 3.0), -27.0);
    assert_eq!(pow64(2.0, -1074.0).to_bits(), 1);
    assert_eq!(pow64(2.0, 1023.0).to_bits(), 0x7fe0_0000_0000_0000);
    assert_eq!(pow64(0.5, 1074.0).to_bits(), 1);
    assert_eq!(pow32(2.0, 20.0), 1048576.0);
    assert_eq!(pow32(3.0, 4.0), 81.0);
    assert_eq!(pow32(-3.0, 3.0), -27.0);
    assert_eq!(pow32(2.0, -149.0).to_bits(), 1);
    assert_eq!(pow32(2.0, 127.0).to_bits(), 0x7f00_0000);
}

#[test]
fn minus_one_to_whole_and_fractional_powers() {
    assert_eq!(pow64(-1.0, 9.0), -1.0);
    assert_eq!(pow64(-1.0, 8.0), 1.0);
    assert!(pow64(-1.0, 2.2).is_nan());
    assert!(pow64(-1.0, -1.14).is_nan());
    assert_eq!(pow32(-1.0, 9.0), -1.0);
    assert!(pow32(-1.0, 2.2).is_nan());
}

#[test]
fn overflow_and_underflow_keep_the_sign() {
    assert_eq!(pow64(10.0, 400.0).to_bits(), f64::INFINITY.to_bits());
    assert_eq!(pow64(-10.0, 401.0).to_bits(), f64::NEG_INFINITY.to_bits());
    assert_eq!(pow64(-10.0, 400.0).to_bits(), f64::INFINITY.to_bits());
    assert_eq!(pow64(10.0, -400.0).to_bits(), 0.0f64.to_bits());
    assert_eq!(pow64(-10.0, -401.0).to_bits(), (-0.0f64).to_bits());
    assert_eq!(pow64(1.5, 1e20).to_bits(), f64::INFINITY.to_bits());
    assert_eq!(pow64(0.5, 1e20).to_bits(), 0.0f64.to_bits());
    assert_eq!(pow64(-1.5, 4294967297.0).to_bits(), f64::NEG_INFINITY.to_bits());
    assert_eq!(pow64(-0.5, 4294967297.0).to_bits(), (-0.0f64).to_bits());
    assert_eq!(pow32(10.0, 40.0).to_bits(), f32::INFINITY.to_bits());
    assert_eq!(pow32(-10.0, 41.0).to_bits(), f32::NEG_INFINITY.to_bits());
    assert_eq!(pow32(10.0, -50.0).to_bits(), 0.0f32.to_bits());
    assert_eq!(pow32(-10.0, -51.0).to_bits(), (-0.0f32).to_bits());
    assert_eq!(pow32(-1.5, 268435457.0 * 2.0 + 1.0).to_bits(), f32::INFINITY.to_bits());
}

#[test]
fn computed_powers_known_values() {
    assert_eq!(pow64(2.0, 0.5).to_bits(), 0x3ff6_a09e_667f_3bcd);
    // nearly rounded: the last digit of 10^2.5 is one below the nearest
    assert_eq!(pow64(10.0, 2.5).to_bits(), 0x4073_c3a4_edfa_9758);
    assert_eq!(pow64(1.5, 2.5).to_bits(), 0x4006_0b9f_d68a_4554);
    assert_eq!(pow64(3.0, 0.333_333_333_333_333_3).to_bits(), 0x3ff7_1374_4912_3ef6);
    assert_eq!(pow64(0.1, 7.5).to_bits(), 0x3e60_fa33_89d6_eb42);
    assert_eq!(pow64(1.000_000_1, 1e9).to_bits(), 0x48f3_4944_5c22_8792);
    assert_eq!(pow32(10.0, 2.5).to_bits(), 0x439e_1d28);
    assert_eq!(pow32(1.5, 2.5).to_bits(), 0x4030_5cff);
    assert_eq!(pow32(0.1, 7.5).to_bits(), 0x3307_d19d);
    assert_eq!(pow32(1.0001, 1e5).to_bits(), 0x46ac_4808);
}

#[test]
fn logf_special_values() {
    assert_eq!(ln32(1.0).to_bits(), 0);
    assert_eq!(ln32(0.0).to_bits(), f32::NEG_INFINITY.to_bits());
    assert_eq!(ln32(-0.0).to_bits(), f32::NEG_INFINITY.to_bits());
    assert!(ln32(-1.0).is_nan());
    assert!(ln32(-1e-45).is_nan());
    assert!(ln32(f32::NEG_INFINITY).is_nan());
    assert_eq!(ln32(f32::INFINITY).to_bits(), f32::INFINITY.to_bits());
    assert!(ln32(f32::NAN).is_nan());
    // a positive NaN comes back as it is, a negative one quiet
    assert_eq!(logf(0x7f80_0001), 0x7f80_0001);
    assert_eq!(logf(0xff80_0001), 0xffc0_0001);
    assert_eq!(logf(0xbf80_0000), 0x7fc0_0000);
}

#[test]
fn logf_known_values() {
    assert_eq!(ln32(2.0).to_bits(), 0x3f31_7218);
    assert_eq!(ln32(0.5).to_bits(), 0xbf31_7218);
    assert_eq!(ln32(core::f32::consts::E).to_bits(), 0x3f80_0000);
    assert_eq!(ln32(10.0).to_bits(), 0x4013_5d8e);
    // the least subnormal number: -149 ln 2
    assert_eq!(ln32(f32::from_bits(1)).to_bits(), 0xc2ce_8ed0);
    assert_eq!(ln32(f32::MAX).to_bits(), 0x42b1_7218);
    assert_eq!(ln32(1.5).to_bits(), 0x3ecf_991f);
    assert_eq!(ln32(0.7).to_bits(), 0xbeb6_9e1a);
}

#[test]
fn results_stay_close_to_the_platform_functions() {
    // within one unit in the last place of the correctly rounded value,
    // which the platform's functions are within one unit of as well
    let mut state = 0x1234_5678_9abc_def0u64;
    let mut next = move || {
        state ^= state << 13;
        state ^= state >> 7;
        state ^= state << 17;
        state
    };
    for _ in 0..20_000 {
        let x = f64::from_bits(0x3f00_0000_0000_0000 + next() % 0x0200_0000_0000_0000);
        let y = ((next() % 2_000_001) as f64 - 1_000_000.0) / 50_000.0;
        let got = pow64(x, y);
        let want = x.powf(y);
        if want.is_finite() && want != 0.0 && want.abs() > f64::MIN_POSITIVE {
            let d = (got.to_bits() as i64 - want.to_bits() as i64).abs();
            assert!(d <= 2, "pow({}, {}) = {:e}, platform {:e}", x, y, got, want);
        }
        let xs = x as f32;
        let ys = y as f32;
        let got = pow32(xs, ys);
        let want = (xs as f64).powf(ys as f64) as f32;
        if want.is_finite() && want != 0.0 && want.abs() > f32::MIN_POSITIVE {
            let d = (got.to_bits() as i64 - want.to_bits() as i64).abs();
            assert!(d <= 2, "powf({}, {}) = {:e}, platform {:e}", xs, ys, got, want);
        }
        let got = ln32(xs);
        let want = (xs as f64).ln() as f32;
        let d = (got.to_bits() as i64 - want.to_bits() as i64).abs();
        assert!(d <= 2, "logf({}) = {:e}, platform {:e}", xs, got, want);
    }
}
