use softlibm::{double, single};

/// A fixed sequence of well-mixed 64-bit values.
struct Sequence(u64);

impl Sequence {
    fn next(&mut self) -> u64 {
        self.0 = self.0.wrapping_add(0x9e37_79b9_7f4a_7c15);
        let mut z = self.0;
        z = (z ^ (z >> 30)).wrapping_mul(0xbf58_476d_1ce4_e5b9);
        z = (z ^ (z >> 27)).wrapping_mul(0x94d0_49bb_1331_11eb);
        z ^ (z >> 31)
    }
}

const EDGES_64: &[u64] = &[
    0x0000_0000_0000_0000,
    0x8000_0000_0000_0000,
    0x0000_0000_0000_0001,
    0x8000_0000_0000_0001,
    0x000f_ffff_ffff_ffff,
    0x0010_0000_0000_0000,
    0x0010_0000_0000_0001,
    0x3fe0_0000_0000_0000,
    0x3fef_ffff_ffff_ffff,
    0x3ff0_0000_0000_0000,
    0xbff0_0000_0000_0000,
    0x3ff0_0000_0000_0001,
    0x3ff8_0000_0000_0000,
    0x4000_0000_0000_0000,
    0x4008_0000_0000_0000,
    0x4340_0000_0000_0000,
    0x4330_0000_0000_0001,
    0x7fef_ffff_ffff_ffff,
    0xffef_ffff_ffff_ffff,
    0x7fe0_0000_0000_0000,
    0x7ff0_0000_0000_0000,
    0xfff0_0000_0000_0000,
    0x7ff8_0000_0000_0000,
    0x7ff0_0000_0000_0001,
    0xfff4_0000_0000_0000,
    0x3ca0_0000_0000_0000,
    0x0360_0000_0000_0000,
];

const EDGES_32: &[u32] = &[
    0x0000_0000,
    0x8000_0000,
    0x0000_0001,
    0x8000_0001,
    0x007f_ffff,
    0x0080_0000,
    0x0080_0001,
    0x3f00_0000,
    0x3f7f_ffff,
    0x3f80_0000,
    0xbf80_0000,
    0x3f80_0001,
    0x3fc0_0000,
    0x4000_0000,
    0x4040_0000,
    0x4b80_0000,
    0x4b00_0001,
    0x7f7f_ffff,
    0xff7f_ffff,
    0x7f00_0000,
    0x7f80_0000,
    0xff80_0000,
    0x7fc0_0000,
    0x7f80_0001,
    0xffa0_0000,
    0x3300_0000,
    0x0c00_0000,
];

/// Random patterns, some with exponents close to one another so that sums
/// cancel and products stay in range.
fn patterns_64(count: usize) -> Vec<(u64, u64)> {
    let mut seq = Sequence(7);
    let mut out = Vec::new();
    for a in EDGES_64 {
        for b in EDGES_64 {
            out.push((*a, *b));
        }
    }
    for i in 0..count {
        let a = seq.next();
        let mut b = seq.next();
        match i % 4 {
            1 => {
                // same exponent field
                b = (b & 0x800f_ffff_ffff_ffff) | (a & 0x7ff0_0000_0000_0000);
            }
            2 => {
                // exponent field within a few units
                let e = ((a >> 52) & 0x7ff).wrapping_add(seq.next() % 7).wrapping_sub(3) & 0x7ff;
                b = (b & 0x800f_ffff_ffff_ffff) | (e << 52);
            }
            3 => {
                // small exponents, where results are subnormal
                b = (b & 0x800f_ffff_ffff_ffff) | ((seq.next() % 64) << 52);
            }
            _ => {}
        }
        out.push((a, b));
    }
    out
}

fn patterns_32(count: usize) -> Vec<(u32, u32)> {
    let mut seq = Sequence(11);
    let mut out = Vec::new();
    for a in EDGES_32 {
        for b in EDGES_32 {
            out.push((*a, *b));
        }
    }
    for i in 0..count {
        let a = seq.next() as u32;
        let mut b = seq.next() as u32;
        match i % 4 {
            1 => {
                b = (b & 0x807f_ffff) | (a & 0x7f80_0000);
            }
            2 => {
                let e = ((a >> 23) & 0xff).wrapping_add((seq.next() % 7) as u32).wrapping_sub(3)
                    & 0xff;
                b = (b & 0x807f_ffff) | (e << 23);
            }
            3 => {
                b = (b & 0x807f_ffff) | (((seq.next() % 32) as u32) << 23);
            }
            _ => {}
        }
        out.push((a, b));
    }
    out
}

fn same_64(got: u64, want: f64, what: &str, a: u64, b: u64) {
    let ok = if want.is_nan() {
        f64::from_bits(got).is_nan()
    } else {
        got == want.to_bits()
    };
    let want = want.to_bits();
    assert!(ok, "{} of {:#018x} and {:#018x}: {:#018x}, not {:#018x}", what, a, b, got, want);
}

fn same_32(got: u32, want: f32, what: &str, a: u32, b: u32) {
    let ok = if want.is_nan() {
        f32::from_bits(got).is_nan()
    } else {
        got == want.to_bits()
    };
    let want = want.to_bits();
    assert!(ok, "{} of {:#010x} and {:#010x}: {:#010x}, not {:#010x}", what, a, b, got, want);
}

#[test]
fn double_sum_matches_hardware() {
    for (a, b) in patterns_64(400_000) {
        same_64(double::plus(a, b), f64::from_bits(a) + f64::from_bits(b), "sum", a, b);
    }
}

#[test]
fn double_difference_matches_hardware() {
    for (a, b) in patterns_64(400_000) {
        same_64(double::minus(a, b), f64::from_bits(a) - f64::from_bits(b), "difference", a, b);
    }
}

#[test]
fn double_product_matches_hardware() {
    for (a, b) in patterns_64(400_000) {
        same_64(double::times(a, b), f64::from_bits(a) * f64::from_bits(b), "product", a, b);
    }
}

#[test]
fn double_quotient_matches_hardware() {
    for (a, b) in patterns_64(400_000) {
        same_64(double::over(a, b), f64::from_bits(a) / f64::from_bits(b), "quotient", a, b);
    }
}

#[test]
fn double_root_matches_hardware() {
    for (a, b) in patterns_64(200_000) {
        same_64(double::sqrt(a), f64::from_bits(a).sqrt(), "root", a, 0);
        same_64(double::sqrt(b), f64::from_bits(b).sqrt(), "root", b, 0);
    }
}

#[test]
fn double_order_matches_hardware() {
    for (a, b) in patterns_64(200_000) {
        assert_eq!(double::lt(a, b), f64::from_bits(a) < f64::from_bits(b), "{:#x} < {:#x}", a, b);
        let want = f64::from_bits(a) <= f64::from_bits(b);
        assert_eq!(double::le(a, b), want, "{:#x} <= {:#x}", a, b);
    }
}

#[test]
fn double_sign_operations() {
    for (a, _) in patterns_64(2000) {
        assert_eq!(double::neg(a), (-f64::from_bits(a)).to_bits());
        assert_eq!(double::abs(a), f64::from_bits(a).abs().to_bits());
    }
}

#[test]
fn double_from_int_matches_hardware() {
    let mut seq = Sequence(3);
    for n in [0, 1, -1, 2, -53, 1023, -1074, i32::MAX, i32::MIN, 0x7fff_ff80, 16777217] {
        assert_eq!(double::from_int(n), (n as f64).to_bits());
    }
    for _ in 0..2000 {
        let n = seq.next() as i32;
        assert_eq!(double::from_int(n), (n as f64).to_bits());
    }
}

#[test]
fn double_scale_is_one_rounding() {
    // 2^n as a number, for n where it is normal
    let two_to = |n: i32| f64::from_bits(((1023 + n) as u64) << 52);
    for (a, _) in patterns_64(4000) {
        for n in [-1022, -600, -53, -1, 0, 1, 52, 600, 1023] {
            same_64(double::scale(a, n), f64::from_bits(a) * two_to(n), "scaling", a, n as u64);
        }
    }
    // beyond the exponent range in one step
    assert_eq!(double::scale(1.0f64.to_bits(), -1074), 1);
    assert_eq!(double::scale(1.0f64.to_bits(), -1075), 0);
    assert_eq!(double::scale(1.5f64.to_bits(), -1075), 1);
    assert_eq!(double::scale(1.0f64.to_bits(), 1024), f64::INFINITY.to_bits());
    // every exponent is taken
    assert_eq!(double::scale(1, 2097), 0x7fe0_0000_0000_0000);
    assert_eq!(double::scale(1, 2098), f64::INFINITY.to_bits());
    assert_eq!(double::scale((-3.5f64).to_bits(), i32::MAX), f64::NEG_INFINITY.to_bits());
    assert_eq!(double::scale((-3.5f64).to_bits(), i32::MIN), (-0.0f64).to_bits());
    assert_eq!(double::scale(f64::MAX.to_bits(), -2098), 1);
    assert_eq!(double::scale(0, i32::MAX), 0);
    assert_eq!(double::scale(f64::INFINITY.to_bits(), i32::MIN), f64::INFINITY.to_bits());
    assert_eq!(double::scale(0x7ff0_0000_0000_0001, 3), 0x7ff8_0000_0000_0001);
}

#[test]
fn single_sum_matches_hardware() {
    for (a, b) in patterns_32(400_000) {
        same_32(single::plus(a, b), f32::from_bits(a) + f32::from_bits(b), "sum", a, b);
    }
}

#[test]
fn single_difference_matches_hardware() {
    for (a, b) in patterns_32(400_000) {
        same_32(single::minus(a, b), f32::from_bits(a) - f32::from_bits(b), "difference", a, b);
    }
}

#[test]
fn single_product_matches_hardware() {
    for (a, b) in patterns_32(400_000) {
        same_32(single::times(a, b), f32::from_bits(a) * f32::from_bits(b), "product", a, b);
    }
}

#[test]
fn single_quotient_matches_hardware() {
    for (a, b) in patterns_32(400_000) {
        same_32(single::over(a, b), f32::from_bits(a) / f32::from_bits(b), "quotient", a, b);
    }
}

#[test]
fn single_root_matches_hardware() {
    for (a, b) in patterns_32(200_000) {
        same_32(single::sqrt(a), f32::from_bits(a).sqrt(), "root", a, 0);
        same_32(single::sqrt(b), f32::from_bits(b).sqrt(), "root", b, 0);
    }
}

#[test]
fn single_order_matches_hardware() {
    for (a, b) in patterns_32(200_000) {
        assert_eq!(single::lt(a, b), f32::from_bits(a) < f32::from_bits(b), "{:#x} < {:#x}", a, b);
        let want = f32::from_bits(a) <= f32::from_bits(b);
        assert_eq!(single::le(a, b), want, "{:#x} <= {:#x}", a, b);
    }
}

#[test]
fn single_sign_operations() {
    for (a, _) in patterns_32(2000) {
        assert_eq!(single::neg(a), (-f32::from_bits(a)).to_bits());
        assert_eq!(single::abs(a), f32::from_bits(a).abs().to_bits());
    }
}

#[test]
fn single_from_int_matches_hardware() {
    let mut seq = Sequence(5);
    for n in [0, 1, -1, 2, -25, 127, -149, i32::MAX, i32::MIN, 0x7fff_ff80, 16777217, 16777219] {
        assert_eq!(single::from_int(n), (n as f32).to_bits());
    }
    for _ in 0..2000 {
        let n = seq.next() as i32;
        assert_eq!(single::from_int(n), (n as f32).to_bits());
    }
}

#[test]
fn single_scale_is_one_rounding() {
    let two_to = |n: i32| f32::from_bits(((127 + n) as u32) << 23);
    for (a, _) in patterns_32(4000) {
        for n in [-126, -60, -24, -1, 0, 1, 23, 60, 127] {
            same_32(single::scale(a, n), f32::from_bits(a) * two_to(n), "scaling", a, n as u32);
        }
    }
    assert_eq!(single::scale(1.0f32.to_bits(), -149), 1);
    assert_eq!(single::scale(1.0f32.to_bits(), -150), 0);
    assert_eq!(single::scale(1.5f32.to_bits(), -150), 1);
    assert_eq!(single::scale(1.0f32.to_bits(), 128), f32::INFINITY.to_bits());
    assert_eq!(single::scale(1, 276), 0x7f00_0000);
    assert_eq!(single::scale(1, 277), f32::INFINITY.to_bits());
    assert_eq!(single::scale((-3.5f32).to_bits(), i32::MAX), f32::NEG_INFINITY.to_bits());
    assert_eq!(single::scale((-3.5f32).to_bits(), i32::MIN), (-0.0f32).to_bits());
    assert_eq!(single::scale(f32::MAX.to_bits(), -277), 1);
}

#[test]
fn quiet_nan_is_handed_on() {
    // a signalling NaN comes back quiet, with its sign and payload
    assert_eq!(double::plus(0x7ff0_0000_0000_0001, 1.0f64.to_bits()), 0x7ff8_0000_0000_0001);
    assert_eq!(double::times(2.0f64.to_bits(), 0xfff4_0000_0000_0000), 0xfffc_0000_0000_0000);
    assert_eq!(single::over(0x7f80_0001, 0x3f80_0000), 0x7fc0_0001);
    // an invalid operation gives the default NaN
    assert_eq!(double::over(0, 0), 0x7ff8_0000_0000_0000);
    assert_eq!(single::minus(0x7f80_0000, 0x7f80_0000), 0x7fc0_0000);
    assert_eq!(single::sqrt(0xbf80_0000), 0x7fc0_0000);
}
