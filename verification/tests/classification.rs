use softlibm::format::Format;
use softlibm::ladder::{exponent_parity, special, Parity};

fn parity64(y: f64) -> Parity {
    exponent_parity(Format::Binary64, y.to_bits())
}

fn parity32(y: f32) -> Parity {
    exponent_parity(Format::Binary32, y.to_bits() as u64)
}

#[test]
fn parity_of_whole_numbers() {
    for n in -40i32..40 {
        let want = if n % 2 == 0 { Parity::Even } else { Parity::Odd };
        assert_eq!(parity64(n as f64), want, "{}", n);
        assert_eq!(parity32(n as f32), want, "{}", n);
    }
    assert_eq!(parity64(-0.0), Parity::Even);
    assert_eq!(parity64(9007199254740991.0), Parity::Odd);
    assert_eq!(parity64(9007199254740992.0), Parity::Even);
    assert_eq!(parity64(9007199254740993.0), Parity::Even);
    assert_eq!(parity64(4503599627370497.0), Parity::Odd);
    assert_eq!(parity64(1e300), Parity::Even);
    assert_eq!(parity64(f64::MAX), Parity::Even);
    assert_eq!(parity64(f64::INFINITY), Parity::Even);
    assert_eq!(parity64(f64::NEG_INFINITY), Parity::Even);
    assert_eq!(parity32(16777215.0), Parity::Odd);
    assert_eq!(parity32(16777216.0), Parity::Even);
    assert_eq!(parity32(8388609.0), Parity::Odd);
    assert_eq!(parity32(f32::MAX), Parity::Even);
    assert_eq!(parity32(f32::INFINITY), Parity::Even);
}

#[test]
fn parity_of_fractions() {
    let fractions =
        [0.5, -0.5, 1.5, 2.2, -1.14, 1e-300, 5e-324, 0.999_999_999_999_999_9, 1.000_000_000_000_000_2];
    for y in fractions {
        assert_eq!(parity64(y), Parity::NotInteger, "{}", y);
    }
    assert_eq!(parity64(4503599627370495.5), Parity::NotInteger);
    assert_eq!(parity64(2251799813685248.5), Parity::NotInteger);
    assert_eq!(parity64(3.000_000_000_000_000_4), Parity::NotInteger);
    for y in [0.5f32, -0.5, 1.5, 2.2, 1e-40, 0.999_999_94, 8388607.5, 3.000_000_2] {
        assert_eq!(parity32(y), Parity::NotInteger, "{}", y);
    }
}

#[test]
fn patterns_split_and_join() {
    let patterns = [
        0u64,
        1,
        0x3ff0_0000_0000_0000,
        0xbff8_0000_0000_0001,
        0x7ff0_0000_0000_0000,
        0xffff_ffff_ffff_ffff,
    ];
    for b in patterns {
        let (negative, mag) = Format::Binary64.split(b);
        assert_eq!(negative, (b >> 63) == 1);
        assert_eq!(mag, b & 0x7fff_ffff_ffff_ffff);
        assert_eq!(Format::Binary64.join(negative, mag), b);
    }
    for b in [0u64, 1, 0x3f80_0000, 0xbfc0_0001, 0x7f80_0000, 0xffff_ffff] {
        let (negative, mag) = Format::Binary32.split(b);
        assert_eq!(negative, (b >> 31) == 1);
        assert_eq!(mag, b & 0x7fff_ffff);
        assert_eq!(Format::Binary32.join(negative, mag), b);
    }
}

#[test]
fn finite_patterns_decode_to_significand_and_exponent() {
    // 1.0 = 2^52 * 2^-52
    assert_eq!(Format::Binary64.decode(0x3ff0_0000_0000_0000), (1 << 52, -52));
    // 1.5 = 3 * 2^51 * 2^-52
    assert_eq!(Format::Binary64.decode(0x3ff8_0000_0000_0000), (3 << 51, -52));
    // the least subnormal and the least normal number
    assert_eq!(Format::Binary64.decode(1), (1, -1074));
    assert_eq!(Format::Binary64.decode(0x0010_0000_0000_0000), (1 << 52, -1074));
    assert_eq!(Format::Binary64.decode(0x000f_ffff_ffff_ffff), ((1 << 52) - 1, -1074));
    // the largest finite number
    assert_eq!(Format::Binary64.decode(0x7fef_ffff_ffff_ffff), ((1 << 53) - 1, 971));
    assert_eq!(Format::Binary64.decode(0), (0, -1074));
    assert_eq!(Format::Binary32.decode(0x3f80_0000), (1 << 23, -23));
    assert_eq!(Format::Binary32.decode(1), (1, -149));
    assert_eq!(Format::Binary32.decode(0x0080_0000), (1 << 23, -149));
    assert_eq!(Format::Binary32.decode(0x7f7f_ffff), ((1 << 24) - 1, 104));
    assert_eq!(Format::Binary32.decode(0x4040_0000), (3 << 22, -22));
}

#[test]
fn nan_is_made_quiet() {
    assert_eq!(Format::Binary64.quiet(0x7ff0_0000_0000_0001), 0x7ff8_0000_0000_0001);
    assert_eq!(Format::Binary64.quiet(0xfff8_0000_0000_0001), 0xfff8_0000_0000_0001);
    assert_eq!(Format::Binary32.quiet(0xff80_0400), 0xffc0_0400);
    assert_eq!(Format::Binary32.quiet(0x7fff_ffff), 0x7fff_ffff);
}

#[test]
fn exact_cases_in_their_order() {
    let f = Format::Binary64;
    let b = |x: f64| x.to_bits();
    // the power zero comes before the NaN
    assert_eq!(special(f, b(f64::NAN), b(0.0)), Some(b(1.0)));
    // the base one comes before the NaN
    assert_eq!(special(f, b(1.0), b(f64::NAN)), Some(b(1.0)));
    // the infinite power before the powers one and two
    assert_eq!(special(f, b(-1.0), b(f64::INFINITY)), Some(b(1.0)));
    assert_eq!(special(f, b(0.5), b(f64::NEG_INFINITY)), Some(b(f64::INFINITY)));
    assert_eq!(special(f, b(-3.0), b(1.0)), Some(b(-3.0)));
    assert_eq!(special(f, b(4.0), b(-1.0)), Some(b(0.25)));
    assert_eq!(special(f, b(-3.0), b(2.0)), Some(b(9.0)));
    assert_eq!(special(f, b(9.0), b(0.5)), Some(b(3.0)));
    // a negative base takes no root
    assert_eq!(special(f, b(-9.0), b(0.5)), Some(0x7ff8_0000_0000_0000));
    assert_eq!(special(f, b(-0.0), b(0.5)), Some(b(0.0)));
    // zeros and infinities as bases
    assert_eq!(special(f, b(-0.0), b(3.0)), Some(b(-0.0)));
    assert_eq!(special(f, b(-0.0), b(-3.0)), Some(b(f64::NEG_INFINITY)));
    assert_eq!(special(f, b(-0.0), b(-4.0)), Some(b(f64::INFINITY)));
    assert_eq!(special(f, b(f64::NEG_INFINITY), b(3.0)), Some(b(f64::NEG_INFINITY)));
    assert_eq!(special(f, b(f64::NEG_INFINITY), b(-3.0)), Some(b(-0.0)));
    assert_eq!(special(f, b(f64::NEG_INFINITY), b(2.5)), Some(b(f64::INFINITY)));
    assert_eq!(special(f, b(-1.0), b(2.5)), Some(0x7ff8_0000_0000_0000));
    assert_eq!(special(f, b(-1.0), b(7.0)), Some(b(-1.0)));
    assert_eq!(special(f, b(-1.0), b(-8.0)), Some(b(1.0)));
    // what has to be computed
    assert_eq!(special(f, b(2.0), b(3.0)), None);
    assert_eq!(special(f, b(-2.0), b(3.0)), None);
    assert_eq!(special(f, b(2.0), b(-0.5)), None);
    assert_eq!(special(f, b(-2.0), b(-0.5)), Some(0x7ff8_0000_0000_0000));
    let s = Format::Binary32;
    let c = |x: f32| x.to_bits() as u64;
    assert_eq!(special(s, c(f32::NAN), c(-0.0)), Some(c(1.0)));
    assert_eq!(special(s, c(4.0), c(-1.0)), Some(c(0.25)));
    assert_eq!(special(s, c(9.0), c(0.5)), Some(c(3.0)));
    assert_eq!(special(s, c(-2.0), c(1.5)), Some(0x7fc0_0000));
    assert_eq!(special(s, c(2.0), c(1.5)), None);
}
