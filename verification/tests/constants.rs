use softlibm::{double, logf, pow, powf, single};

#[test]
fn logf_constants_are_the_intended_numbers() {
    assert_eq!(logf::LN2_HI, 6.931_381e-1f32.to_bits());
    assert_eq!(logf::LN2_LO, 9.058_001e-6f32.to_bits());
    assert_eq!(logf::LG1, 0.666_666_6f32.to_bits());
    assert_eq!(logf::LG2, 0.400_009_72f32.to_bits());
    assert_eq!(logf::LG3, 0.284_987_87f32.to_bits());
    assert_eq!(logf::LG4, 0.242_790_79f32.to_bits());
    assert_eq!(logf::TWO25, 33554432.0f32.to_bits());
    assert_eq!(logf::SQRT_HALF, 0x3f35_04f3);
    assert_eq!(f32::from_bits(logf::SQRT_HALF), core::f32::consts::FRAC_1_SQRT_2);
    assert_eq!(logf::TO_ONE, 0x3f80_0000 - logf::SQRT_HALF);
    // ln 2 in two parts, the high one with its last 7 digits zero
    assert_eq!(logf::LN2_HI & 0x7f, 0);
    let sum = f32::from_bits(logf::LN2_HI) as f64 + f32::from_bits(logf::LN2_LO) as f64;
    assert!((sum - core::f64::consts::LN_2).abs() < 1e-11);
}

#[test]
fn powf_constants_are_the_intended_numbers() {
    assert_eq!(powf::DP_H, 5.849_609_4e-1f32.to_bits());
    assert_eq!(powf::DP_L, 1.563_220_8e-6f32.to_bits());
    assert_eq!(powf::TWO24, 16777216.0f32.to_bits());
    assert_eq!(powf::L1, 6e-1f32.to_bits());
    assert_eq!(powf::L2, 4.285_714_3e-1f32.to_bits());
    assert_eq!(powf::L3, 3.333_333_4e-1f32.to_bits());
    assert_eq!(powf::L4, 2.727_281_2e-1f32.to_bits());
    assert_eq!(powf::L5, 2.306_607_5e-1f32.to_bits());
    assert_eq!(powf::L6, 2.069_750_1e-1f32.to_bits());
    assert_eq!(powf::E1, 1.666_666_7e-1f32.to_bits());
    assert_eq!(powf::E2, (-2.777_777_8e-3f32).to_bits());
    assert_eq!(powf::E3, 6.613_756e-5f32.to_bits());
    assert_eq!(powf::E4, (-1.653_390_2e-6f32).to_bits());
    assert_eq!(powf::E5, 4.138_137e-8f32.to_bits());
    assert_eq!(powf::LG2, 6.931_472e-1f32.to_bits());
    assert_eq!(powf::LG2_H, 6.931_457_5e-1f32.to_bits());
    assert_eq!(powf::LG2_L, 1.428_606_5e-6f32.to_bits());
    assert_eq!(powf::OVT, 4.299_566_6e-8f32.to_bits());
    assert_eq!(powf::CP, 9.617_967e-1f32.to_bits());
    assert_eq!(powf::CP_H, 9.619_140_6e-1f32.to_bits());
    assert_eq!(powf::CP_L, (-1.173_685_74e-4f32).to_bits());
    assert_eq!(powf::IVLN2, 1.442_695f32.to_bits());
    assert_eq!(powf::IVLN2_H, 1.442_688f32.to_bits());
    assert_eq!(powf::IVLN2_L, 7.052_607_5e-6f32.to_bits());
    assert_eq!(powf::THIRD, 0.333_333_34f32.to_bits());
    assert_eq!(powf::OVERFLOW_AT, 128.0f32.to_bits());
    assert_eq!(powf::UNDERFLOW_AT, 150.0f32.to_bits());
    // the bit patterns themselves
    assert_eq!(powf::DP_H, 0x3f15_c000);
    assert_eq!(powf::DP_L, 0x35d1_cfdc);
    assert_eq!(powf::L1, 0x3f19_999a);
    assert_eq!(powf::L6, 0x3e53_f142);
    assert_eq!(powf::E1, 0x3e2a_aaab);
    assert_eq!(powf::E5, 0x3331_bb4c);
    assert_eq!(powf::CP_L, 0xb8f6_23c6);
}

#[test]
fn pow_constants_are_the_intended_numbers() {
    assert_eq!(pow::DP_H, 5.849_624_872_207_642e-1f64.to_bits());
    assert_eq!(pow::DP_L, 1.350_039_202_129_749e-8f64.to_bits());
    assert_eq!(pow::TWO53, 9007199254740992.0f64.to_bits());
    assert_eq!(pow::L1, 5.999_999_999_999_946e-1f64.to_bits());
    assert_eq!(pow::L2, 4.285_714_285_785_502e-1f64.to_bits());
    assert_eq!(pow::L3, 3.333_333_298_183_774_3e-1f64.to_bits());
    assert_eq!(pow::L4, 2.727_281_238_085_34e-1f64.to_bits());
    assert_eq!(pow::L5, 2.306_607_457_755_617_5e-1f64.to_bits());
    assert_eq!(pow::L6, 2.069_750_178_003_384_2e-1f64.to_bits());
    assert_eq!(pow::E1, 1.666_666_666_666_660_2e-1f64.to_bits());
    assert_eq!(pow::E2, (-2.777_777_777_701_559_3e-3f64).to_bits());
    assert_eq!(pow::E3, 6.613_756_321_437_934e-5f64.to_bits());
    assert_eq!(pow::E4, (-1.653_390_220_546_525_2e-6f64).to_bits());
    assert_eq!(pow::E5, 4.138_136_797_057_238_5e-8f64.to_bits());
    assert_eq!(pow::LG2, 6.931_471_805_599_453e-1f64.to_bits());
    assert_eq!(pow::LG2_H, 6.931_471_824_645_996e-1f64.to_bits());
    assert_eq!(pow::LG2_L, (-1.904_654_299_957_768e-9f64).to_bits());
    assert_eq!(pow::OVT, 8.008_566_259_537_294e-17f64.to_bits());
    assert_eq!(pow::CP, 9.617_966_939_259_756e-1f64.to_bits());
    assert_eq!(pow::CP_H, 9.617_967_009_544_373e-1f64.to_bits());
    assert_eq!(pow::CP_L, (-7.028_461_650_952_758e-9f64).to_bits());
    assert_eq!(pow::IVLN2, 1.442_695_040_888_963_4f64.to_bits());
    assert_eq!(pow::IVLN2_H, 1.442_695_021_629_333_5f64.to_bits());
    assert_eq!(pow::IVLN2_L, 1.925_962_991_126_617_5e-8f64.to_bits());
    assert_eq!(pow::THIRD, 0.333_333_333_333_333_3f64.to_bits());
    assert_eq!(pow::OVERFLOW_AT, 1024.0f64.to_bits());
    assert_eq!(pow::UNDERFLOW_AT, 1075.0f64.to_bits());
    assert_eq!(pow::WORD, 1 << 32);
    // the bit patterns themselves
    assert_eq!(pow::DP_H, 0x3fe2_b803_4000_0000);
    assert_eq!(pow::DP_L, 0x3e4c_fdeb_43cf_d006);
    assert_eq!(pow::L1, 0x3fe3_3333_3333_3303);
    assert_eq!(pow::L6, 0x3fca_7e28_4a45_4eef);
    assert_eq!(pow::E1, 0x3fc5_5555_5555_553e);
    assert_eq!(pow::E5, 0x3e66_3769_72be_a4d0);
    assert_eq!(pow::LG2, 0x3fe6_2e42_fefa_39ef);
    assert_eq!(pow::CP, 0x3fee_c709_dc3a_03fd);
    assert_eq!(pow::IVLN2, 0x3ff7_1547_652b_82fe);
    // high parts have their low word clear
    assert_eq!(pow::LG2_H & 0xffff_ffff, 0);
    assert_eq!(pow::CP_H & 0x0fff_ffff, 0);
    assert_eq!(pow::IVLN2_H & 0x0fff_ffff, 0);
}

#[test]
fn named_numbers_of_both_formats() {
    assert_eq!(single::ZERO, 0.0f32.to_bits());
    assert_eq!(single::SIGN, (-0.0f32).to_bits());
    assert_eq!(single::ONE, 1.0f32.to_bits());
    assert_eq!(single::NEG_ONE, (-1.0f32).to_bits());
    assert_eq!(single::TWO, 2.0f32.to_bits());
    assert_eq!(single::THREE, 3.0f32.to_bits());
    assert_eq!(single::HALF, 0.5f32.to_bits());
    assert_eq!(single::QUARTER, 0.25f32.to_bits());
    assert_eq!(single::ONE_AND_HALF, 1.5f32.to_bits());
    assert_eq!(single::INF, f32::INFINITY.to_bits());
    assert_eq!(single::NEG_INF, f32::NEG_INFINITY.to_bits());
    assert!(f32::from_bits(single::DEFAULT_NAN).is_nan());
    assert_eq!(double::ZERO, 0.0f64.to_bits());
    assert_eq!(double::SIGN, (-0.0f64).to_bits());
    assert_eq!(double::ONE, 1.0f64.to_bits());
    assert_eq!(double::NEG_ONE, (-1.0f64).to_bits());
    assert_eq!(double::TWO, 2.0f64.to_bits());
    assert_eq!(double::THREE, 3.0f64.to_bits());
    assert_eq!(double::HALF, 0.5f64.to_bits());
    assert_eq!(double::QUARTER, 0.25f64.to_bits());
    assert_eq!(double::ONE_AND_HALF, 1.5f64.to_bits());
    assert_eq!(double::INF, f64::INFINITY.to_bits());
    assert_eq!(double::NEG_INF, f64::NEG_INFINITY.to_bits());
    assert!(f64::from_bits(double::DEFAULT_NAN).is_nan());
}
