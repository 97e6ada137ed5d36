//! Exponentiation in binary64.
//!
//! Where no exact case applies, `|x|^y` is `2^(y * log2 |x|)`: the logarithm
//! is computed as a pair `t1 + t2` of binary64 numbers, the product with `y`
//! as a pair again, and its whole part `n` goes into the exponent field of
//! `2^fraction`.
use crate::double::{
    abs, absolute, diff, exponent, from_int, from_integer, is_finite, is_inf, is_nan, is_zero, le,
    less, less_eq, lt, minus, negative, over, plus, prod, quieted, quot, scale, scaled, significand,
    sum, times, HALF, INF, NEG_INF, NEG_ONE, ONE, ONE_AND_HALF, QUARTER, SIGN, THREE, TWO, ZERO,
};
use crate::format::Format;
use crate::halfway::{lemma_half_added, lemma_half_carried, lemma_low_word_is_below, nearest_whole};
use crate::identities::{lemma_high_part, lemma_prod_is_scaling, lemma_scale_subnormal};
use crate::ladder::{exponent_parity, negative_power, special, special_value, Parity};
use crate::pow_laws::{
    fractional_power_of_negative, infinite_power, nan_operand, one_to_any_power, power_minus_one,
    power_one, power_two, power_zero, whole,
};
use crate::power::{lemma_pow2_increases, pow2_u64};
use crate::rounding::{lemma_round_exact, lemma_round_scale};
use vstd::arithmetic::div_mod::*;
use vstd::arithmetic::mul::*;
use vstd::arithmetic::power2::*;
use vstd::prelude::*;

verus! {

/// High and low part of `log2(1.5)`.
pub const DP_H: u64 = 0x3fe2_b803_4000_0000;

pub const DP_L: u64 = 0x3e4c_fdeb_43cf_d006;

/// `2^53`, which makes a subnormal number normal.
pub const TWO53: u64 = 0x4340_0000_0000_0000;

/// Coefficients of the polynomial for the logarithm.
pub const L1: u64 = 0x3fe3_3333_3333_3303;

pub const L2: u64 = 0x3fdb_6db6_db6f_abff;

pub const L3: u64 = 0x3fd5_5555_518f_264d;

pub const L4: u64 = 0x3fd1_7460_a91d_4101;

pub const L5: u64 = 0x3fcd_864a_93c9_db65;

pub const L6: u64 = 0x3fca_7e28_4a45_4eef;

/// Coefficients of the polynomial for the exponential.
pub const E1: u64 = 0x3fc5_5555_5555_553e;

pub const E2: u64 = 0xbf66_c16c_16be_bd93;

pub const E3: u64 = 0x3f11_566a_af25_de2c;

pub const E4: u64 = 0xbebb_bd41_c5d2_6bf1;

pub const E5: u64 = 0x3e66_3769_72be_a4d0;

/// `ln 2`, and its high and low part.
pub const LG2: u64 = 0x3fe6_2e42_fefa_39ef;

pub const LG2_H: u64 = 0x3fe6_2e43_0000_0000;

pub const LG2_L: u64 = 0xbe20_5c61_0ca8_6c39;

/// `-(1024 - log2(largest finite + half an ulp))`.
pub const OVT: u64 = 0x3c97_1547_652b_82fe;

/// `2 / (3 ln 2)`, and its high and low part.
pub const CP: u64 = 0x3fee_c709_dc3a_03fd;

pub const CP_H: u64 = 0x3fee_c709_e000_0000;

pub const CP_L: u64 = 0xbe3e_2fe0_145b_01f5;

/// `1 / ln 2`, and its high and low part.
pub const IVLN2: u64 = 0x3ff7_1547_652b_82fe;

pub const IVLN2_H: u64 = 0x3ff7_1547_6000_0000;

pub const IVLN2_L: u64 = 0x3e54_ae0b_f85d_df44;

/// `1/3`, rounded.
pub const THIRD: u64 = 0x3fd5_5555_5555_5555;

/// The pattern of `1024.0`, from which on `2^z` overflows.
pub const OVERFLOW_AT: u64 = 0x4090_0000_0000_0000;

/// The magnitude pattern of `1075.0`: `2^z` underflows from `-1075.0` down.
pub const UNDERFLOW_AT: u64 = 0x4090_cc00_0000_0000;

/// `2^32`: a pattern is a high word times this, plus a low word.
pub const WORD: u64 = 0x1_0000_0000;

/// `a` with the low digits below `unit` cleared; `unit` is a power of two.
pub open spec fn chopped(a: u64, unit: u64) -> u64 {
    (a - a % unit) as u64
}

/// Splits off the high part of `a`: clears the low word.
fn chop(a: u64) -> (r: u64)
    ensures
        r == chopped(a, WORD),
        is_finite(a) ==> is_finite(r) && negative(r) == negative(a) && exponent(r) == exponent(a)
            && significand(r) == significand(a) - significand(a) % (WORD as nat),
{
    proof {
        lemma_mod_decreases(a as nat, WORD as nat);
        if is_finite(a) {
            chopped_is_high_part(a);
        }
    }
    a - a % WORD
}

/// Chopping splits off the high part of a number: the sign and the exponent
/// stay, and the significand loses the digits of the low word.
pub proof fn chopped_is_high_part(a: u64)
    requires
        is_finite(a),
    ensures
        is_finite(chopped(a, WORD)),
        negative(chopped(a, WORD)) == negative(a),
        exponent(chopped(a, WORD)) == exponent(a),
        significand(chopped(a, WORD)) == significand(a) - significand(a) % (WORD as nat),
{
    lemma_high_part(Format::Binary64, a, WORD as nat);
}

/// A signed infinity or zero: what a power that overflows or underflows is.
pub open spec fn extreme(overflow: bool, negative: bool) -> u64 {
    if overflow {
        if negative {
            NEG_INF
        } else {
            INF
        }
    } else {
        if negative {
            SIGN
        } else {
            ZERO
        }
    }
}

/// Computes `extreme`.
fn extreme_bits(overflow: bool, negative: bool) -> (r: u64)
    ensures
        r == extreme(overflow, negative),
{
    if overflow {
        if negative {
            NEG_INF
        } else {
            INF
        }
    } else {
        if negative {
            SIGN
        } else {
            ZERO
        }
    }
}

/// `L1 + s (L2 + s (L3 + s (L4 + s (L5 + s L6))))`.
pub open spec fn log_poly(s: u64) -> u64 {
    let a5 = sum(L5, prod(s, L6));
    let a4 = sum(L4, prod(s, a5));
    let a3 = sum(L3, prod(s, a4));
    let a2 = sum(L2, prod(s, a3));
    sum(L1, prod(s, a2))
}

/// Computes `log_poly`.
fn log_polynomial(s: u64) -> (r: u64)
    ensures
        r == log_poly(s),
{
    let a5 = plus(L5, times(s, L6));
    let a4 = plus(L4, times(s, a5));
    let a3 = plus(L3, times(s, a4));
    let a2 = plus(L2, times(s, a3));
    plus(L1, times(s, a2))
}

/// `E1 + t (E2 + t (E3 + t (E4 + t E5)))`.
pub open spec fn exp_poly(t: u64) -> u64 {
    let a4 = sum(E4, prod(t, E5));
    let a3 = sum(E3, prod(t, a4));
    let a2 = sum(E2, prod(t, a3));
    sum(E1, prod(t, a2))
}

/// Computes `exp_poly`.
fn exp_polynomial(t: u64) -> (r: u64)
    ensures
        r == exp_poly(t),
{
    let a4 = plus(E4, times(t, E5));
    let a3 = plus(E3, times(t, a4));
    let a2 = plus(E2, times(t, a3));
    plus(E1, times(t, a2))
}

/// `log2(ax)` as a pair, for `ax` so close to one that the series
/// `t - t^2/2 + t^3/3 - t^4/4` in `t = ax - 1` suffices.
pub open spec fn log2_near_one(ax: u64) -> (u64, u64) {
    let t = diff(ax, ONE);
    let w = prod(prod(t, t), diff(HALF, prod(t, diff(THIRD, prod(t, QUARTER)))));
    let u = prod(IVLN2_H, t);
    let v = diff(prod(t, IVLN2_L), prod(w, IVLN2));
    let t1 = chopped(sum(u, v), WORD);
    (t1, diff(v, diff(t1, u)))
}

/// Computes `log2_near_one`.
fn near_one(ax: u64) -> (r: (u64, u64))
    ensures
        r == log2_near_one(ax),
{
    let t = minus(ax, ONE);
    let w = times(times(t, t), minus(HALF, times(t, minus(THIRD, times(t, QUARTER)))));
    let u = times(IVLN2_H, t);
    let v = minus(times(t, IVLN2_L), times(w, IVLN2));
    let t1 = chop(plus(u, v));
    (t1, minus(v, minus(t1, u)))
}

/// Which of the anchors 1 and 1.5 the high word `j` of a fraction field is
/// reduced by; with 2 the number is halved first and then reduced by 1.
pub open spec fn interval(j: u64) -> int {
    if j <= 0x3_988e {
        0
    } else if j < 0xb_b67a {
        1
    } else {
        2
    }
}

/// The normal number with pattern `ix`, with its exponent changed so that
/// it lies near its anchor: in `[1, 2)`, or in `[1/2, 1)` where the fraction
/// field is beyond the last limit.
pub open spec fn near_anchor(ix: u64) -> u64 {
    let j = (ix / WORD) % 0x0010_0000;
    if interval(j) == 2 {
        ((j + 0x3fe0_0000) * WORD + ix % WORD) as u64
    } else {
        ((j + 0x3ff0_0000) * WORD + ix % WORD) as u64
    }
}

/// The power of two that `near_anchor` takes out of the number.
pub open spec fn binade(ix: u64) -> int {
    ix / WORD / 0x0010_0000 - 1023 + if interval(((ix / WORD) % 0x0010_0000) as u64) == 2 {
        1int
    } else {
        0int
    }
}

/// Nothing is lost on the way to the anchor: a normal `ix` is
/// `near_anchor(ix) * 2^binade(ix)`, with the same significand, and
/// `near_anchor(ix)` lies from the pattern of `sqrt(3)/2` up to, not
/// including, that of `sqrt(3)`, as far as the high words tell.
pub proof fn anchor_is_exact(ix: u64)
    requires
        0x0010_0000_0000_0000 <= ix < 0x7ff0_0000_0000_0000,
    ensures
        0x3feb_b67a_0000_0000 <= near_anchor(ix) < 0x3ffb_b67a_0000_0000,
        interval(((ix / WORD) % 0x0010_0000) as u64) == 0 <==> 0x3ff0_0000_0000_0000
            <= near_anchor(ix) < 0x3ff3_988f_0000_0000,
        interval(((ix / WORD) % 0x0010_0000) as u64) == 2 <==> near_anchor(ix)
            < 0x3ff0_0000_0000_0000,
        significand(near_anchor(ix)) == significand(ix),
        exponent(ix) == exponent(near_anchor(ix)) + binade(ix),
{
    assert(ix == near_anchor(ix) + binade(ix) * 0x0010_0000_0000_0000);
}

/// The high part of `ax + anchor`, made from the high word of `ax`: halved,
/// and with what the anchor adds to the exponent and the fraction.
pub open spec fn anchor_sum(ax: u64, k: bool) -> u64 {
    ((ax / WORD / 2 + 0x2008_0000 + if k {
        0x0004_0000int
    } else {
        0int
    }) * WORD) as u64
}

/// `anchor_sum` is `ax + anchor` without the last 33 digits of `ax`: it
/// stands one exponent higher, and twice its significand is the
/// significand of `ax`, its last 33 digits cleared, plus the anchor in the
/// same units.
pub proof fn anchor_sum_is_high_part(ax: u64, k: bool)
    requires
        0x3feb_b67a_0000_0000 <= ax < 0x3ffb_b67a_0000_0000,
        k ==> ax >= ONE,
    ensures
        exponent(anchor_sum(ax, k)) == exponent(ax) + 1,
        2 * significand(anchor_sum(ax, k)) == significand(ax) - significand(ax)
            % 0x2_0000_0000 + significand(
            if k {
                ONE_AND_HALF
            } else {
                ONE
            },
        ) * if ax < ONE {
            2nat
        } else {
            1nat
        },
{
    let top = (ax / WORD) as int;
    let j = top % 0x0010_0000;
    let f = (ax % 0x0010_0000_0000_0000) as int;
    assert(f == j * WORD + ax % WORD);
    assert(f - f % 0x2_0000_0000 == (j / 2) * 0x2_0000_0000);
    assert((f + 0x0010_0000_0000_0000) % 0x2_0000_0000 == f % 0x2_0000_0000);
}

/// `log2(ax) + n` as a pair, for `ax` near its anchor: `1.5` with `k`, and
/// `1` without.
pub open spec fn log2_reduced(ax: u64, k: bool, n: int) -> (u64, u64) {
    let bp = if k {
        ONE_AND_HALF
    } else {
        ONE
    };
    let dp_h = if k {
        DP_H
    } else {
        ZERO
    };
    let dp_l = if k {
        DP_L
    } else {
        ZERO
    };
    let u = diff(ax, bp);
    let v = quot(ONE, sum(ax, bp));
    let s = prod(u, v);
    let s_h = chopped(s, WORD);
    let t_h = anchor_sum(ax, k);
    let t_l = diff(ax, diff(t_h, bp));
    let s_l = prod(v, diff(diff(u, prod(s_h, t_h)), prod(s_h, t_l)));
    let s2 = prod(s, s);
    let r0 = prod(prod(s2, s2), log_poly(s2));
    let r = sum(r0, prod(s_l, sum(s_h, s)));
    let s2h = prod(s_h, s_h);
    let t_h2 = chopped(sum(sum(THREE, s2h), r), WORD);
    let t_l2 = diff(r, diff(diff(t_h2, THREE), s2h));
    let u2 = prod(s_h, t_h2);
    let v2 = sum(prod(s_l, t_h2), prod(t_l2, s));
    let p_h = chopped(sum(u2, v2), WORD);
    let p_l = diff(v2, diff(p_h, u2));
    let z_h = prod(CP_H, p_h);
    let z_l = sum(sum(prod(CP_L, p_h), prod(p_l, CP)), dp_l);
    let t = from_integer(n);
    let t1 = chopped(sum(sum(sum(z_h, z_l), dp_h), t), WORD);
    (t1, diff(z_l, diff(diff(diff(t1, t), dp_h), z_h)))
}

/// `log2` of the normal number with pattern `ix`, plus `n0`, as a pair.
pub open spec fn log2_normal(ix: u64, n0: int) -> (u64, u64) {
    log2_reduced(
        near_anchor(ix),
        interval(((ix / WORD) % 0x0010_0000) as u64) == 1,
        n0 + binade(ix),
    )
}

/// Brings a normal number near its anchor: `ix` is `ax * 2^n`, with the
/// significand of `ax`, and `k` says that the anchor is `1.5`.
fn to_anchor(ix: u64) -> (r: (u64, bool, i32))
    requires
        0x0010_0000_0000_0000 <= ix < INF,
    ensures
        r.0 == near_anchor(ix),
        r.1 == (interval(((ix / WORD) % 0x0010_0000) as u64) == 1),
        r.2 == binade(ix),
        0x3feb_b67a_0000_0000 <= r.0 < 0x3ffb_b67a_0000_0000,
        r.1 ==> r.0 >= ONE,
        significand(r.0) == significand(ix),
        exponent(ix) == exponent(r.0) + r.2,
{
    proof {
        anchor_is_exact(ix);
    }
    let hi: u64 = ix / WORD;
    let j: u64 = hi % 0x0010_0000;
    let n: i32 = (hi / 0x0010_0000) as i32 - 1023;
    if j <= 0x3_988e {
        ((j + 0x3ff0_0000) * WORD + ix % WORD, false, n)
    } else if j < 0xb_b67a {
        ((j + 0x3ff0_0000) * WORD + ix % WORD, true, n)
    } else {
        ((j + 0x3fe0_0000) * WORD + ix % WORD, false, n + 1)
    }
}

/// The high part of `ax + anchor`, one exponent above `ax`.
fn high_sum(ax: u64, k: bool) -> (r: u64)
    requires
        0x3feb_b67a_0000_0000 <= ax < 0x3ffb_b67a_0000_0000,
        k ==> ax >= ONE,
    ensures
        r == anchor_sum(ax, k),
        exponent(r) == exponent(ax) + 1,
{
    proof {
        anchor_sum_is_high_part(ax, k);
    }
    (ax / WORD / 2 + 0x2008_0000 + if k {
        0x0004_0000
    } else {
        0
    }) * WORD
}

/// Computes `log2_normal`: brings the number near its anchor, and takes the
/// logarithm there.
fn log2_of_normal(ix: u64, n0: i32) -> (r: (u64, u64))
    requires
        0x0010_0000_0000_0000 <= ix < INF,
        -64 <= n0 <= 64,
    ensures
        r == log2_normal(ix, n0 as int),
{
    let (ax, k, dn) = to_anchor(ix);
    let n: i32 = n0 + dn;
    let bp: u64 = if k {
        ONE_AND_HALF
    } else {
        ONE
    };
    let dp_h: u64 = if k {
        DP_H
    } else {
        ZERO
    };
    let dp_l: u64 = if k {
        DP_L
    } else {
        ZERO
    };
    let u = minus(ax, bp);
    let v = over(ONE, plus(ax, bp));
    let s = times(u, v);
    let s_h = chop(s);
    let t_h = high_sum(ax, k);
    let t_l = minus(ax, minus(t_h, bp));
    let s_l = times(v, minus(minus(u, times(s_h, t_h)), times(s_h, t_l)));
    let s2 = times(s, s);
    let r0 = times(times(s2, s2), log_polynomial(s2));
    let r = plus(r0, times(s_l, plus(s_h, s)));
    let s2h = times(s_h, s_h);
    let t_h2 = chop(plus(plus(THREE, s2h), r));
    let t_l2 = minus(r, minus(minus(t_h2, THREE), s2h));
    let u2 = times(s_h, t_h2);
    let v2 = plus(times(s_l, t_h2), times(t_l2, s));
    let p_h = chop(plus(u2, v2));
    let p_l = minus(v2, minus(p_h, u2));
    let z_h = times(CP_H, p_h);
    let z_l = plus(plus(times(CP_L, p_h), times(p_l, CP)), dp_l);
    let t = from_int(n);
    let t1 = chop(plus(plus(plus(z_h, z_l), dp_h), t));
    (t1, minus(z_l, minus(minus(minus(t1, t), dp_h), z_h)))
}

/// A positive subnormal number times `2^53` is a normal number, and exactly
/// `2^53` times the number: the product is not rounded.
pub proof fn subnormal_scaling_is_exact(x: u64)
    requires
        0 < x < 0x0010_0000_0000_0000,
    ensures
        prod(x, TWO53) == scaled(x, 53),
        0x0010_0000_0000_0000 <= scaled(x, 53) < INF,
        significand(scaled(x, 53)) * pow2((exponent(scaled(x, 53)) + 1074) as nat) == x * pow2(
            53,
        ),
{
    reveal(prod);
    reveal(scaled);
    lemma_prod_is_scaling(Format::Binary64, x, TWO53, 53);
    lemma_scale_subnormal(Format::Binary64, x, 53);
}

/// `log2(ax)` as a pair, for a positive finite `ax`; a subnormal one is
/// made normal first.
pub open spec fn log2_parts(ax: u64) -> (u64, u64) {
    if ax < 0x0010_0000_0000_0000 {
        log2_normal(scaled(ax, 53), -53)
    } else {
        log2_normal(ax, 0)
    }
}

/// Computes `log2_parts`.
fn log2_general(ax: u64) -> (r: (u64, u64))
    requires
        0 < ax < INF,
    ensures
        r == log2_parts(ax),
{
    if ax < 0x0010_0000_0000_0000 {
        proof {
            subnormal_scaling_is_exact(ax);
        }
        log2_of_normal(times(ax, TWO53), -53)
    } else {
        log2_of_normal(ax, 0)
    }
}

/// The high word of the whole number nearest to the number whose magnitude
/// has the high word `i`, for `0.5 < |z| <= 1075`: `2^(-k)` is half a unit
/// at the exponent `k` of `z`.
pub open spec fn nearest_magnitude(i: u64) -> u64 {
    let k = i / 0x0010_0000 - 1023;
    (i + 0x0010_0000int / (pow2((k + 1) as nat) as int)) as u64
}

/// The digits of the high word `m` that stand for whole units.
pub open spec fn whole_part(m: u64) -> u64 {
    let k = m / 0x0010_0000 - 1023;
    (m - (m as int) % (pow2((20 - k) as nat) as int)) as u64
}

/// The whole number that a pattern with the high word `m` begins with.
pub open spec fn whole_number(m: u64) -> int {
    let k = m / 0x0010_0000 - 1023;
    (m % 0x0010_0000 + 0x0010_0000) as int / (pow2((20 - k) as nat) as int)
}

/// The whole number taken out of `|z|` is the nearest one, a half going up,
/// and the whole part is that number as a pattern: for the magnitude
/// pattern `a` of a `z` with `0.5 < |z| <= 1075`, as far as the high word
/// tells. The low word lies below the units and plays no part.
pub proof fn whole_number_is_nearest(a: u64)
    requires
        0x3fe0_0000 < a / WORD,
        a <= UNDERFLOW_AT,
    ensures
        ({
            let m = nearest_magnitude(a / WORD);
            let w = (whole_part(m) * WORD) as u64;
            &&& exponent(a) < 0 && exponent(w) <= 0
            &&& whole_number(m) == nearest_whole(
                significand(a) as int,
                pow2((-exponent(a)) as nat) as int,
            )
            &&& ONE <= w < INF
            &&& whole_part(m) < 0x7ff0_0000
            &&& significand(w) == whole_number(m) * pow2((-exponent(w)) as nat)
        }),
{
    let full = 0x0010_0000int;
    let word = WORD as int;
    let i = a as int / word;
    let low = a as int % word;
    let f = i / full;
    let frac = i % full;
    let k = f - 1023;
    let c = pow2((k + 1) as nat) as int;
    let th = pow2((19 - k) as nat) as int;
    let t = pow2((20 - k) as nat) as int;
    let m = nearest_magnitude((a / WORD) as u64);
    let hw = whole_part(m);
    let w = (hw * WORD) as u64;
    lemma2_to64();
    lemma2_to64_rest();
    lemma_pow2_adds((k + 1) as nat, (19 - k) as nat);
    lemma_pow2_unfold((20 - k) as nat);
    lemma_pow2_pos((k + 1) as nat);
    lemma_pow2_pos((19 - k) as nat);
    lemma_mul_is_commutative(c, th);
    lemma_div_multiples_vanish(th, c);
    assert(full / c == th);
    assert(m == i + th);
    // the pattern as a whole: its significand and its unit, in low words
    assert(exponent(a) == k - 52 && significand(a) == (frac + full) * word + low);
    lemma_pow2_adds((20 - k) as nat, 32);
    assert(pow2((-exponent(a)) as nat) == t * word);
    lemma_low_word_is_below(frac + full, t, low, word);
    if frac + th < full {
        assert(k >= 0);
        lemma_pow2_unfold((k + 1) as nat);
        lemma_half_added(frac, full, th, c);
        let y = frac + th;
        lemma_fundamental_div_mod_converse(m as int, full, f, y);
        assert(m / 0x0010_0000 - 1023 == k);
        let b = f * (c / 2);
        assert(f * full == t * b) by (nonlinear_arith)
            requires
                th * c == full,
                t == 2 * th,
                c == 2 * (c / 2),
                b == f * (c / 2),
        ;
        lemma_mod_multiples_vanish(b, y, t);
        lemma_mul_is_commutative(t, b);
        assert(m as int % t == y % t);
        assert(hw == f * full + (y - y % t));
        lemma_fundamental_div_mod_converse(hw as int, full, f, y - y % t);
        assert(exponent(w) == k - 52 && significand(w) == (y - y % t + full) * word);
        assert(pow2((-exponent(w)) as nat) == t * word);
        lemma_mul_is_associative(whole_number(m), t, word);
    } else {
        lemma_half_carried(frac, full, th, c);
        let rest = frac + th - full;
        lemma_fundamental_div_mod_converse(m as int, full, f + 1, rest);
        assert(m / 0x0010_0000 - 1023 == k + 1);
        let b = (f + 1) * c;
        assert((f + 1) * full == th * b) by (nonlinear_arith)
            requires
                th * c == full,
                b == (f + 1) * c,
        ;
        lemma_mod_multiples_vanish(b, rest, th);
        lemma_mul_is_commutative(th, b);
        assert(m as int % th == rest);
        assert(hw == (f + 1) * full);
        lemma_fundamental_div_mod_converse(hw as int, full, f + 1, 0);
        assert(exponent(w) == k - 51 && significand(w) == full * word);
        lemma_pow2_adds((19 - k) as nat, 32);
        assert(pow2((-exponent(w)) as nat) == th * word);
        lemma_mul_is_associative(whole_number(m), th, word);
    }
}

/// The whole number nearest to a finite `z` below `2^53` in magnitude, a
/// half going away from zero.
pub open spec fn nearest_integer(z: u64) -> int {
    let n = nearest_whole(significand(z) as int, pow2((-exponent(z)) as nat) as int);
    if negative(z) {
        -n
    } else {
        n
    }
}

/// The pattern `w` of a whole number `n`, with a sign bit, is `n` or `-n` as
/// a number of the format.
proof fn lemma_whole_pattern(w: u64, n: int, sign: u64)
    requires
        0 < w < INF,
        exponent(w) <= 0,
        significand(w) == n * pow2((-exponent(w)) as nat),
        sign == 0 || sign == SIGN,
    ensures
        n > 0,
        (w + sign) as u64 == from_integer(
            if sign == 0 {
                n
            } else {
                -n
            },
        ),
{
    reveal(from_integer);
    let f = Format::Binary64;
    let k = (-exponent(w)) as nat;
    lemma_pow2_pos(k);
    assert(n > 0) by (nonlinear_arith)
        requires
            significand(w) == n * pow2(k),
            significand(w) > 0,
            pow2(k) > 0,
    ;
    lemma_round_scale(f, n as nat, 0, k);
    lemma_round_exact(f, w as nat);
}

/// Where the number stays normal, adding `n` to the exponent field is
/// multiplying by `2^n`, and nothing is rounded.
pub proof fn field_shift_is_scaling(z: u64, n: int)
    requires
        0x0010_0000_0000_0000 <= z < INF,
        0x0010_0000_0000_0000 <= z + n * 0x0010_0000_0000_0000 < INF,
    ensures
        (z + n * 0x0010_0000_0000_0000) as u64 == scaled(z, n),
{
    reveal(scaled);
    let f = Format::Binary64;
    let p = (z + n * 0x0010_0000_0000_0000) as u64;
    assert(significand(p) == significand(z) && exponent(p) == exponent(z) + n);
    lemma_round_exact(f, p as nat);
}

/// `2^(p_h + p_l)`, for a sum `z` of the two that neither overflows nor
/// underflows: with `n` the whole number nearest to `z`, it is `2^n` times
/// the exponential of what is left of `p_h + p_l`, and `n` goes into the
/// exponent field, or by a scaling where the result is subnormal. A `z`
/// whose high word is that of a half or less is taken as it is.
pub open spec fn exp2_magnitude(p_h: u64, p_l: u64, z: u64) -> u64 {
    exp2_scaled(whole_taken(p_h, z).1, p_l, whole_taken(p_h, z).0)
}

/// The whole number `n` that is taken out of the product, and what is left
/// of `p_h` without it.
pub open spec fn whole_taken(p_h: u64, z: u64) -> (int, u64) {
    if absolute(z) / WORD > HALF / WORD {
        (nearest_integer(z), diff(p_h, from_integer(nearest_integer(z))))
    } else {
        (0, p_h)
    }
}

/// `2^(n + p_h + p_l)`, for `p_h + p_l` of magnitude a half or less.
pub open spec fn exp2_scaled(p_h: u64, p_l: u64, n: int) -> u64 {
    let t = chopped(sum(p_l, p_h), WORD);
    let u = prod(t, LG2_H);
    let v = sum(prod(diff(p_l, diff(t, p_h)), LG2), prod(t, LG2_L));
    let z1 = sum(u, v);
    let w = diff(v, diff(z1, u));
    let t2 = prod(z1, z1);
    let t1 = diff(z1, prod(t2, exp_poly(t2)));
    let r = diff(quot(prod(z1, t1), diff(t1, TWO)), sum(w, prod(z1, w)));
    let z2 = diff(ONE, diff(r, z1));
    let j = (z2 / WORD + (n * 0x0010_0000 + WORD)) % (WORD as int);
    let z3 = if j >= 0x8000_0000 || j < 0x0010_0000 {
        scaled(z2, n)
    } else {
        (j * WORD + z2 % WORD) as u64
    };
    z3
}

/// The pattern of one with the sign given.
pub open spec fn signed_one(negative: bool) -> u64 {
    if negative {
        NEG_ONE
    } else {
        ONE
    }
}

/// `2^(p_h + p_l)` with the sign given: the magnitude times one or minus one.
pub open spec fn exp2_value(p_h: u64, p_l: u64, z: u64, negative: bool) -> u64 {
    prod(signed_one(negative), exp2_magnitude(p_h, p_l, z))
}

/// The whole part and the whole number of a magnitude's high word, by
/// adding half a unit to the word and cutting off below the units.
fn whole_of(i: u64) -> (r: (u64, i32))
    requires
        0x3fe0_0000 < i <= 0x4090_cc00,
    ensures
        r.0 == whole_part(nearest_magnitude(i)),
        r.1 == whole_number(nearest_magnitude(i)),
        0 <= r.1 <= 4096,
        r.0 < 0x8000_0000,
{
    let k: i32 = (i / 0x0010_0000) as i32 - 1023;
    let half: u64 = pow2_u64((k + 1) as u32);
    proof {
        lemma_pow2_pos((k + 1) as nat);
    }
    let m: u64 = i + 0x0010_0000u64 / half;
    let k1: i32 = (m / 0x0010_0000) as i32 - 1023;
    assert(0 <= k1 <= 11) by {
        lemma2_to64();
        lemma_small_step(k as int, half);
    }
    let unit: u64 = pow2_u64((20 - k1) as u32);
    proof {
        lemma2_to64();
        lemma_pow2_pos((20 - k1) as nat);
        lemma_pow2_increases(9, (20 - k1) as nat);
        lemma_div_is_ordered_by_denominator(
            (m % 0x0010_0000 + 0x0010_0000) as int,
            0x200,
            unit as int,
        );
        lemma_mod_decreases(m as nat, unit as nat);
    }
    (m - m % unit, ((m % 0x0010_0000 + 0x0010_0000) / unit) as i32)
}

/// What the machine takes out is the nearest whole number, and the pattern
/// that it subtracts is that number.
proof fn lemma_whole_taken(z: u64)
    requires
        0x3fe0_0000 < (z % 0x8000_0000_0000_0000) / WORD,
        z % 0x8000_0000_0000_0000 <= UNDERFLOW_AT,
    ensures
        ({
            let hz = z / WORD;
            let i = (hz % 0x8000_0000) as u64;
            let m = nearest_magnitude(i);
            &&& i == (z % 0x8000_0000_0000_0000) / WORD
            &&& nearest_integer(z) == if z >= 0x8000_0000_0000_0000 {
                -whole_number(m)
            } else {
                whole_number(m)
            }
            &&& from_integer(nearest_integer(z)) == (whole_part(m) + (hz - i)) * WORD
        }),
{
    let a = (z % 0x8000_0000_0000_0000) as u64;
    let hz = z / WORD;
    let i = (hz % 0x8000_0000) as u64;
    let m = nearest_magnitude(i);
    assert(i == a / WORD);
    whole_number_is_nearest(a);
    let w = (whole_part(m) * WORD) as u64;
    assert(significand(z) == significand(a) && exponent(z) == exponent(a));
    assert((whole_part(m) + (hz - i)) * WORD == w + (hz - i) * WORD);
    lemma_whole_pattern(w, whole_number(m), ((hz - i) * WORD) as u64);
}

/// Computes `whole_taken`: the machine's way gives the nearest whole number.
fn take_whole(p_h: u64, z: u64) -> (r: (i32, u64))
    requires
        z % 0x8000_0000_0000_0000 <= UNDERFLOW_AT,
    ensures
        r.0 == whole_taken(p_h, z).0,
        r.1 == whole_taken(p_h, z).1,
        -4096 <= r.0 <= 4096,
{
    let hz: u64 = z / WORD;
    let i: u64 = hz % 0x8000_0000;
    if i > 0x3fe0_0000 {
        let (whole, count) = whole_of(i);
        proof {
            lemma_whole_taken(z);
        }
        let n: i32 = if hz >= 0x8000_0000 {
            -count
        } else {
            count
        };
        (n, minus(p_h, (whole + (hz - i)) * WORD))
    } else {
        (0, p_h)
    }
}

/// Computes `exp2_scaled`.
fn exp2_of(p_h: u64, p_l: u64, n: i32) -> (r: u64)
    requires
        -4096 <= n <= 4096,
    ensures
        r == exp2_scaled(p_h, p_l, n as int),
{
    let t = chop(plus(p_l, p_h));
    let u = times(t, LG2_H);
    let v = plus(times(minus(p_l, minus(t, p_h)), LG2), times(t, LG2_L));
    let z1 = plus(u, v);
    let w = minus(v, minus(z1, u));
    let t2 = times(z1, z1);
    let t1 = minus(z1, times(t2, exp_polynomial(t2)));
    let r = minus(over(times(z1, t1), minus(t1, TWO)), plus(w, times(z1, w)));
    let z2 = minus(ONE, minus(r, z1));
    let j: u64 = (z2 / WORD + (((n as i64) * 0x0010_0000 + 0x1_0000_0000) as u64)) % WORD;
    let z3: u64 = if j >= 0x8000_0000 || j < 0x0010_0000 {
        scale(z2, n)
    } else {
        j * WORD + z2 % WORD
    };
    z3
}

/// Computes `exp2_value`.
fn exp2(p_h: u64, p_l: u64, z: u64, negative: bool) -> (r: u64)
    requires
        z % 0x8000_0000_0000_0000 <= UNDERFLOW_AT,
    ensures
        r == exp2_value(p_h, p_l, z, negative),
{
    let (n, p_h2) = take_whole(p_h, z);
    times(
        if negative {
            NEG_ONE
        } else {
            ONE
        },
        exp2_of(p_h2, p_l, n),
    )
}

/// `0x100000 / half` for `half = 2^(k + 1)`, `-1 <= k <= 10`: at most
/// `0x100000` and at least `0x200`.
proof fn lemma_small_step(k: int, half: u64)
    requires
        -1 <= k <= 10,
        half == pow2((k + 1) as nat),
    ensures
        k == -1 ==> 0x0010_0000u64 / half == 0x0010_0000,
        k >= 0 ==> 0x0010_0000u64 / half <= 0x0008_0000,
        0x0010_0000u64 / half >= 0x200,
{
    lemma2_to64();
    if k == -1 {
        assert(0x0010_0000u64 / half == 0x100000) by (nonlinear_arith)
            requires
                half == 1,
        ;
    } else if k == 0 {
        assert(0x0010_0000u64 / half == 0x80000) by (nonlinear_arith)
            requires
                half == 2,
        ;
    } else if k == 1 {
        assert(0x0010_0000u64 / half == 0x40000) by (nonlinear_arith)
            requires
                half == 4,
        ;
    } else if k == 2 {
        assert(0x0010_0000u64 / half == 0x20000) by (nonlinear_arith)
            requires
                half == 8,
        ;
    } else if k == 3 {
        assert(0x0010_0000u64 / half == 0x10000) by (nonlinear_arith)
            requires
                half == 16,
        ;
    } else if k == 4 {
        assert(0x0010_0000u64 / half == 0x8000) by (nonlinear_arith)
            requires
                half == 32,
        ;
    } else if k == 5 {
        assert(0x0010_0000u64 / half == 0x4000) by (nonlinear_arith)
            requires
                half == 64,
        ;
    } else if k == 6 {
        assert(0x0010_0000u64 / half == 0x2000) by (nonlinear_arith)
            requires
                half == 128,
        ;
    } else if k == 7 {
        assert(0x0010_0000u64 / half == 0x1000) by (nonlinear_arith)
            requires
                half == 256,
        ;
    } else if k == 8 {
        assert(0x0010_0000u64 / half == 0x800) by (nonlinear_arith)
            requires
                half == 512,
        ;
    } else if k == 9 {
        assert(0x0010_0000u64 / half == 0x400) by (nonlinear_arith)
            requires
                half == 1024,
        ;
    } else {
        assert(0x0010_0000u64 / half == 0x200) by (nonlinear_arith)
            requires
                half == 2048,
        ;
    }
}

/// `|x|^y` with its sign, from `t1 + t2 = log2 |x|`: the product `y * (t1 +
/// t2)` is formed as a pair; at or beyond 1024 the power overflows, at or
/// beyond -1075 it underflows, and in between it is `2^product`.
pub open spec fn power_of_log(y: u64, t1: u64, t2: u64, negative: bool) -> u64 {
    let y1 = chopped(y, WORD);
    let p_l = sum(prod(diff(y, y1), t1), prod(y, t2));
    let p_h = prod(y1, t1);
    let z = sum(p_l, p_h);
    let i = z % 0x8000_0000_0000_0000;
    if z < 0x8000_0000_0000_0000 && (i > OVERFLOW_AT || (i == OVERFLOW_AT && less(
        diff(z, p_h),
        sum(p_l, OVT),
    ))) {
        extreme(true, negative)
    } else if z >= 0x8000_0000_0000_0000 && (i > UNDERFLOW_AT || (i == UNDERFLOW_AT && less_eq(
        p_l,
        diff(z, p_h),
    ))) {
        extreme(false, negative)
    } else {
        exp2_value(p_h, p_l, z, negative)
    }
}

/// Computes `power_of_log`.
fn finish(y: u64, t1: u64, t2: u64, negative: bool) -> (r: u64)
    ensures
        r == power_of_log(y, t1, t2, negative),
{
    let y1 = chop(y);
    let p_l = plus(times(minus(y, y1), t1), times(y, t2));
    let p_h = times(y1, t1);
    let z = plus(p_l, p_h);
    let i: u64 = z % 0x8000_0000_0000_0000;
    if z < 0x8000_0000_0000_0000 {
        if i > OVERFLOW_AT {
            return extreme_bits(true, negative);
        }
        if i == OVERFLOW_AT && lt(minus(z, p_h), plus(p_l, OVT)) {
            return extreme_bits(true, negative);
        }
    } else {
        if i > UNDERFLOW_AT {
            return extreme_bits(false, negative);
        }
        if i == UNDERFLOW_AT && le(p_l, minus(z, p_h)) {
            return extreme_bits(false, negative);
        }
    }
    exp2(p_h, p_l, z, negative)
}

/// The power `x^y` where no exact case applies: `ax` is `|x|`, neither zero
/// nor one nor infinite, and `negative` the sign of the result.
///
/// An exponent beyond `2^64` in magnitude overflows or underflows whatever
/// `ax` is, and one beyond `2^31` unless `ax` is within a unit of the high
/// word of one.
pub open spec fn computed(ax: u64, y: u64, negative: bool) -> u64 {
    let iy = (y % 0x8000_0000_0000_0000) / WORD;
    let ix = ax / WORD;
    let down = y >= 0x8000_0000_0000_0000;
    if iy > 0x43f0_0000 {
        extreme((ix <= 0x3fef_ffff) == down, false)
    } else if iy > 0x41e0_0000 {
        if ix < 0x3fef_ffff {
            extreme(down, negative)
        } else if ix > 0x3ff0_0000 {
            extreme(!down, negative)
        } else {
            power_of_log(y, log2_near_one(ax).0, log2_near_one(ax).1, negative)
        }
    } else {
        power_of_log(y, log2_parts(ax).0, log2_parts(ax).1, negative)
    }
}

/// The value of `pow`: that of the first exact case that applies, and the
/// computed power otherwise.
pub open spec fn pow_value(x: u64, y: u64) -> u64 {
    match special_value(Format::Binary64, x, y) {
        Some(v) => v,
        None => computed(absolute(x), y, negative_power(Format::Binary64, x, y)),
    }
}

/// `x` raised to the power `y`, all three as binary64 bit patterns.
pub fn pow(x: u64, y: u64) -> (r: u64)
    ensures
        r == pow_value(x, y),
        is_zero(y) ==> r == ONE,
        x == ONE ==> r == ONE,
        (is_nan(x) || is_nan(y)) && !is_zero(y) && x != ONE ==> is_nan(r),
        y == ONE && (!is_nan(x) || quieted(x) == x) ==> r == x,
        y == NEG_ONE ==> r == quot(ONE, x),
        y == TWO ==> r == prod(x, x),
        is_inf(y) && absolute(x) == ONE ==> r == ONE,
        is_inf(y) && !is_nan(x) && absolute(x) > ONE ==> r == if negative(y) {
            ZERO
        } else {
            INF
        },
        is_inf(y) && absolute(x) < ONE ==> r == if negative(y) {
            INF
        } else {
            ZERO
        },
        negative(x) && is_finite(x) && !is_zero(x) && !is_nan(y) && !whole(y) ==> is_nan(r),
{
    proof {
        if is_zero(y) {
            power_zero(x, y);
        }
        one_to_any_power(y);
        if (is_nan(x) || is_nan(y)) && !is_zero(y) && x != ONE {
            nan_operand(x, y);
        }
        power_one(x);
        power_minus_one(x);
        power_two(x);
        if is_inf(y) && !is_nan(x) {
            infinite_power(x, y);
        }
        if negative(x) && is_finite(x) && !is_zero(x) && !is_nan(y) && !whole(y) {
            fractional_power_of_negative(x, y);
        }
    }
    match special(Format::Binary64, x, y) {
        Some(v) => {
            return v;
        },
        None => {},
    }
    let ax: u64 = abs(x);
    let iy: u64 = (y % 0x8000_0000_0000_0000) / WORD;
    let ix: u64 = ax / WORD;
    let down: bool = y >= 0x8000_0000_0000_0000;
    let negative: bool = x >= 0x8000_0000_0000_0000 && exponent_parity(Format::Binary64, y)
        == Parity::Odd;
    if iy > 0x43f0_0000 {
        return extreme_bits((ix <= 0x3fef_ffff) == down, false);
    }
    let (t1, t2) = if iy > 0x41e0_0000 {
        if ix < 0x3fef_ffff {
            return extreme_bits(down, negative);
        }
        if ix > 0x3ff0_0000 {
            return extreme_bits(!down, negative);
        }
        near_one(ax)
    } else {
        log2_general(ax)
    };
    finish(y, t1, t2, negative)
}

} // verus!
