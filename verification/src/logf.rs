//! The natural logarithm in binary32.
//!
//! A positive finite `x` is written `2^k * m` with `m` in
//! `[sqrt(2)/2, sqrt(2))`; then `log x = k * ln 2 + log m`, and `log m` comes
//! from a polynomial in `s = f / (2 + f)`, `f = m - 1`.
use crate::format::Format;
use crate::identities::{lemma_prod_is_scaling, lemma_scale_subnormal};
use crate::single::{
    diff, exponent, from_int, from_integer, is_inf, is_nan, is_zero, minus, negative, over, plus,
    prod, quiet, quieted, quot, scaled, significand, sum, times, DEFAULT_NAN, HALF, INF, NEG_INF,
    ONE, TWO, ZERO,
};
use vstd::arithmetic::power2::*;
use vstd::prelude::*;

verus! {

/// High part of `ln 2`, short enough that `k * LN2_HI` is exact.
pub const LN2_HI: u32 = 0x3f31_7180;

/// `ln 2 - LN2_HI`.
pub const LN2_LO: u32 = 0x3717_f7d1;

/// Coefficients of the polynomial for `log(1 + s) - log(1 - s)`.
pub const LG1: u32 = 0x3f2a_aaaa;

pub const LG2: u32 = 0x3ecc_ce13;

pub const LG3: u32 = 0x3e91_e9ee;

pub const LG4: u32 = 0x3e78_9e26;

/// `2^25`, which makes a subnormal number normal.
pub const TWO25: u32 = 0x4c00_0000;

/// Distance from the pattern of `sqrt(2)/2` up to that of `1.0`.
pub const TO_ONE: u32 = 0x004a_fb0d;

/// The pattern of `sqrt(2)/2`, rounded up.
pub const SQRT_HALF: u32 = 0x3f35_04f3;

/// The power of two `k` taken out of a positive normal `x`, such that what
/// is left lies in `[sqrt(2)/2, sqrt(2))`.
pub open spec fn reduced_exponent(x: u32) -> int {
    (x + TO_ONE) / 0x0080_0000 - 127
}

/// What is left of a positive normal `x` when `2^reduced_exponent(x)` is
/// taken out.
pub open spec fn reduced_mantissa(x: u32) -> u32 {
    ((x + TO_ONE) % 0x0080_0000 + SQRT_HALF) as u32
}

/// The reduction loses nothing: a positive normal `x` is `m * 2^k`, with the
/// significand of `m`, and the pattern of `m` lies from that of `sqrt(2)/2`
/// up to, not including, that of `sqrt(2)`.
pub proof fn reduction_is_exact(x: u32)
    requires
        0x0080_0000 <= x < 0x7f80_0000,
    ensures
        SQRT_HALF <= reduced_mantissa(x) < SQRT_HALF + 0x0080_0000,
        significand(reduced_mantissa(x)) == significand(x),
        exponent(x) == exponent(reduced_mantissa(x)) + reduced_exponent(x),
{
    let m = reduced_mantissa(x);
    let k = reduced_exponent(x);
    assert(x == m + k * 0x0080_0000);
}

/// `k * ln 2 + log m`, for `m` in `[sqrt(2)/2, sqrt(2))`.
pub open spec fn log_reduced(m: u32, k: int) -> u32 {
    let f = diff(m, ONE);
    let s = quot(f, sum(TWO, f));
    let z = prod(s, s);
    let w = prod(z, z);
    let t1 = prod(w, sum(LG2, prod(w, LG4)));
    let t2 = prod(z, sum(LG1, prod(w, LG3)));
    let r = sum(t2, t1);
    let hfsq = prod(prod(HALF, f), f);
    let dk = from_integer(k);
    sum(sum(diff(sum(prod(s, sum(hfsq, r)), prod(dk, LN2_LO)), hfsq), f), prod(dk, LN2_HI))
}

/// The logarithm of a positive normal number.
pub open spec fn log_normal(x: u32, k: int) -> u32 {
    log_reduced(reduced_mantissa(x), k + reduced_exponent(x))
}

/// The value of `logf`: negative infinity at either zero, a NaN below
/// zero, `x` itself where it is positive infinity or a NaN, exactly zero at
/// one, and a computed logarithm elsewhere.
pub open spec fn log_value(x: u32) -> u32 {
    if is_zero(x) {
        NEG_INF
    } else if negative(x) {
        if is_nan(x) {
            quieted(x)
        } else {
            DEFAULT_NAN
        }
    } else if is_nan(x) || is_inf(x) {
        x
    } else if x == ONE {
        ZERO
    } else if x < 0x0080_0000 {
        log_normal(scaled(x, 25), -25)
    } else {
        log_normal(x, 0)
    }
}

/// Takes the power of two out of a positive normal `x`: `x` is `m * 2^k`
/// with `m` from `sqrt(2)/2` up to `sqrt(2)`, and no digit is lost.
fn reduce(x: u32) -> (r: (i32, u32))
    requires
        0x0080_0000 <= x < INF,
    ensures
        r.0 == reduced_exponent(x),
        r.1 == reduced_mantissa(x),
        SQRT_HALF <= r.1 < SQRT_HALF + 0x0080_0000,
        significand(r.1) == significand(x),
        exponent(x) == exponent(r.1) + r.0,
{
    proof {
        reduction_is_exact(x);
    }
    let t: u32 = x + TO_ONE;
    ((t / 0x0080_0000) as i32 - 127, t % 0x0080_0000 + SQRT_HALF)
}

/// The polynomial and the sum: `k * ln 2 + log m`.
fn log_kernel(m: u32, k: i32) -> (r: u32)
    ensures
        r == log_reduced(m, k as int),
{
    let f = minus(m, ONE);
    let s = over(f, plus(TWO, f));
    let z = times(s, s);
    let w = times(z, z);
    let t1 = times(w, plus(LG2, times(w, LG4)));
    let t2 = times(z, plus(LG1, times(w, LG3)));
    let r = plus(t2, t1);
    let hfsq = times(times(HALF, f), f);
    let dk = from_int(k);
    plus(plus(minus(plus(times(s, plus(hfsq, r)), times(dk, LN2_LO)), hfsq), f), times(dk, LN2_HI))
}

/// The natural logarithm of `x`, both as binary32 bit patterns.
pub fn logf(x: u32) -> (r: u32)
    ensures
        r == log_value(x),
        is_zero(x) ==> r == NEG_INF,
        negative(x) && !is_zero(x) ==> is_nan(r),
        is_nan(x) ==> is_nan(r),
        x == INF ==> r == INF,
        x == ONE ==> r == ZERO,
{
    let mut ix: u32 = x;
    let mut k: i32 = 0;
    if x < 0x0080_0000 || x >= 0x8000_0000 {
        if x == 0 || x == 0x8000_0000 {
            return NEG_INF;
        }
        if x >= 0x8000_0000 {
            if x > 0xff80_0000 {
                return quiet(x);
            }
            return DEFAULT_NAN;
        }
        k = -25;
        ix = times(x, TWO25);
        proof {
            subnormal_scaling_is_exact(x);
        }
    } else if x >= 0x7f80_0000 {
        return x;
    } else if x == ONE {
        return ZERO;
    }
    let (dk, m) = reduce(ix);
    log_kernel(m, k + dk)
}

/// A positive subnormal number times `2^25` is a normal number, and exactly
/// `2^25` times the number: the product is not rounded.
pub proof fn subnormal_scaling_is_exact(x: u32)
    requires
        0 < x < 0x0080_0000,
    ensures
        prod(x, TWO25) == scaled(x, 25),
        0x0080_0000 <= scaled(x, 25) < INF,
        significand(scaled(x, 25)) * pow2((exponent(scaled(x, 25)) + 149) as nat) == x * pow2(25),
{
    reveal(prod);
    reveal(scaled);
    lemma_prod_is_scaling(Format::Binary32, x as u64, TWO25 as u64, 25);
    lemma_scale_subnormal(Format::Binary32, x as u64, 25);
}

} // verus!
