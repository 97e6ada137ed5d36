//! Exact results of the arithmetic that the laws of the power function rest
//! on: multiplying by one and by minus one, and the reciprocal under a
//! change of sign.
use crate::arith::{negated, prod, quot, quotient_digits, scaled, sum};
use crate::format::Format;
use crate::nearest::{lemma_kept_is_significand, rounding_keeps_short_numbers, units};
use crate::power::{
    bit_length, lemma_bit_length_bounds, lemma_bit_length_le, lemma_clear_low_digits,
};
use crate::rounding::{lemma_round_exact, lemma_round_scale, lemma_round_valid, round_mag};
use crate::rounding::quantum;
use vstd::arithmetic::div_mod::*;
use vstd::arithmetic::mul::*;
use vstd::arithmetic::power2::*;
use vstd::prelude::*;

verus! {

/// The pattern of `-1.0`.
pub open spec fn neg_one(fmt: Format) -> u64 {
    (fmt.one() + fmt.sign_bit()) as u64
}

/// One has the significand `2^frac_bits` and the exponent `-frac_bits`.
pub proof fn lemma_one_decoded(fmt: Format)
    ensures
        fmt.significand(fmt.one()) == fmt.hidden(),
        fmt.exponent(fmt.one()) == -(fmt.frac_bits() as int),
        fmt.magnitude(fmt.one() as u64) == fmt.one(),
        fmt.magnitude(neg_one(fmt)) == fmt.one(),
        !fmt.negative(fmt.one() as u64),
        fmt.negative(neg_one(fmt)),
        fmt.valid(fmt.one() as u64),
        fmt.valid(neg_one(fmt)),
{
}

/// A finite magnitude times one rounds to itself.
proof fn lemma_times_one_mag(fmt: Format, mag: nat)
    requires
        mag < fmt.inf(),
    ensures
        round_mag(
            fmt,
            fmt.hidden() * fmt.significand(mag),
            -(fmt.frac_bits() as int) + fmt.exponent(mag),
            false,
        ) == mag,
        round_mag(
            fmt,
            fmt.significand(mag) * fmt.hidden(),
            fmt.exponent(mag) + -(fmt.frac_bits() as int),
            false,
        ) == mag,
{
    fmt.lemma_constants();
    let s = fmt.significand(mag);
    let e = fmt.exponent(mag);
    lemma_round_scale(fmt, s, e, fmt.frac_bits());
    lemma_round_exact(fmt, mag);
    lemma_mul_is_commutative(s as int, fmt.hidden() as int);
}

/// `1 * v` and `v * 1` are `v`, for every `v` that is no NaN.
pub proof fn lemma_prod_one(fmt: Format, v: u64)
    requires
        fmt.valid(v),
        !fmt.is_nan(v),
    ensures
        prod(fmt, fmt.one() as u64, v) == v,
        prod(fmt, v, fmt.one() as u64) == v,
{
    reveal(prod);
    lemma_one_decoded(fmt);
    if fmt.is_finite(v) {
        lemma_times_one_mag(fmt, fmt.magnitude(v));
    }
}

/// `-1 * v` and `v * -1` are `v` with its sign flipped, for every `v` that
/// is no NaN.
pub proof fn lemma_prod_neg_one(fmt: Format, v: u64)
    requires
        fmt.valid(v),
        !fmt.is_nan(v),
    ensures
        prod(fmt, neg_one(fmt), v) == negated(fmt, v),
        prod(fmt, v, neg_one(fmt)) == negated(fmt, v),
{
    reveal(prod);
    lemma_one_decoded(fmt);
    if fmt.is_finite(v) {
        lemma_times_one_mag(fmt, fmt.magnitude(v));
    }
}

/// Multiplying by a power of two is scaling: for a finite `a` and the normal
/// pattern `b` of `2^k`, the product is `a * 2^k` rounded once.
pub proof fn lemma_prod_is_scaling(fmt: Format, a: u64, b: u64, k: int)
    requires
        fmt.valid(a),
        fmt.valid(b),
        fmt.is_finite(a),
        !fmt.negative(b),
        fmt.is_finite(b),
        fmt.significand(fmt.magnitude(b)) == fmt.hidden(),
        fmt.exponent(fmt.magnitude(b)) == k - fmt.frac_bits(),
    ensures
        prod(fmt, a, b) == scaled(fmt, a, k),
{
    reveal(prod);
    fmt.lemma_constants();
    let s = fmt.significand(fmt.magnitude(a));
    let e = fmt.exponent(fmt.magnitude(a));
    lemma_round_scale(fmt, s, e + k, fmt.frac_bits());
}

/// A subnormal number times `2^k`, for `k` above the width of the fraction
/// and no more than 64, is a normal number, and nothing is rounded.
pub proof fn lemma_scale_subnormal(fmt: Format, a: u64, k: int)
    requires
        fmt.valid(a),
        0 < fmt.magnitude(a) < fmt.hidden(),
        fmt.frac_bits() < k <= 64,
    ensures
        fmt.valid(scaled(fmt, a, k)),
        fmt.negative(scaled(fmt, a, k)) == fmt.negative(a),
        fmt.hidden() <= fmt.magnitude(scaled(fmt, a, k)) < fmt.inf(),
        units(fmt, fmt.magnitude(scaled(fmt, a, k))) == fmt.magnitude(a) * pow2(k as nat),
{
    fmt.lemma_constants();
    let x = fmt.magnitude(a);
    let e = fmt.min_exponent() + k;
    let q = quantum(fmt, x, e);
    let l = bit_length(x);
    lemma_bit_length_bounds(x);
    lemma_bit_length_le(x, fmt.frac_bits());
    assert(q == e + l - fmt.precision() && fmt.min_exponent() < q <= e);
    lemma_round_valid(fmt, fmt.negative(a), x, e, false);
    // the pattern stays far below infinity
    let s = x * pow2((e - q) as nat);
    lemma_kept_is_significand(fmt, x, e);
    assert((q - fmt.min_exponent()) * fmt.hidden() + s < fmt.inf()) by {
        lemma_mul_inequality(q - fmt.min_exponent(), 64, fmt.hidden() as int);
    }
    rounding_keeps_short_numbers(fmt, x, e);
}

/// Clearing the digits of a finite pattern below `u`, where `u` divides the
/// weight of the implicit digit, keeps the sign and the exponent, and clears
/// the same digits of the significand.
pub proof fn lemma_high_part(fmt: Format, a: u64, u: nat)
    requires
        fmt.valid(a),
        fmt.is_finite(a),
        0 < u,
        fmt.hidden() % u == 0,
    ensures
        a - a % (u as u64) >= 0,
        fmt.valid((a - a % (u as u64)) as u64),
        fmt.is_finite((a - a % (u as u64)) as u64),
        fmt.negative((a - a % (u as u64)) as u64) == fmt.negative(a),
        fmt.exponent(fmt.magnitude((a - a % (u as u64)) as u64)) == fmt.exponent(fmt.magnitude(a)),
        fmt.significand(fmt.magnitude((a - a % (u as u64)) as u64)) == fmt.significand(
            fmt.magnitude(a),
        ) - fmt.significand(fmt.magnitude(a)) % u,
{
    fmt.lemma_constants();
    let h = fmt.hidden() as int;
    let d = u as int;
    let m = fmt.magnitude(a) as int;
    let t = h / d;
    lemma_fundamental_div_mod(h, d);
    assert(h == d * t);
    assert(u <= h) by {
        if t <= 0 {
            lemma_mul_inequality(t, 0, d);
            lemma_mul_is_commutative(d, t);
        } else {
            lemma_mul_inequality(1, t, d);
            lemma_mul_is_commutative(d, t);
        }
    }
    // the sign bit is a multiple of u
    let fields = fmt.max_field() as int + 1;
    assert(fmt.sign_bit() == d * (t * fields)) by {
        lemma_mul_is_associative(d, t, fields);
        lemma_mul_is_commutative(h, fields);
    }
    lemma_mod_multiples_vanish(t * fields, m, d);
    lemma_mul_is_commutative(d, t * fields);
    assert(a as int % d == m % d);
    lemma_mod_bound(m, d);
    lemma_mod_decreases(m as nat, u);
    let c = a - m % d;
    let cm = m - m % d;
    assert(fmt.magnitude(c as u64) == cm);
    // the digits from the implicit one up stay
    lemma_clear_low_digits(m, h, d);
    if m >= h {
        lemma_fundamental_div_mod(m, h);
        lemma_fundamental_div_mod(cm, h);
        lemma_mod_bound(cm, h);
        assert(cm >= h) by {
            if cm < h {
                lemma_basic_div(cm, h);
                lemma_div_pos_is_pos(m, h);
                lemma_div_non_zero(m, h);
            }
        }
        // the implicit digit is a multiple of u and drops out of the remainder
        lemma_mod_multiples_vanish(t, m % h, d);
        lemma_mul_is_commutative(d, t);
        assert((m % h + h) % d == (m % h) % d);
    }
}

/// A product of two patterns of the format is one.
pub proof fn lemma_prod_valid(fmt: Format, a: u64, b: u64)
    requires
        fmt.valid(a),
        fmt.valid(b),
    ensures
        fmt.valid(prod(fmt, a, b)),
{
    reveal(prod);
    fmt.lemma_constants();
    lemma_round_valid(
        fmt,
        fmt.negative(a) != fmt.negative(b),
        fmt.significand(fmt.magnitude(a)) * fmt.significand(fmt.magnitude(b)),
        fmt.exponent(fmt.magnitude(a)) + fmt.exponent(fmt.magnitude(b)),
        false,
    );
}

/// A product with a NaN factor is a NaN.
pub proof fn lemma_prod_nan(fmt: Format, a: u64, b: u64)
    requires
        fmt.valid(a),
        fmt.valid(b),
        fmt.is_nan(a) || fmt.is_nan(b),
    ensures
        fmt.is_nan(prod(fmt, a, b)),
        fmt.valid(prod(fmt, a, b)),
        prod(fmt, a, b) == if fmt.is_nan(a) {
            fmt.quieted(a) as u64
        } else {
            fmt.quieted(b) as u64
        },
{
    reveal(prod);
    fmt.lemma_constants();
}

/// A sum with a NaN term is a NaN: the first NaN term, made quiet.
pub proof fn lemma_sum_nan(fmt: Format, a: u64, b: u64)
    requires
        fmt.valid(a),
        fmt.valid(b),
        fmt.is_nan(a) || fmt.is_nan(b),
    ensures
        fmt.is_nan(sum(fmt, a, b)),
        fmt.valid(sum(fmt, a, b)),
        sum(fmt, a, b) == if fmt.is_nan(a) {
            fmt.quieted(a) as u64
        } else {
            fmt.quieted(b) as u64
        },
{
    reveal(sum);
    fmt.lemma_constants();
}

/// A quotient with a NaN in it is a NaN: the first one, made quiet.
pub proof fn lemma_quot_nan(fmt: Format, a: u64, b: u64)
    requires
        fmt.valid(a),
        fmt.valid(b),
        fmt.is_nan(a) || fmt.is_nan(b),
    ensures
        fmt.is_nan(quot(fmt, a, b)),
        quot(fmt, a, b) == if fmt.is_nan(a) {
            fmt.quieted(a) as u64
        } else {
            fmt.quieted(b) as u64
        },
{
    reveal(quot);
    fmt.lemma_constants();
}

/// `1 / 1` is one.
pub proof fn lemma_quot_one_one(fmt: Format)
    ensures
        quot(fmt, fmt.one() as u64, fmt.one() as u64) == fmt.one(),
{
    reveal(quot);
    fmt.lemma_constants();
    lemma_one_decoded(fmt);
    let h = fmt.hidden();
    let big = pow2(quotient_digits());
    let fb = fmt.frac_bits();
    lemma_pow2_pos(quotient_digits());
    lemma_div_multiples_vanish(big as int, h as int);
    lemma_mod_multiples_basic(big as int, h as int);
    lemma_mul_is_commutative(big as int, h as int);
    assert((h * big) / h == big);
    assert((h * big) % h == 0);
    // 2^128 * 2^-128 and 2^fb * 2^-fb are both 1 * 2^0
    lemma_round_scale(fmt, 1, 0, quotient_digits());
    lemma_round_scale(fmt, 1, 0, fb);
    lemma_mul_basics(big as int);
    lemma_mul_basics(h as int);
    lemma_round_exact(fmt, fmt.one());
    assert(round_mag(fmt, big, -(quotient_digits() as int), false) == fmt.one());
}

/// The reciprocal of a number that is no NaN is no NaN, and changes its
/// sign with the number.
pub proof fn lemma_reciprocal_sign(fmt: Format, x: u64)
    requires
        fmt.valid(x),
        !fmt.is_nan(x),
    ensures
        !fmt.is_nan(quot(fmt, fmt.one() as u64, x)),
        fmt.valid(quot(fmt, fmt.one() as u64, x)),
        fmt.negative(quot(fmt, fmt.one() as u64, x)) == fmt.negative(x),
        quot(fmt, fmt.one() as u64, negated(fmt, x)) == negated(
            fmt,
            quot(fmt, fmt.one() as u64, x),
        ),
{
    reveal(quot);
    lemma_one_decoded(fmt);
    let m = fmt.magnitude(x);
    if fmt.is_finite(x) && !fmt.is_zero(x) {
        let num = fmt.hidden() * pow2(quotient_digits());
        let s = fmt.significand(m);
        let e = -(fmt.frac_bits() as int) - fmt.exponent(m) - quotient_digits();
        lemma_round_valid(fmt, true, num / s, e, num % s != 0);
        lemma_round_valid(fmt, false, num / s, e, num % s != 0);
    }
}

/// A square does not depend on the sign of its root.
pub proof fn lemma_square_sign(fmt: Format, x: u64)
    requires
        fmt.valid(x),
        !fmt.is_nan(x),
    ensures
        prod(fmt, negated(fmt, x), negated(fmt, x)) == prod(fmt, x, x),
        !fmt.is_nan(prod(fmt, x, x)),
        fmt.valid(prod(fmt, x, x)),
{
    reveal(prod);
    let m = fmt.magnitude(x);
    lemma_round_valid(
        fmt,
        false,
        fmt.significand(m) * fmt.significand(m),
        fmt.exponent(m) + fmt.exponent(m),
        false,
    );
}

/// Flipping a sign twice gives the pattern back.
pub proof fn lemma_negated_twice(fmt: Format, x: u64)
    requires
        fmt.valid(x),
    ensures
        negated(fmt, negated(fmt, x)) == x,
        fmt.valid(negated(fmt, x)),
        fmt.magnitude(negated(fmt, x)) == fmt.magnitude(x),
        fmt.negative(negated(fmt, x)) == !fmt.negative(x),
{
}

} // verus!
