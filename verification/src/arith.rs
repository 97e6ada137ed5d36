//! IEEE-754 arithmetic on bit patterns, for either format: each operation is
//! the exact result, rounded once to nearest with ties to even.
//!
//! An operation on a NaN hands on its first NaN operand, made quiet; an
//! invalid operation gives the format's default NaN.
//!
//! Here is what each operation gives, and the operations that need no more
//! than that: the product, the conversions and the order. The sum, the
//! quotient and the square root have modules of their own.
use crate::format::Format;
use crate::power::lemma_pow2_increases;
use crate::rounding::{round, round_pack};
use vstd::arithmetic::power2::*;
use vstd::prelude::*;

verus! {

/// The pattern with its sign bit flipped.
pub open spec fn negated(fmt: Format, a: u64) -> u64 {
    fmt.with_sign(!fmt.negative(a), fmt.magnitude(a)) as u64
}

/// The pattern with its sign bit cleared.
pub open spec fn absolute(fmt: Format, a: u64) -> u64 {
    fmt.magnitude(a) as u64
}

/// `n` with a sign.
pub open spec fn signed(negative: bool, n: nat) -> int {
    if negative {
        -(n as int)
    } else {
        n as int
    }
}

/// The rounded product.
#[verifier::opaque]
pub open spec fn prod(fmt: Format, a: u64, b: u64) -> u64 {
    let negative = fmt.negative(a) != fmt.negative(b);
    if fmt.is_nan(a) {
        fmt.quieted(a) as u64
    } else if fmt.is_nan(b) {
        fmt.quieted(b) as u64
    } else if fmt.is_inf(a) || fmt.is_inf(b) {
        if fmt.is_zero(a) || fmt.is_zero(b) {
            fmt.default_nan() as u64
        } else {
            fmt.with_sign(negative, fmt.inf()) as u64
        }
    } else {
        round(
            fmt,
            negative,
            fmt.significand(fmt.magnitude(a)) * fmt.significand(fmt.magnitude(b)),
            fmt.exponent(fmt.magnitude(a)) + fmt.exponent(fmt.magnitude(b)),
            false,
        )
    }
}

/// The rounded sum of two finite numbers, each given by its sign,
/// significand and exponent. An exact zero is negative only where both
/// terms are.
pub open spec fn sum_finite(
    fmt: Format,
    na: bool,
    sa: nat,
    ea: int,
    nb: bool,
    sb: nat,
    eb: int,
) -> u64 {
    let e = if ea <= eb {
        ea
    } else {
        eb
    };
    let t = signed(na, sa * pow2((ea - e) as nat)) + signed(nb, sb * pow2((eb - e) as nat));
    if t == 0 {
        fmt.with_sign(na && nb, 0) as u64
    } else if t > 0 {
        round(fmt, false, t as nat, e, false)
    } else {
        round(fmt, true, (-t) as nat, e, false)
    }
}

/// The rounded sum.
#[verifier::opaque]
pub open spec fn sum(fmt: Format, a: u64, b: u64) -> u64 {
    if fmt.is_nan(a) {
        fmt.quieted(a) as u64
    } else if fmt.is_nan(b) {
        fmt.quieted(b) as u64
    } else if fmt.is_inf(a) {
        if fmt.is_inf(b) && fmt.negative(a) != fmt.negative(b) {
            fmt.default_nan() as u64
        } else {
            a
        }
    } else if fmt.is_inf(b) {
        b
    } else {
        sum_finite(
            fmt,
            fmt.negative(a),
            fmt.significand(fmt.magnitude(a)),
            fmt.exponent(fmt.magnitude(a)),
            fmt.negative(b),
            fmt.significand(fmt.magnitude(b)),
            fmt.exponent(fmt.magnitude(b)),
        )
    }
}

/// The rounded difference: the sum of `a` and the negated `b`, except that a
/// NaN `b` is handed on with its own sign.
pub open spec fn diff(fmt: Format, a: u64, b: u64) -> u64 {
    if !fmt.is_nan(a) && fmt.is_nan(b) {
        fmt.quieted(b) as u64
    } else {
        sum(fmt, a, negated(fmt, b))
    }
}

/// Number of binary digits to which a quotient is carried before it is
/// rounded; what lies below them counts as inexact.
pub open spec fn quotient_digits() -> nat {
    128
}

/// The rounded quotient of two finite numbers, the divisor not zero.
pub open spec fn quot_finite(
    fmt: Format,
    negative: bool,
    sa: nat,
    ea: int,
    sb: nat,
    eb: int,
) -> u64 {
    let num = sa * pow2(quotient_digits());
    round(fmt, negative, num / sb, ea - eb - quotient_digits(), num % sb != 0)
}

/// The rounded quotient.
#[verifier::opaque]
pub open spec fn quot(fmt: Format, a: u64, b: u64) -> u64 {
    let negative = fmt.negative(a) != fmt.negative(b);
    if fmt.is_nan(a) {
        fmt.quieted(a) as u64
    } else if fmt.is_nan(b) {
        fmt.quieted(b) as u64
    } else if fmt.is_inf(a) {
        if fmt.is_inf(b) {
            fmt.default_nan() as u64
        } else {
            fmt.with_sign(negative, fmt.inf()) as u64
        }
    } else if fmt.is_inf(b) {
        fmt.with_sign(negative, 0) as u64
    } else if fmt.is_zero(b) {
        if fmt.is_zero(a) {
            fmt.default_nan() as u64
        } else {
            fmt.with_sign(negative, fmt.inf()) as u64
        }
    } else {
        quot_finite(
            fmt,
            negative,
            fmt.significand(fmt.magnitude(a)),
            fmt.exponent(fmt.magnitude(a)),
            fmt.significand(fmt.magnitude(b)),
            fmt.exponent(fmt.magnitude(b)),
        )
    }
}

/// `r` is the integer square root of `n`, rounded down.
pub open spec fn is_isqrt(n: nat, r: nat) -> bool {
    r * r <= n < (r + 1) * (r + 1)
}

/// The integer square root of `n`, rounded down.
pub open spec fn isqrt(n: nat) -> nat {
    choose|r: nat| is_isqrt(n, r)
}

/// Number of binary digits below the point to which a square root is
/// carried before it is rounded; what lies below them counts as inexact.
pub open spec fn root_digits() -> nat {
    64
}

/// The rounded square root of a finite positive number.
pub open spec fn root_finite(fmt: Format, sa: nat, ea: int) -> u64 {
    let m = if ea % 2 != 0 {
        2 * sa
    } else {
        sa
    };
    let x = m * pow2(2 * root_digits());
    round(fmt, false, isqrt(x), ea / 2 - root_digits(), isqrt(x) * isqrt(x) != x)
}

/// The rounded square root. The root of a zero is that zero; a negative
/// number has none.
#[verifier::opaque]
pub open spec fn root(fmt: Format, a: u64) -> u64 {
    if fmt.is_nan(a) {
        fmt.quieted(a) as u64
    } else if fmt.is_zero(a) {
        a
    } else if fmt.negative(a) {
        fmt.default_nan() as u64
    } else if fmt.is_inf(a) {
        a
    } else {
        root_finite(fmt, fmt.significand(fmt.magnitude(a)), fmt.exponent(fmt.magnitude(a)))
    }
}

/// The integer `n` as a pattern, rounded where it has too many digits.
pub open spec fn from_integer(fmt: Format, n: int) -> u64 {
    if n < 0 {
        round(fmt, true, (-n) as nat, 0, false)
    } else {
        round(fmt, false, n as nat, 0, false)
    }
}

/// `a * 2^n`, rounded once. Zero, infinity and NaN come back as they are,
/// a NaN made quiet.
pub open spec fn scaled(fmt: Format, a: u64, n: int) -> u64 {
    if fmt.is_nan(a) {
        fmt.quieted(a) as u64
    } else if fmt.is_inf(a) {
        a
    } else {
        round(
            fmt,
            fmt.negative(a),
            fmt.significand(fmt.magnitude(a)),
            fmt.exponent(fmt.magnitude(a)) + n,
            false,
        )
    }
}

/// Where a pattern that is no NaN stands in the order of the numbers: the
/// magnitude patterns are ordered as the magnitudes themselves.
pub open spec fn order_key(fmt: Format, a: u64) -> int {
    if fmt.negative(a) {
        -(fmt.magnitude(a) as int)
    } else {
        fmt.magnitude(a) as int
    }
}

/// `a < b` as numbers; false where either is a NaN. The two zeros are equal.
pub open spec fn less(fmt: Format, a: u64, b: u64) -> bool {
    !fmt.is_nan(a) && !fmt.is_nan(b) && order_key(fmt, a) < order_key(fmt, b)
}

/// `a <= b` as numbers; false where either is a NaN.
pub open spec fn less_eq(fmt: Format, a: u64, b: u64) -> bool {
    !fmt.is_nan(a) && !fmt.is_nan(b) && order_key(fmt, a) <= order_key(fmt, b)
}

/// Computes `order_key`.
fn key(fmt: Format, a: u64) -> (r: i128)
    requires
        fmt.valid(a),
    ensures
        r == order_key(fmt, a),
{
    let (na, ma) = fmt.split(a);
    if na {
        -(ma as i128)
    } else {
        ma as i128
    }
}

/// Whether `a < b`.
pub fn lt(fmt: Format, a: u64, b: u64) -> (r: bool)
    requires
        fmt.valid(a),
        fmt.valid(b),
    ensures
        r == less(fmt, a, b),
{
    let (_na, ma) = fmt.split(a);
    let (_nb, mb) = fmt.split(b);
    ma <= fmt.inf_bits() && mb <= fmt.inf_bits() && key(fmt, a) < key(fmt, b)
}

/// Whether `a <= b`.
pub fn le(fmt: Format, a: u64, b: u64) -> (r: bool)
    requires
        fmt.valid(a),
        fmt.valid(b),
    ensures
        r == less_eq(fmt, a, b),
{
    let (_na, ma) = fmt.split(a);
    let (_nb, mb) = fmt.split(b);
    ma <= fmt.inf_bits() && mb <= fmt.inf_bits() && key(fmt, a) <= key(fmt, b)
}

/// `-a`: the sign bit flipped, of a NaN too.
pub fn neg(fmt: Format, a: u64) -> (r: u64)
    requires
        fmt.valid(a),
    ensures
        r == negated(fmt, a),
        fmt.valid(r),
{
    let (s, m) = fmt.split(a);
    fmt.join(!s, m)
}

/// `|a|`: the sign bit cleared, of a NaN too.
pub fn abs(fmt: Format, a: u64) -> (r: u64)
    requires
        fmt.valid(a),
    ensures
        r == absolute(fmt, a),
        fmt.valid(r),
{
    let (_s, m) = fmt.split(a);
    m
}

/// A product of two numbers below two bounds is below the bounds' product.
pub proof fn lemma_mul_below(a: int, b: int, c: int, d: int)
    by (nonlinear_arith)
    requires
        0 <= a < c,
        0 <= b < d,
    ensures
        0 <= a * b < c * d,
{
}

/// `a * b`.
pub fn times(fmt: Format, a: u64, b: u64) -> (r: u64)
    requires
        fmt.valid(a),
        fmt.valid(b),
    ensures
        r == prod(fmt, a, b),
        fmt.valid(r),
{
    reveal(prod);
    let (na, ma) = fmt.split(a);
    let (nb, mb) = fmt.split(b);
    let negative = na != nb;
    let inf: u64 = fmt.inf_bits();
    if ma > inf {
        return fmt.quiet(a);
    }
    if mb > inf {
        return fmt.quiet(b);
    }
    if ma == inf || mb == inf {
        if ma == 0 || mb == 0 {
            return fmt.default_nan_bits();
        }
        return fmt.join(negative, inf);
    }
    let (sa, ea) = fmt.decode(ma);
    let (sb, eb) = fmt.decode(mb);
    proof {
        lemma2_to64();
        lemma2_to64_rest();
        lemma_pow2_adds(53, 53);
        lemma_pow2_increases(106, 127);
        lemma_mul_below(sa as int, sb as int, pow2(53) as int, pow2(53) as int);
    }
    round_pack(fmt, negative, (sa as u128) * (sb as u128), (ea + eb) as i64, false)
}

/// The integer `n` in the format.
pub fn from_int(fmt: Format, n: i32) -> (r: u64)
    ensures
        r == from_integer(fmt, n as int),
        fmt.valid(r),
{
    proof {
        lemma2_to64();
        lemma_pow2_increases(32, 127);
    }
    if n < 0 {
        round_pack(fmt, true, (-(n as i64)) as u128, 0, false)
    } else {
        round_pack(fmt, false, n as u128, 0, false)
    }
}

/// `a * 2^n`, for every `n`: the exponent is changed and the number rounded
/// once, whether or not `2^n` is a number of the format.
pub fn scale(fmt: Format, a: u64, n: i32) -> (r: u64)
    requires
        fmt.valid(a),
    ensures
        r == scaled(fmt, a, n as int),
        fmt.valid(r),
{
    let (na, ma) = fmt.split(a);
    let inf: u64 = fmt.inf_bits();
    if ma > inf {
        return fmt.quiet(a);
    }
    if ma == inf {
        return a;
    }
    let (sa, ea) = fmt.decode(ma);
    proof {
        lemma2_to64();
        lemma2_to64_rest();
        lemma_pow2_increases(53, 127);
    }
    round_pack(fmt, na, sa as u128, ea as i64 + n as i64, false)
}

} // verus!
