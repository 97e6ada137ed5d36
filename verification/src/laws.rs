//! What holds of the exact cases of a power, in either format.
use crate::arith::{absolute, negated, prod, quot, sum};
use crate::format::Format;
use crate::identities::{
    lemma_negated_twice, lemma_one_decoded, lemma_prod_nan, lemma_prod_neg_one, lemma_prod_one,
    lemma_quot_nan, lemma_quot_one_one, lemma_reciprocal_sign, lemma_square_sign, lemma_sum_nan,
    neg_one,
};
use crate::ladder::{parity, special_value, Parity};
use vstd::arithmetic::div_mod::*;
use vstd::arithmetic::power2::*;
use vstd::prelude::*;

verus! {

/// `a` and `b` are the same pattern, or both are NaNs.
pub open spec fn same_number(fmt: Format, a: u64, b: u64) -> bool {
    a == b || (fmt.is_nan(a) && fmt.is_nan(b))
}

/// `y` is a whole number, by its classification; no NaN is.
pub open spec fn whole(fmt: Format, y: u64) -> bool {
    !fmt.is_nan(y) && parity(fmt, y) != Parity::NotInteger
}

/// Zero is even, one and minus one are odd, two is even, and a half is no
/// whole number.
pub proof fn lemma_parity_of_constants(fmt: Format)
    ensures
        parity(fmt, 0) == Parity::Even,
        parity(fmt, fmt.sign_bit() as u64) == Parity::Even,
        parity(fmt, fmt.one() as u64) == Parity::Odd,
        parity(fmt, neg_one(fmt)) == Parity::Odd,
        parity(fmt, fmt.two() as u64) == Parity::Even,
        parity(fmt, fmt.half() as u64) == Parity::NotInteger,
        parity(fmt, fmt.inf() as u64) == Parity::Even,
        parity(fmt, (fmt.inf() + fmt.sign_bit()) as u64) == Parity::Even,
{
    lemma2_to64();
    lemma2_to64_rest();
    let low = (-fmt.min_exponent()) as nat;
    lemma_pow2_pos(low);
    lemma_small_mod(0, pow2(low));
    lemma_one_decoded(fmt);
    let h = fmt.hidden() as int;
    let d1 = pow2((-fmt.exponent(fmt.one())) as nat) as int;
    let d2 = pow2((-fmt.exponent(fmt.two())) as nat) as int;
    let dh = pow2((-fmt.exponent(fmt.half())) as nat) as int;
    match fmt {
        Format::Binary32 => {
            assert(fmt.exponent(fmt.one()) == -23 && fmt.significand(fmt.one()) == h);
            assert(fmt.exponent(fmt.two()) == -22 && fmt.significand(fmt.two()) == h);
            assert(fmt.exponent(fmt.half()) == -24 && fmt.significand(fmt.half()) == h);
            assert(d1 == h && 2 * d2 == h && dh == 2 * h);
        },
        Format::Binary64 => {
            assert(fmt.exponent(fmt.one()) == -52 && fmt.significand(fmt.one()) == h);
            assert(fmt.exponent(fmt.two()) == -51 && fmt.significand(fmt.two()) == h);
            assert(fmt.exponent(fmt.half()) == -53 && fmt.significand(fmt.half()) == h);
            assert(d1 == h && 2 * d2 == h && dh == 2 * h);
        },
    }
    assert(h % d1 == 0 && h / d1 == 1) by (nonlinear_arith)
        requires
            d1 == h,
            h > 0,
    ;
    assert(h % d2 == 0 && h / d2 == 2) by (nonlinear_arith)
        requires
            2 * d2 == h,
            h > 0,
    ;
    assert(h % dh == h) by (nonlinear_arith)
        requires
            dh == 2 * h,
            h > 0,
    ;
}

/// Anything to the power zero is one.
pub proof fn lemma_zero_exponent(fmt: Format, x: u64, y: u64)
    requires
        fmt.is_zero(y),
    ensures
        special_value(fmt, x, y) == Some(fmt.one() as u64),
{
}

/// One to any power is one.
pub proof fn lemma_one_base(fmt: Format, y: u64)
    ensures
        special_value(fmt, fmt.one() as u64, y) == Some(fmt.one() as u64),
{
}

/// A NaN base to a power other than zero, and a base other than one to a
/// NaN power, give a NaN: the sum of the two.
pub proof fn lemma_nan_operand(fmt: Format, x: u64, y: u64)
    requires
        fmt.valid(x),
        fmt.valid(y),
        fmt.is_nan(x) || fmt.is_nan(y),
        !fmt.is_zero(y),
        x != fmt.one(),
    ensures
        special_value(fmt, x, y) == Some(sum(fmt, x, y)),
        fmt.is_nan(sum(fmt, x, y)),
        fmt.valid(sum(fmt, x, y)),
{
    lemma_sum_nan(fmt, x, y);
}

/// `x` to the power one is `x`; a NaN comes back quiet.
pub proof fn lemma_exponent_one(fmt: Format, x: u64)
    requires
        fmt.valid(x),
    ensures
        special_value(fmt, x, fmt.one() as u64) == Some(
            if fmt.is_nan(x) {
                fmt.quieted(x) as u64
            } else {
                x
            },
        ),
{
    lemma_one_decoded(fmt);
    if fmt.is_nan(x) {
        lemma_sum_nan(fmt, x, fmt.one() as u64);
    }
}

/// `x` to the power minus one is `1 / x`.
pub proof fn lemma_exponent_minus_one(fmt: Format, x: u64)
    requires
        fmt.valid(x),
    ensures
        special_value(fmt, x, neg_one(fmt)) == Some(quot(fmt, fmt.one() as u64, x)),
{
    lemma_one_decoded(fmt);
    lemma_quot_one_one(fmt);
    if fmt.is_nan(x) {
        lemma_sum_nan(fmt, x, neg_one(fmt));
        lemma_quot_nan(fmt, fmt.one() as u64, x);
    }
}

/// `x` to the power two is `x * x`.
pub proof fn lemma_exponent_two(fmt: Format, x: u64)
    requires
        fmt.valid(x),
    ensures
        special_value(fmt, x, fmt.two() as u64) == Some(prod(fmt, x, x)),
{
    lemma_one_decoded(fmt);
    lemma_prod_one(fmt, fmt.one() as u64);
    if fmt.is_nan(x) {
        lemma_sum_nan(fmt, x, fmt.two() as u64);
        lemma_prod_nan(fmt, x, x);
    }
}

/// To an infinite power, a base of magnitude one gives one, a larger base
/// infinity or zero as the power is positive or negative, and a smaller
/// base the reverse.
pub proof fn lemma_infinite_exponent(fmt: Format, x: u64, y: u64)
    requires
        fmt.valid(x),
        !fmt.is_nan(x),
        fmt.is_inf(y),
    ensures
        fmt.magnitude(x) == fmt.one() ==> special_value(fmt, x, y) == Some(fmt.one() as u64),
        fmt.magnitude(x) > fmt.one() && !fmt.negative(y) ==> special_value(fmt, x, y) == Some(
            fmt.inf() as u64,
        ),
        fmt.magnitude(x) > fmt.one() && fmt.negative(y) ==> special_value(fmt, x, y) == Some(0u64),
        fmt.magnitude(x) < fmt.one() && !fmt.negative(y) ==> special_value(fmt, x, y) == Some(0u64),
        fmt.magnitude(x) < fmt.one() && fmt.negative(y) ==> special_value(fmt, x, y) == Some(
            fmt.inf() as u64,
        ),
{
}

/// A negative finite base other than zero, to a finite power that is no
/// whole number, gives a NaN.
pub proof fn lemma_negative_base(fmt: Format, x: u64, y: u64)
    requires
        fmt.valid(x),
        fmt.valid(y),
        fmt.negative(x),
        fmt.is_finite(x),
        !fmt.is_zero(x),
        !fmt.is_nan(y),
        parity(fmt, y) == Parity::NotInteger,
    ensures
        special_value(fmt, x, y) == Some(fmt.default_nan() as u64),
{
    lemma_parity_of_constants(fmt);
}

/// Minus one to a whole power is minus one where the power is odd, and one
/// where it is even.
pub proof fn lemma_minus_one_power(fmt: Format, y: u64)
    requires
        fmt.valid(y),
        whole(fmt, y),
    ensures
        special_value(fmt, neg_one(fmt), y) == Some(
            if parity(fmt, y) == Parity::Odd {
                neg_one(fmt)
            } else {
                fmt.one() as u64
            },
        ),
{
    lemma_one_decoded(fmt);
    lemma_parity_of_constants(fmt);
    lemma_quot_one_one(fmt);
    lemma_reciprocal_sign(fmt, fmt.one() as u64);
    lemma_prod_neg_one(fmt, neg_one(fmt));
}

/// With a whole power an exact case applies to `-x` exactly where one
/// applies to `x`.
pub proof fn lemma_special_both_signs(fmt: Format, x: u64, y: u64)
    requires
        fmt.valid(x),
        fmt.valid(y),
        whole(fmt, y),
    ensures
        special_value(fmt, negated(fmt, x), y) is Some <==> special_value(fmt, x, y) is Some,
        special_value(fmt, x, y) is None ==> {
            &&& 0 < fmt.magnitude(x) < fmt.inf()
            &&& 0 < fmt.magnitude(y) < fmt.inf()
        },
{
    lemma_one_decoded(fmt);
    lemma_parity_of_constants(fmt);
    lemma_negated_twice(fmt, x);
}

/// The sign factors out where the power is zero, or the base a NaN or of
/// magnitude one.
proof fn lemma_sign_factors_simple(fmt: Format, x: u64, y: u64)
    requires
        fmt.valid(x),
        fmt.valid(y),
        whole(fmt, y),
        fmt.is_zero(y) || fmt.is_nan(x) || fmt.magnitude(x) == fmt.one(),
    ensures
        special_value(fmt, x, y) is Some,
        special_value(fmt, negated(fmt, x), y) is Some,
        same_number(
            fmt,
            special_value(fmt, negated(fmt, x), y)->0,
            prod(fmt, special_value(fmt, neg_one(fmt), y)->0, special_value(fmt, x, y)->0),
        ),
{
    lemma_minus_one_power(fmt, y);
    lemma_one_decoded(fmt);
    lemma_negated_twice(fmt, x);
    let one = fmt.one() as u64;
    let m1 = neg_one(fmt);
    lemma_prod_one(fmt, one);
    lemma_prod_one(fmt, m1);
    lemma_prod_neg_one(fmt, one);
    lemma_prod_neg_one(fmt, m1);
    if fmt.is_zero(y) {
    } else if fmt.is_nan(x) {
        lemma_sum_nan(fmt, x, y);
        lemma_sum_nan(fmt, negated(fmt, x), y);
        lemma_prod_nan(fmt, special_value(fmt, m1, y)->0, special_value(fmt, x, y)->0);
    } else {
        assert(x == one || x == m1);
        assert(negated(fmt, one) == m1 && negated(fmt, m1) == one);
    }
}

/// The sign factors out of an infinite power, of the powers one and minus
/// one, and of the power two.
proof fn lemma_sign_factors_exponent(fmt: Format, x: u64, y: u64)
    requires
        fmt.valid(x),
        fmt.valid(y),
        !fmt.is_nan(x),
        fmt.magnitude(x) != fmt.one(),
        fmt.is_inf(y) || fmt.magnitude(y) == fmt.one() || y == fmt.two(),
    ensures
        special_value(fmt, x, y) is Some,
        special_value(fmt, negated(fmt, x), y) is Some,
        same_number(
            fmt,
            special_value(fmt, negated(fmt, x), y)->0,
            prod(fmt, special_value(fmt, neg_one(fmt), y)->0, special_value(fmt, x, y)->0),
        ),
{
    lemma_parity_of_constants(fmt);
    lemma_minus_one_power(fmt, y);
    lemma_one_decoded(fmt);
    lemma_negated_twice(fmt, x);
    let v = special_value(fmt, x, y)->0;
    if fmt.is_inf(y) {
        lemma_prod_one(fmt, v);
    } else if fmt.magnitude(y) == fmt.one() {
        lemma_reciprocal_sign(fmt, x);
        lemma_prod_neg_one(fmt, v);
    } else {
        lemma_square_sign(fmt, x);
        lemma_prod_one(fmt, v);
    }
}

/// The sign factors out of a whole power of a zero or an infinity.
proof fn lemma_sign_factors_base(fmt: Format, x: u64, y: u64)
    requires
        fmt.valid(x),
        fmt.valid(y),
        whole(fmt, y),
        fmt.is_zero(x) || fmt.is_inf(x),
        0 < fmt.magnitude(y) < fmt.inf(),
        fmt.magnitude(y) != fmt.one(),
        y != fmt.two(),
    ensures
        special_value(fmt, x, y) is Some,
        special_value(fmt, negated(fmt, x), y) is Some,
        same_number(
            fmt,
            special_value(fmt, negated(fmt, x), y)->0,
            prod(fmt, special_value(fmt, neg_one(fmt), y)->0, special_value(fmt, x, y)->0),
        ),
{
    lemma_parity_of_constants(fmt);
    lemma_minus_one_power(fmt, y);
    lemma_one_decoded(fmt);
    lemma_negated_twice(fmt, x);
    let one = fmt.one() as u64;
    let ax = absolute(fmt, x);
    lemma_reciprocal_sign(fmt, ax);
    let z = if fmt.negative(y) {
        quot(fmt, one, ax)
    } else {
        ax
    };
    assert(absolute(fmt, negated(fmt, x)) == ax);
    lemma_negated_twice(fmt, z);
    lemma_prod_one(fmt, z);
    lemma_prod_neg_one(fmt, z);
    lemma_prod_one(fmt, negated(fmt, z));
    lemma_prod_neg_one(fmt, negated(fmt, z));
}

/// The sign of a base factors out of a whole power, where an exact case
/// applies: `(-x)^y` is `(-1)^y * x^y`.
pub proof fn lemma_sign_factors_special(fmt: Format, x: u64, y: u64)
    requires
        fmt.valid(x),
        fmt.valid(y),
        whole(fmt, y),
        special_value(fmt, x, y) is Some,
    ensures
        special_value(fmt, negated(fmt, x), y) is Some,
        special_value(fmt, neg_one(fmt), y) is Some,
        same_number(
            fmt,
            special_value(fmt, negated(fmt, x), y)->0,
            prod(fmt, special_value(fmt, neg_one(fmt), y)->0, special_value(fmt, x, y)->0),
        ),
{
    lemma_minus_one_power(fmt, y);
    lemma_parity_of_constants(fmt);
    if fmt.is_zero(y) || fmt.is_nan(x) || fmt.magnitude(x) == fmt.one() {
        lemma_sign_factors_simple(fmt, x, y);
    } else if fmt.is_inf(y) || fmt.magnitude(y) == fmt.one() || y == fmt.two() {
        lemma_sign_factors_exponent(fmt, x, y);
    } else {
        lemma_sign_factors_base(fmt, x, y);
    }
}

/// The result of an exact case of a whole power is a pattern of the format.
pub proof fn lemma_special_is_valid(fmt: Format, x: u64, y: u64)
    requires
        fmt.valid(x),
        fmt.valid(y),
        whole(fmt, y),
    ensures
        special_value(fmt, x, y) matches Some(v) ==> fmt.valid(v),
{
    lemma_one_decoded(fmt);
    lemma_parity_of_constants(fmt);
    if fmt.is_nan(x) {
        lemma_sum_nan(fmt, x, y);
    } else {
        lemma_reciprocal_sign(fmt, x);
        lemma_square_sign(fmt, x);
        lemma_reciprocal_sign(fmt, absolute(fmt, x));
    }
}

} // verus!
