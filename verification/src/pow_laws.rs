//! What holds of `pow` on all inputs: the exact cases, and the sign of the
//! base factoring out of a whole power. Every statement is about
//! `pow_value`, which `pow` returns.
use crate::arith;
use crate::double::{
    absolute, diff, is_finite, is_inf, is_nan, is_zero, negated, negative, prod, quieted, quot, sum,
    DEFAULT_NAN, INF, NEG_ONE, ONE, TWO, ZERO,
};
use crate::format::Format;
use crate::identities;
use crate::ladder::{parity, special_value, Parity};
use crate::laws;
use crate::pow::{
    chopped, computed, exp2_magnitude, extreme, log2_near_one, log2_parts, pow_value, power_of_log,
    WORD,
};
use vstd::prelude::*;

verus! {

/// The two patterns are the same, or both are NaNs.
pub open spec fn same_number(a: u64, b: u64) -> bool {
    a == b || (is_nan(a) && is_nan(b))
}

/// `y` is a whole number, by its classification; no NaN is.
pub open spec fn whole(y: u64) -> bool {
    laws::whole(Format::Binary64, y)
}

/// Anything to the power zero is one, a NaN too.
pub proof fn power_zero(x: u64, y: u64)
    requires
        is_zero(y),
    ensures
        pow_value(x, y) == ONE,
{
    laws::lemma_zero_exponent(Format::Binary64, x, y);
}

/// One to any power is one, to a NaN too.
pub proof fn one_to_any_power(y: u64)
    ensures
        pow_value(ONE, y) == ONE,
{
    laws::lemma_one_base(Format::Binary64, y);
}

/// A NaN base to a power other than zero, and a base other than one to a
/// NaN power, give a NaN.
pub proof fn nan_operand(x: u64, y: u64)
    requires
        is_nan(x) || is_nan(y),
        !is_zero(y),
        x != ONE,
    ensures
        is_nan(pow_value(x, y)),
        pow_value(x, y) == sum(x, y),
{
    reveal(sum);
    laws::lemma_nan_operand(Format::Binary64, x, y);
}

/// `x` to the power one is `x`, bit for bit, unless `x` is a signalling NaN:
/// a NaN comes back quiet.
pub proof fn power_one(x: u64)
    ensures
        !is_nan(x) || quieted(x) == x ==> pow_value(x, ONE) == x,
        is_nan(x) ==> pow_value(x, ONE) == quieted(x),
{
    laws::lemma_exponent_one(Format::Binary64, x);
}

/// `x` to the power minus one is `1 / x`, bit for bit.
pub proof fn power_minus_one(x: u64)
    ensures
        pow_value(x, NEG_ONE) == quot(ONE, x),
{
    reveal(quot);
    laws::lemma_exponent_minus_one(Format::Binary64, x);
}

/// `x` to the power two is `x * x`, bit for bit.
pub proof fn power_two(x: u64)
    ensures
        pow_value(x, TWO) == prod(x, x),
{
    reveal(prod);
    laws::lemma_exponent_two(Format::Binary64, x);
}

/// To an infinite power, a base of magnitude one gives one; a base of
/// larger magnitude gives infinity where the power is positive and zero
/// where it is negative; a base of smaller magnitude the reverse.
pub proof fn infinite_power(x: u64, y: u64)
    requires
        !is_nan(x),
        is_inf(y),
    ensures
        absolute(x) == ONE ==> pow_value(x, y) == ONE,
        absolute(x) > ONE ==> pow_value(x, y) == if negative(y) {
            ZERO
        } else {
            INF
        },
        absolute(x) < ONE ==> pow_value(x, y) == if negative(y) {
            INF
        } else {
            ZERO
        },
{
    laws::lemma_infinite_exponent(Format::Binary64, x, y);
}

/// A negative finite base other than zero, to a finite power that is no
/// whole number, gives a NaN.
pub proof fn fractional_power_of_negative(x: u64, y: u64)
    requires
        negative(x),
        is_finite(x),
        !is_zero(x),
        !is_nan(y),
        !whole(y),
    ensures
        pow_value(x, y) == DEFAULT_NAN,
        is_nan(pow_value(x, y)),
{
    laws::lemma_negative_base(Format::Binary64, x, y);
}

/// Multiplying by one and by minus one, up to the NaNs: for every `v`,
/// `1 * (1 * v)` is `1 * v`, `-1 * (1 * v)` is `-1 * v`, and `-1 * (-1 * v)`
/// is `1 * v`.
proof fn lemma_signs_compose(v: u64)
    ensures
        same_number(prod(ONE, prod(ONE, v)), prod(ONE, v)),
        same_number(prod(NEG_ONE, prod(ONE, v)), prod(NEG_ONE, v)),
        same_number(prod(NEG_ONE, prod(NEG_ONE, v)), prod(ONE, v)),
{
    reveal(prod);
    let f = Format::Binary64;
    identities::lemma_one_decoded(f);
    if f.is_nan(v) {
        identities::lemma_prod_nan(f, ONE, v);
        identities::lemma_prod_nan(f, NEG_ONE, v);
        let a = arith::prod(f, ONE, v);
        let b = arith::prod(f, NEG_ONE, v);
        identities::lemma_prod_nan(f, ONE, a);
        identities::lemma_prod_nan(f, NEG_ONE, a);
        identities::lemma_prod_nan(f, NEG_ONE, b);
    } else {
        identities::lemma_prod_one(f, v);
        identities::lemma_prod_neg_one(f, v);
        identities::lemma_negated_twice(f, v);
        identities::lemma_prod_neg_one(f, arith::negated(f, v));
    }
}

/// A signed zero or infinity times one or minus one.
proof fn lemma_extreme_signs(overflow: bool)
    ensures
        prod(ONE, extreme(overflow, false)) == extreme(overflow, false),
        prod(NEG_ONE, extreme(overflow, false)) == extreme(overflow, true),
        prod(NEG_ONE, extreme(overflow, true)) == extreme(overflow, false),
{
    reveal(prod);
    let f = Format::Binary64;
    identities::lemma_one_decoded(f);
    identities::lemma_prod_one(f, extreme(overflow, false));
    identities::lemma_prod_neg_one(f, extreme(overflow, false));
    identities::lemma_prod_neg_one(f, extreme(overflow, true));
}

/// The sign of a power that is computed from a logarithm factors out.
proof fn lemma_power_of_log_signs(y: u64, t1: u64, t2: u64)
    ensures
        same_number(
            prod(ONE, power_of_log(y, t1, t2, false)),
            power_of_log(y, t1, t2, false),
        ),
        same_number(
            prod(NEG_ONE, power_of_log(y, t1, t2, false)),
            power_of_log(y, t1, t2, true),
        ),
        same_number(
            prod(NEG_ONE, power_of_log(y, t1, t2, true)),
            power_of_log(y, t1, t2, false),
        ),
{
    let y1 = chopped(y, WORD);
    let p_l = sum(prod(diff(y, y1), t1), prod(y, t2));
    let p_h = prod(y1, t1);
    let z = sum(p_l, p_h);
    lemma_extreme_signs(true);
    lemma_extreme_signs(false);
    lemma_signs_compose(exp2_magnitude(p_h, p_l, z));
}

/// The sign of a computed power factors out, for an exponent that is not
/// beyond all whole odd numbers.
proof fn lemma_computed_signs(ax: u64, y: u64)
    requires
        (y % 0x8000_0000_0000_0000) / WORD <= 0x43f0_0000,
    ensures
        same_number(prod(ONE, computed(ax, y, false)), computed(ax, y, false)),
        same_number(prod(NEG_ONE, computed(ax, y, false)), computed(ax, y, true)),
        same_number(prod(NEG_ONE, computed(ax, y, true)), computed(ax, y, false)),
{
    lemma_extreme_signs(true);
    lemma_extreme_signs(false);
    lemma_power_of_log_signs(y, log2_near_one(ax).0, log2_near_one(ax).1);
    lemma_power_of_log_signs(y, log2_parts(ax).0, log2_parts(ax).1);
}

/// The sign of the base factors out of a whole power: `(-x)^y` is
/// `(-1)^y * x^y`, the same pattern or a NaN on both sides.
pub proof fn sign_factors_out(x: u64, y: u64)
    requires
        whole(y),
    ensures
        same_number(pow_value(negated(x), y), prod(pow_value(NEG_ONE, y), pow_value(x, y))),
{
    reveal(prod);
    let f = Format::Binary64;
    let nx = negated(x);
    identities::lemma_negated_twice(f, x);
    identities::lemma_one_decoded(f);
    laws::lemma_special_both_signs(f, x, y);
    laws::lemma_minus_one_power(f, y);
    if special_value(f, x, y) is Some {
        laws::lemma_sign_factors_special(f, x, y);
        let s = special_value(f, NEG_ONE, y)->0;
        let v = special_value(f, x, y)->0;
        lemma_special_valid(x, y);
        lemma_special_valid(nx, y);
        identities::lemma_prod_valid(f, s, v);
    } else {
        assert(absolute(nx) == absolute(x));
        if parity(f, y) == Parity::Odd {
            lemma_odd_is_moderate(y);
        }
        if (y % 0x8000_0000_0000_0000) / WORD <= 0x43f0_0000 {
            lemma_computed_signs(absolute(x), y);
        } else {
            lemma_extreme_signs(true);
            lemma_extreme_signs(false);
        }
    }
}

/// An odd whole number lies below the magnitudes from which on every
/// exponent overflows or underflows.
proof fn lemma_odd_is_moderate(y: u64)
    requires
        parity(Format::Binary64, y) == Parity::Odd,
    ensures
        (y % 0x8000_0000_0000_0000) / WORD <= 0x43f0_0000,
{
}

/// The result of an exact case is a pattern of the format.
proof fn lemma_special_valid(x: u64, y: u64)
    requires
        Format::Binary64.valid(x),
        Format::Binary64.valid(y),
        laws::whole(Format::Binary64, y),
    ensures
        special_value(Format::Binary64, x, y) matches Some(v) ==> Format::Binary64.valid(v),
{
    laws::lemma_special_is_valid(Format::Binary64, x, y);
}

} // verus!
