//! IEEE-754 binary64 arithmetic on `u64` bit patterns.
use crate::addition;
use crate::arith;
use crate::division;
use crate::format::Format;
use crate::square_root;
use vstd::prelude::*;

verus! {

/// Positive zero.
pub const ZERO: u64 = 0x0000_0000_0000_0000;

/// `1.0`
pub const ONE: u64 = 0x3ff0_0000_0000_0000;

/// `-1.0`
pub const NEG_ONE: u64 = 0xbff0_0000_0000_0000;

/// `2.0`
pub const TWO: u64 = 0x4000_0000_0000_0000;

/// `3.0`
pub const THREE: u64 = 0x4008_0000_0000_0000;

/// `0.5`
pub const HALF: u64 = 0x3fe0_0000_0000_0000;

/// `0.25`
pub const QUARTER: u64 = 0x3fd0_0000_0000_0000;

/// `1.5`
pub const ONE_AND_HALF: u64 = 0x3ff8_0000_0000_0000;

/// Positive infinity.
pub const INF: u64 = 0x7ff0_0000_0000_0000;

/// Negative infinity.
pub const NEG_INF: u64 = 0xfff0_0000_0000_0000;

/// The NaN that an invalid operation gives.
pub const DEFAULT_NAN: u64 = 0x7ff8_0000_0000_0000;

/// The sign bit alone: negative zero.
pub const SIGN: u64 = 0x8000_0000_0000_0000;

/// `a` is a NaN.
pub open spec fn is_nan(a: u64) -> bool {
    Format::Binary64.is_nan(a)
}

/// `a` is an infinity.
pub open spec fn is_inf(a: u64) -> bool {
    Format::Binary64.is_inf(a)
}

/// `a` is a finite number.
pub open spec fn is_finite(a: u64) -> bool {
    Format::Binary64.is_finite(a)
}

/// `a` is a zero of either sign.
pub open spec fn is_zero(a: u64) -> bool {
    Format::Binary64.is_zero(a)
}

/// `a` is a pattern with the sign bit set.
pub open spec fn negative(a: u64) -> bool {
    Format::Binary64.negative(a)
}

/// Significand of a finite `a`: the number is `significand * 2^exponent`,
/// with the sign of `a`.
pub open spec fn significand(a: u64) -> nat {
    Format::Binary64.significand(Format::Binary64.magnitude(a))
}

/// Exponent of a finite `a`: the weight of the last digit of its significand.
pub open spec fn exponent(a: u64) -> int {
    Format::Binary64.exponent(Format::Binary64.magnitude(a))
}

/// The NaN `a` with its quiet bit set.
pub open spec fn quieted(a: u64) -> u64 {
    Format::Binary64.quieted(a) as u64
}

/// Sets the quiet bit of a NaN.
pub fn quiet(a: u64) -> (r: u64)
    requires
        is_nan(a),
    ensures
        r == quieted(a),
        is_nan(r),
{
    let r: u64 = Format::Binary64.quiet(a);
    r
}

/// The rounded sum `a + b`.
#[verifier::opaque]
pub open spec fn sum(a: u64, b: u64) -> u64 {
    arith::sum(Format::Binary64, a, b)
}

/// Computes `sum`.
pub fn plus(a: u64, b: u64) -> (r: u64)
    ensures
        r == sum(a, b),
{
    reveal(sum);
    let r: u64 = addition::plus(Format::Binary64, a, b);
    r
}

/// The rounded difference `a - b`.
#[verifier::opaque]
pub open spec fn diff(a: u64, b: u64) -> u64 {
    arith::diff(Format::Binary64, a, b)
}

/// Computes `diff`.
pub fn minus(a: u64, b: u64) -> (r: u64)
    ensures
        r == diff(a, b),
{
    reveal(diff);
    let r: u64 = addition::minus(Format::Binary64, a, b);
    r
}

/// The rounded product `a * b`.
#[verifier::opaque]
pub open spec fn prod(a: u64, b: u64) -> u64 {
    arith::prod(Format::Binary64, a, b)
}

/// Computes `prod`.
pub fn times(a: u64, b: u64) -> (r: u64)
    ensures
        r == prod(a, b),
{
    reveal(prod);
    let r: u64 = arith::times(Format::Binary64, a, b);
    r
}

/// The rounded quotient `a / b`.
#[verifier::opaque]
pub open spec fn quot(a: u64, b: u64) -> u64 {
    arith::quot(Format::Binary64, a, b)
}

/// Computes `quot`.
pub fn over(a: u64, b: u64) -> (r: u64)
    ensures
        r == quot(a, b),
{
    reveal(quot);
    let r: u64 = division::over(Format::Binary64, a, b);
    r
}

/// The rounded square root of `a`.
#[verifier::opaque]
pub open spec fn root(a: u64) -> u64 {
    arith::root(Format::Binary64, a)
}

/// Computes `root`.
pub fn sqrt(a: u64) -> (r: u64)
    ensures
        r == root(a),
{
    reveal(root);
    let r: u64 = square_root::sqrt(Format::Binary64, a);
    r
}

/// `a` with its sign flipped.
pub open spec fn negated(a: u64) -> u64 {
    arith::negated(Format::Binary64, a)
}

/// Computes `negated`.
pub fn neg(a: u64) -> (r: u64)
    ensures
        r == negated(a),
{
    let r: u64 = arith::neg(Format::Binary64, a);
    r
}

/// `a` with its sign cleared.
pub open spec fn absolute(a: u64) -> u64 {
    arith::absolute(Format::Binary64, a)
}

/// Computes `absolute`.
pub fn abs(a: u64) -> (r: u64)
    ensures
        r == absolute(a),
{
    let r: u64 = arith::abs(Format::Binary64, a);
    r
}

/// `a < b` as numbers; false where either is a NaN.
pub open spec fn less(a: u64, b: u64) -> bool {
    arith::less(Format::Binary64, a, b)
}

/// Computes `less`.
pub fn lt(a: u64, b: u64) -> (r: bool)
    ensures
        r == less(a, b),
{
    arith::lt(Format::Binary64, a, b)
}

/// `a <= b` as numbers; false where either is a NaN.
pub open spec fn less_eq(a: u64, b: u64) -> bool {
    arith::less_eq(Format::Binary64, a, b)
}

/// Computes `less_eq`.
pub fn le(a: u64, b: u64) -> (r: bool)
    ensures
        r == less_eq(a, b),
{
    arith::le(Format::Binary64, a, b)
}

/// The integer `n`, rounded to the format.
#[verifier::opaque]
pub open spec fn from_integer(n: int) -> u64 {
    arith::from_integer(Format::Binary64, n)
}

/// Computes `from_integer`.
pub fn from_int(n: i32) -> (r: u64)
    ensures
        r == from_integer(n as int),
{
    reveal(from_integer);
    let r: u64 = arith::from_int(Format::Binary64, n);
    r
}

/// `a * 2^n`, rounded once.
#[verifier::opaque]
pub open spec fn scaled(a: u64, n: int) -> u64 {
    arith::scaled(Format::Binary64, a, n)
}

/// Computes `scaled`, for every `n`.
pub fn scale(a: u64, n: i32) -> (r: u64)
    ensures
        r == scaled(a, n as int),
{
    reveal(scaled);
    let r: u64 = arith::scale(Format::Binary64, a, n);
    r
}

} // verus!
