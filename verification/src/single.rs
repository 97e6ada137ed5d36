//! IEEE-754 binary32 arithmetic on `u32` bit patterns.
use crate::addition;
use crate::arith;
use crate::division;
use crate::format::Format;
use crate::square_root;
use vstd::prelude::*;

verus! {

/// Positive zero.
pub const ZERO: u32 = 0x0000_0000;

/// `1.0`
pub const ONE: u32 = 0x3f80_0000;

/// `-1.0`
pub const NEG_ONE: u32 = 0xbf80_0000;

/// `2.0`
pub const TWO: u32 = 0x4000_0000;

/// `3.0`
pub const THREE: u32 = 0x4040_0000;

/// `0.5`
pub const HALF: u32 = 0x3f00_0000;

/// `0.25`
pub const QUARTER: u32 = 0x3e80_0000;

/// `1.5`
pub const ONE_AND_HALF: u32 = 0x3fc0_0000;

/// Positive infinity.
pub const INF: u32 = 0x7f80_0000;

/// Negative infinity.
pub const NEG_INF: u32 = 0xff80_0000;

/// The NaN that an invalid operation gives.
pub const DEFAULT_NAN: u32 = 0x7fc0_0000;

/// The sign bit alone: negative zero.
pub const SIGN: u32 = 0x8000_0000;

/// `a` is a NaN.
pub open spec fn is_nan(a: u32) -> bool {
    Format::Binary32.is_nan(a as u64)
}

/// `a` is an infinity.
pub open spec fn is_inf(a: u32) -> bool {
    Format::Binary32.is_inf(a as u64)
}

/// `a` is a finite number.
pub open spec fn is_finite(a: u32) -> bool {
    Format::Binary32.is_finite(a as u64)
}

/// `a` is a zero of either sign.
pub open spec fn is_zero(a: u32) -> bool {
    Format::Binary32.is_zero(a as u64)
}

/// `a` is a pattern with the sign bit set.
pub open spec fn negative(a: u32) -> bool {
    Format::Binary32.negative(a as u64)
}

/// Significand of a finite `a`: the number is `significand * 2^exponent`,
/// with the sign of `a`.
pub open spec fn significand(a: u32) -> nat {
    Format::Binary32.significand(Format::Binary32.magnitude(a as u64))
}

/// Exponent of a finite `a`: the weight of the last digit of its significand.
pub open spec fn exponent(a: u32) -> int {
    Format::Binary32.exponent(Format::Binary32.magnitude(a as u64))
}

/// The NaN `a` with its quiet bit set.
pub open spec fn quieted(a: u32) -> u32 {
    Format::Binary32.quieted(a as u64) as u32
}

/// Sets the quiet bit of a NaN.
pub fn quiet(a: u32) -> (r: u32)
    requires
        is_nan(a),
    ensures
        r == quieted(a),
        is_nan(r),
{
    let r: u64 = Format::Binary32.quiet(a as u64);
    r as u32
}

/// The rounded sum `a + b`.
#[verifier::opaque]
pub open spec fn sum(a: u32, b: u32) -> u32 {
    arith::sum(Format::Binary32, a as u64, b as u64) as u32
}

/// Computes `sum`.
pub fn plus(a: u32, b: u32) -> (r: u32)
    ensures
        r == sum(a, b),
{
    reveal(sum);
    let r: u64 = addition::plus(Format::Binary32, a as u64, b as u64);
    r as u32
}

/// The rounded difference `a - b`.
#[verifier::opaque]
pub open spec fn diff(a: u32, b: u32) -> u32 {
    arith::diff(Format::Binary32, a as u64, b as u64) as u32
}

/// Computes `diff`.
pub fn minus(a: u32, b: u32) -> (r: u32)
    ensures
        r == diff(a, b),
{
    reveal(diff);
    let r: u64 = addition::minus(Format::Binary32, a as u64, b as u64);
    r as u32
}

/// The rounded product `a * b`.
#[verifier::opaque]
pub open spec fn prod(a: u32, b: u32) -> u32 {
    arith::prod(Format::Binary32, a as u64, b as u64) as u32
}

/// Computes `prod`.
pub fn times(a: u32, b: u32) -> (r: u32)
    ensures
        r == prod(a, b),
{
    reveal(prod);
    let r: u64 = arith::times(Format::Binary32, a as u64, b as u64);
    r as u32
}

/// The rounded quotient `a / b`.
#[verifier::opaque]
pub open spec fn quot(a: u32, b: u32) -> u32 {
    arith::quot(Format::Binary32, a as u64, b as u64) as u32
}

/// Computes `quot`.
pub fn over(a: u32, b: u32) -> (r: u32)
    ensures
        r == quot(a, b),
{
    reveal(quot);
    let r: u64 = division::over(Format::Binary32, a as u64, b as u64);
    r as u32
}

/// The rounded square root of `a`.
#[verifier::opaque]
pub open spec fn root(a: u32) -> u32 {
    arith::root(Format::Binary32, a as u64) as u32
}

/// Computes `root`.
pub fn sqrt(a: u32) -> (r: u32)
    ensures
        r == root(a),
{
    reveal(root);
    let r: u64 = square_root::sqrt(Format::Binary32, a as u64);
    r as u32
}

/// `a` with its sign flipped.
pub open spec fn negated(a: u32) -> u32 {
    arith::negated(Format::Binary32, a as u64) as u32
}

/// Computes `negated`.
pub fn neg(a: u32) -> (r: u32)
    ensures
        r == negated(a),
{
    let r: u64 = arith::neg(Format::Binary32, a as u64);
    r as u32
}

/// `a` with its sign cleared.
pub open spec fn absolute(a: u32) -> u32 {
    arith::absolute(Format::Binary32, a as u64) as u32
}

/// Computes `absolute`.
pub fn abs(a: u32) -> (r: u32)
    ensures
        r == absolute(a),
{
    let r: u64 = arith::abs(Format::Binary32, a as u64);
    r as u32
}

/// `a < b` as numbers; false where either is a NaN.
pub open spec fn less(a: u32, b: u32) -> bool {
    arith::less(Format::Binary32, a as u64, b as u64)
}

/// Computes `less`.
pub fn lt(a: u32, b: u32) -> (r: bool)
    ensures
        r == less(a, b),
{
    arith::lt(Format::Binary32, a as u64, b as u64)
}

/// `a <= b` as numbers; false where either is a NaN.
pub open spec fn less_eq(a: u32, b: u32) -> bool {
    arith::less_eq(Format::Binary32, a as u64, b as u64)
}

/// Computes `less_eq`.
pub fn le(a: u32, b: u32) -> (r: bool)
    ensures
        r == less_eq(a, b),
{
    arith::le(Format::Binary32, a as u64, b as u64)
}

/// The integer `n`, rounded to the format.
#[verifier::opaque]
pub open spec fn from_integer(n: int) -> u32 {
    arith::from_integer(Format::Binary32, n) as u32
}

/// Computes `from_integer`.
pub fn from_int(n: i32) -> (r: u32)
    ensures
        r == from_integer(n as int),
{
    reveal(from_integer);
    let r: u64 = arith::from_int(Format::Binary32, n);
    r as u32
}

/// `a * 2^n`, rounded once.
#[verifier::opaque]
pub open spec fn scaled(a: u32, n: int) -> u32 {
    arith::scaled(Format::Binary32, a as u64, n) as u32
}

/// Computes `scaled`, for every `n`.
pub fn scale(a: u32, n: i32) -> (r: u32)
    ensures
        r == scaled(a, n as int),
{
    reveal(scaled);
    let r: u64 = arith::scale(Format::Binary32, a as u64, n);
    r as u32
}

} // verus!
