//! Each operation gives the number of the format that is nearest to its
//! exact result: here for the product, the sum, the quotient and the square
//! root of finite numbers. And the order of the patterns is that of the
//! numbers.
use crate::arith::{
    isqrt, less, order_key, prod, quot_finite, quotient_digits, root_digits, root_finite, signed,
    sum_finite,
};
use crate::format::Format;
use crate::nearest::{
    distance, distance_between, lemma_units_increase, rounding_is_nearest,
    rounding_is_nearest_between, rounding_is_nearest_to_root, units,
};
use crate::power::{lemma_bit_length_le, lemma_pow2_increases};
use crate::rounding::{lemma_round_valid, quantum, round_mag};
use crate::square_root::lemma_isqrt_exists;
use vstd::arithmetic::div_mod::*;
use vstd::arithmetic::mul::*;
use vstd::arithmetic::power2::*;
use vstd::prelude::*;

verus! {

/// Multiplication rounds correctly: the product of two finite numbers, where
/// it is finite and not zero, is the number nearest to `sa * sb * 2^(ea +
/// eb)`, the even one of two.
pub proof fn product_is_nearest(fmt: Format, a: u64, b: u64, other: nat)
    requires
        fmt.valid(a),
        fmt.valid(b),
        fmt.is_finite(a) && !fmt.is_zero(a),
        fmt.is_finite(b) && !fmt.is_zero(b),
        other < fmt.inf(),
        fmt.is_finite(prod(fmt, a, b)),
    ensures
        ({
            let n = fmt.significand(fmt.magnitude(a)) * fmt.significand(fmt.magnitude(b));
            let e = fmt.exponent(fmt.magnitude(a)) + fmt.exponent(fmt.magnitude(b));
            let result = fmt.magnitude(prod(fmt, a, b));
            &&& result == round_mag(fmt, n, e, false)
            &&& distance(fmt, n, e, result) <= distance(fmt, n, e, other)
            &&& other != result && distance(fmt, n, e, other) == distance(fmt, n, e, result)
                ==> fmt.significand(result) % 2 == 0
        }),
{
    reveal(prod);
    let sa = fmt.significand(fmt.magnitude(a));
    let sb = fmt.significand(fmt.magnitude(b));
    let e = fmt.exponent(fmt.magnitude(a)) + fmt.exponent(fmt.magnitude(b));
    lemma_mul_strictly_positive(sa as int, sb as int);
    lemma_round_valid(fmt, fmt.negative(a) != fmt.negative(b), sa * sb, e, false);
    rounding_is_nearest(fmt, sa * sb, e, other);
}

/// Addition rounds correctly: the sum of two finite numbers, where it is
/// finite and not zero, is the number nearest to the exact sum `t * 2^e`,
/// the even one of two.
pub proof fn sum_is_nearest(
    fmt: Format,
    na: bool,
    sa: nat,
    ea: int,
    nb: bool,
    sb: nat,
    eb: int,
    other: nat,
)
    requires
        other < fmt.inf(),
        fmt.is_finite(sum_finite(fmt, na, sa, ea, nb, sb, eb)),
        signed(na, sa * pow2((ea - if ea <= eb { ea } else { eb }) as nat)) + signed(
            nb,
            sb * pow2((eb - if ea <= eb { ea } else { eb }) as nat),
        ) != 0,
    ensures
        ({
            let e = if ea <= eb {
                ea
            } else {
                eb
            };
            let t = signed(na, sa * pow2((ea - e) as nat)) + signed(
                nb,
                sb * pow2((eb - e) as nat),
            );
            let n = if t >= 0 {
                t as nat
            } else {
                (-t) as nat
            };
            let result = fmt.magnitude(sum_finite(fmt, na, sa, ea, nb, sb, eb));
            &&& result == round_mag(fmt, n, e, false)
            &&& fmt.negative(sum_finite(fmt, na, sa, ea, nb, sb, eb)) == (t < 0)
            &&& distance(fmt, n, e, result) <= distance(fmt, n, e, other)
            &&& other != result && distance(fmt, n, e, other) == distance(fmt, n, e, result)
                ==> fmt.significand(result) % 2 == 0
        }),
{
    let e = if ea <= eb {
        ea
    } else {
        eb
    };
    let t = signed(na, sa * pow2((ea - e) as nat)) + signed(nb, sb * pow2((eb - e) as nat));
    let n = if t >= 0 {
        t as nat
    } else {
        (-t) as nat
    };
    lemma_round_valid(fmt, t < 0, n, e, false);
    rounding_is_nearest(fmt, n, e, other);
}

/// Division rounds correctly. With `q` the quotient of two significands
/// carried to `quotient_digits` and `r` the remainder, the exact quotient is
/// `(q + r / sb) * 2^e`; the result is the finite number nearest to it, and
/// where `r` is not zero no other finite number is as near.
pub proof fn quotient_is_nearest(
    fmt: Format,
    negative: bool,
    sa: nat,
    ea: int,
    sb: nat,
    eb: int,
    other: nat,
)
    requires
        0 < sa < 2 * fmt.hidden(),
        0 < sb < 2 * fmt.hidden(),
        other < fmt.inf(),
        fmt.magnitude(quot_finite(fmt, negative, sa, ea, sb, eb)) < fmt.inf(),
    ensures
        ({
            let num = sa * pow2(quotient_digits());
            let q = num / sb;
            let r = num % sb;
            let e = ea - eb - quotient_digits();
            let result = fmt.magnitude(quot_finite(fmt, negative, sa, ea, sb, eb));
            &&& q * sb + r == num
            &&& q > 0
            &&& result == round_mag(fmt, q, e, r != 0)
            &&& r == 0 ==> distance(fmt, q, e, result) <= distance(fmt, q, e, other)
            &&& r != 0 && other != result ==> distance_between(fmt, q, r, sb, e, result)
                < distance_between(fmt, q, r, sb, e, other)
        }),
{
    fmt.lemma_constants();
    lemma2_to64();
    lemma2_to64_rest();
    let big = pow2(quotient_digits());
    let num = sa * big;
    let q = num / sb;
    let r = num % sb;
    let e = ea - eb - quotient_digits();
    let p = fmt.precision();
    lemma_pow2_pos(quotient_digits());
    lemma_fundamental_div_mod(num as int, sb as int);
    lemma_mod_bound(num as int, sb as int);
    lemma_mul_is_commutative(sb as int, q as int);
    // the quotient has more than `precision` digits
    assert(q >= pow2(p)) by {
        lemma_pow2_adds(p, p);
        lemma_pow2_increases(2 * p, quotient_digits());
        lemma_mul_strict_inequality(sb as int, pow2(p) as int, pow2(p) as int);
        lemma_mul_is_commutative(sb as int, pow2(p) as int);
        lemma_mul_inequality(1, sa as int, big as int);
        lemma_div_is_ordered((pow2(p) * sb) as int, num as int, sb as int);
        lemma_div_multiples_vanish(pow2(p) as int, sb as int);
    }
    lemma_pow2_pos(p);
    lemma_bit_length_le(q, p);
    assert(quantum(fmt, q, e) > e);
    lemma_round_valid(fmt, negative, q, e, r != 0);
    if r == 0 {
        rounding_is_nearest(fmt, q, e, other);
    } else if other != round_mag(fmt, q, e, true) {
        rounding_is_nearest_between(fmt, q, r, sb, e, other);
    }
}

/// The square root rounds correctly. With `y` the significand, doubled
/// where the exponent is odd, and `2 * root_digits` digits appended, the
/// exact root is that of `y`, times `2^e`; the result is the finite number
/// nearest to it. Where `y` is no square, that is said by the squares: the
/// middle between the result and any other number lies on the other's
/// side of the root.
pub proof fn root_is_nearest(fmt: Format, sa: nat, ea: int, other: nat)
    requires
        0 < sa,
        other < fmt.inf(),
        fmt.is_finite(root_finite(fmt, sa, ea)),
    ensures
        ({
            let m = if ea % 2 != 0 {
                2 * sa
            } else {
                sa
            };
            let y = m * pow2(2 * root_digits());
            let e = ea / 2 - root_digits();
            let b = if e < fmt.min_exponent() {
                e
            } else {
                fmt.min_exponent()
            };
            let c = pow2((e - b) as nat);
            let g = pow2((fmt.min_exponent() - b) as nat);
            let result = fmt.magnitude(root_finite(fmt, sa, ea));
            let twice = (units(fmt, other) + units(fmt, result)) * g;
            &&& result == round_mag(fmt, isqrt(y), e, isqrt(y) * isqrt(y) != y)
            &&& isqrt(y) * isqrt(y) == y ==> distance(fmt, isqrt(y), e, result) <= distance(
                fmt,
                isqrt(y),
                e,
                other,
            )
            &&& isqrt(y) * isqrt(y) != y && other < result ==> twice * twice < 4 * y * c * c
            &&& isqrt(y) * isqrt(y) != y && other > result ==> twice * twice > 4 * y * c * c
        }),
{
    fmt.lemma_constants();
    lemma2_to64();
    lemma2_to64_rest();
    let m = if ea % 2 != 0 {
        2 * sa
    } else {
        sa
    };
    let big = pow2(2 * root_digits());
    let y = m * big;
    let e = ea / 2 - root_digits();
    let n = isqrt(y);
    lemma_isqrt_exists(y);
    lemma_pow2_pos(2 * root_digits());
    lemma_pow2_adds(root_digits(), root_digits());
    lemma_mul_inequality(1, m as int, big as int);
    // the root has more than `precision` digits: it is at least 2^64
    assert(n >= pow2(root_digits())) by {
        let h = pow2(root_digits()) as int;
        if (n as int) < h {
            assert((n + 1) * (n + 1) <= h * h) by (nonlinear_arith)
                requires
                    0 <= n,
                    n + 1 <= h,
            ;
        }
    }
    lemma_pow2_increases(fmt.precision(), root_digits());
    lemma_bit_length_le(n, fmt.precision());
    assert(quantum(fmt, n, e) > e);
    lemma_round_valid(fmt, false, n, e, n * n != y);
    if n * n == y {
        rounding_is_nearest(fmt, n, e, other);
    } else {
        rounding_is_nearest_to_root(fmt, y, e, other);
    }
}

/// The order of the patterns is the order of the numbers: of two finite
/// patterns the one that `less` puts first stands for the smaller number,
/// counted in units of `2^min_exponent` with its sign.
pub proof fn order_is_numeric(fmt: Format, a: u64, b: u64)
    requires
        fmt.valid(a),
        fmt.valid(b),
        fmt.is_finite(a),
        fmt.is_finite(b),
    ensures
        less(fmt, a, b) <==> signed(fmt.negative(a), units(fmt, fmt.magnitude(a))) < signed(
            fmt.negative(b),
            units(fmt, fmt.magnitude(b)),
        ),
{
    let ma = fmt.magnitude(a);
    let mb = fmt.magnitude(b);
    if ma <= mb {
        lemma_units_increase(fmt, ma, mb);
    } else {
        lemma_units_increase(fmt, mb, ma);
    }
    lemma_units_increase(fmt, 0, ma);
    lemma_units_increase(fmt, 0, mb);
    assert(units(fmt, 0) == 0) by {
        lemma_mul_basics(pow2(0) as int);
    }
    assert(order_key(fmt, a) < order_key(fmt, b) <==> signed(fmt.negative(a), units(fmt, ma))
        < signed(fmt.negative(b), units(fmt, mb)));
}

} // verus!
