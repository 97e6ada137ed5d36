//! The square root: the integer root of the significand, with digits to
//! spare, and whether it is exact.
use crate::arith::{is_isqrt, isqrt, lemma_mul_below, root, root_digits, root_finite};
use crate::format::Format;
use crate::power::{
    bit_length_u128, lemma_bit_length_bounds, lemma_bit_length_le, lemma_bit_length_shift,
    lemma_pow2_high, lemma_pow2_increases, pow2_u128, pow2_u64,
};
use crate::rounding::{lemma_round_sticky, round_mag, round_pack};
use vstd::arithmetic::div_mod::*;
use vstd::arithmetic::mul::*;
use vstd::arithmetic::power2::*;
use vstd::prelude::*;

verus! {

/// Between squares of natural numbers the order is that of the numbers.
proof fn lemma_square_order(a: int, b: int)
    by (nonlinear_arith)
    requires
        0 <= a,
        0 <= b,
    ensures
        a < b <==> a * a < b * b,
        a <= b <==> a * a <= b * b,
{
}

/// Only one number is the integer square root of `n`.
pub proof fn lemma_isqrt_unique(n: nat, r: nat)
    requires
        is_isqrt(n, r),
    ensures
        isqrt(n) == r,
{
    let s = isqrt(n);
    assert(is_isqrt(n, s));
    lemma_square_order(r as int, s as int + 1);
    lemma_square_order(s as int, r as int + 1);
}

/// The integer square root of a `u128` below `2^126`.
fn isqrt_u128(x: u128) -> (r: u64)
    requires
        x < pow2(126),
    ensures
        is_isqrt(x as nat, r as nat),
        r == isqrt(x as nat),
        r < pow2(63),
{
    let mut r: u64 = 0;
    let mut bit: u32 = 63;
    proof {
        lemma2_to64_rest();
        lemma_pow2_high();
        lemma_pow2_adds(63, 63);
    }
    while bit > 0
        invariant
            bit <= 63,
            r * r <= x < (r + pow2(bit as nat)) * (r + pow2(bit as nat)),
            r + pow2(bit as nat) <= pow2(63),
            pow2(63) == 0x8000_0000_0000_0000,
        decreases bit,
    {
        bit = bit - 1;
        let b: u64 = pow2_u64(bit);
        proof {
            lemma_pow2_unfold((bit + 1) as nat);
            lemma_pow2_pos(bit as nat);
        }
        let cand: u64 = r + b;
        proof {
            lemma_pow2_high();
            lemma_pow2_adds(63, 63);
            lemma_mul_below(cand as int, cand as int, pow2(63) as int, pow2(63) as int);
        }
        if (cand as u128) * (cand as u128) <= x {
            r = cand;
        }
    }
    proof {
        lemma2_to64();
        lemma_isqrt_unique(x as nat, r as nat);
    }
    r
}

/// The root of `x * c^2` is `c` times the root of `x`, and then some: from
/// the one root to the other, and when the smaller one is exact.
proof fn lemma_isqrt_scale(x: int, c: int, r: int, big: int)
    by (nonlinear_arith)
    requires
        0 <= x,
        0 < c,
        0 <= r,
        0 <= big,
        r * r <= x < (r + 1) * (r + 1),
        big * big <= x * (c * c) < (big + 1) * (big + 1),
    ensures
        r * c <= big < (r + 1) * c,
        (r * r == x) <==> (big == r * c && big * big == x * (c * c)),
{
    assert((r * c) * (r * c) == (r * r) * (c * c));
    assert(((r + 1) * c) * ((r + 1) * c) == ((r + 1) * (r + 1)) * (c * c));
    assert((r * r) * (c * c) <= x * (c * c));
    assert(x * (c * c) < ((r + 1) * (r + 1)) * (c * c));
    assert((r * c) * (r * c) < (big + 1) * (big + 1));
    assert(big * big < ((r + 1) * c) * ((r + 1) * c));
    lemma_square_order(r * c, big + 1);
    lemma_square_order(big, (r + 1) * c);
    if r * r == x {
        assert(big * big <= (r * c) * (r * c));
        lemma_square_order(big, r * c);
    }
    if big == r * c && big * big == x * (c * c) {
        assert((r * r) * (c * c) == x * (c * c));
        assert(c * c > 0);
    }
}

/// A root carried to fewer digits rounds as one carried to more, as long
/// as more than `precision` digits are there.
proof fn lemma_root_digits(fmt: Format, m: nat, h: int, j: nat)
    requires
        j <= root_digits(),
        m * pow2(2 * j) >= pow2(124),
    ensures
        round_mag(
            fmt,
            isqrt(m * pow2(2 * root_digits())),
            h - root_digits(),
            isqrt(m * pow2(2 * root_digits())) * isqrt(m * pow2(2 * root_digits())) != m * pow2(
                2 * root_digits(),
            ),
        ) == round_mag(
            fmt,
            isqrt(m * pow2(2 * j)),
            h - j,
            isqrt(m * pow2(2 * j)) * isqrt(m * pow2(2 * j)) != m * pow2(2 * j),
        ),
{
    fmt.lemma_constants();
    lemma2_to64();
    lemma2_to64_rest();
    let big = root_digits();
    let k = (big - j) as nat;
    let c = pow2(k);
    let x = m * pow2(2 * j);
    let xk = m * pow2(2 * big);
    lemma_pow2_pos(k);
    lemma_pow2_adds(k, k);
    lemma_pow2_adds(2 * j, 2 * k);
    lemma_mul_is_associative(m as int, pow2(2 * j) as int, pow2(2 * k) as int);
    assert(xk == x * (c * c));
    lemma_isqrt_exists(x);
    lemma_isqrt_exists(xk);
    let r = isqrt(x);
    let rk = isqrt(xk);
    lemma_isqrt_scale(x as int, c as int, r as int, rk as int);
    lemma_mul_is_distributive_add_other_way(c as int, r as int, 1);
    lemma_fundamental_div_mod_converse(rk as int, c as int, r as int, rk - r * c);
    // r has 63 digits, more than any precision
    lemma_pow2_adds(62, 62);
    lemma_square_order(r as int + 1, pow2(62) as int);
    assert(r >= pow2(62));
    lemma_pow2_increases(fmt.precision(), 62);
    lemma_bit_length_le(r, fmt.precision());
    lemma_mul_inequality(1, r as int, c as int);
    assert(rk >= c);
    lemma_bit_length_shift(rk, k);
    lemma_round_sticky(fmt, rk, h - big, k, rk * rk != xk);
}

/// Every natural number has an integer square root.
pub proof fn lemma_isqrt_exists(n: nat)
    ensures
        is_isqrt(n, isqrt(n)),
    decreases n,
{
    if n == 0 {
        assert(is_isqrt(0, 0)) by (nonlinear_arith);
    } else {
        lemma_isqrt_exists((n - 1) as nat);
        let r = isqrt((n - 1) as nat);
        if n < (r + 1) * (r + 1) {
            assert(is_isqrt(n, r));
        } else {
            assert((r + 2) * (r + 2) > (r + 1) * (r + 1)) by (nonlinear_arith);
            assert(is_isqrt(n, r + 1));
        }
    }
}

/// The rounded square root of `sa * 2^ea`, for a significand that is not zero.
fn sqrt_finite(fmt: Format, sa: u64, ea: i32) -> (r: u64)
    requires
        0 < sa < 2 * fmt.hidden(),
        -2000 <= ea <= 2000,
    ensures
        r == root_finite(fmt, sa as nat, ea as int),
        fmt.valid(r),
{
    let odd: bool = (ea + 2000) % 2 == 1;
    proof {
        fmt.lemma_constants();
        lemma2_to64_rest();
    }
    let m: u128 = if odd {
        2 * (sa as u128)
    } else {
        sa as u128
    };
    let h: i32 = (ea + 2000) / 2 - 1000;
    assert(h == ea as int / 2 && odd == (ea as int % 2 != 0));
    let l: u32 = bit_length_u128(m);
    assert(1 <= l <= 54) by {
        lemma2_to64_rest();
        lemma_bit_length_bounds(m as nat);
        lemma_bit_length_le(m as nat, 54);
    }
    let j: u32 = (126 - l) / 2;
    let c: u128 = pow2_u128(2 * j);
    assert(pow2(124) <= m * c < pow2(126)) by {
        lemma_bit_length_bounds(m as nat);
        lemma_pow2_pos((2 * j) as nat);
        lemma_pow2_adds(l as nat, (2 * j) as nat);
        lemma_pow2_adds((l - 1) as nat, (2 * j) as nat);
        lemma_pow2_increases((l + 2 * j) as nat, 126);
        lemma_pow2_increases(124, (l - 1 + 2 * j) as nat);
        lemma_mul_strict_inequality(m as int, pow2(l as nat) as int, c as int);
        lemma_mul_inequality(pow2((l - 1) as nat) as int, m as int, c as int);
    }
    proof {
        lemma_pow2_high();
        lemma_root_digits(fmt, m as nat, h as int, j as nat);
    }
    let x: u128 = m * c;
    let n: u64 = isqrt_u128(x);
    assert(n * n < pow2(126) && n < pow2(127)) by {
        lemma_pow2_adds(63, 63);
        lemma_mul_below(n as int, n as int, pow2(63) as int, pow2(63) as int);
        lemma_pow2_increases(63, 127);
    }
    round_pack(fmt, false, n as u128, (h - (j as i32)) as i64, (n as u128) * (n as u128) != x)
}

/// The square root of `a`.
pub fn sqrt(fmt: Format, a: u64) -> (r: u64)
    requires
        fmt.valid(a),
    ensures
        r == root(fmt, a),
        fmt.valid(r),
{
    reveal(root);
    let (na, ma) = fmt.split(a);
    let inf: u64 = fmt.inf_bits();
    if ma > inf {
        return fmt.quiet(a);
    }
    if ma == 0 {
        return a;
    }
    if na {
        return fmt.default_nan_bits();
    }
    if ma == inf {
        return a;
    }
    let (sa, ea) = fmt.decode(ma);
    sqrt_finite(fmt, sa, ea)
}

} // verus!
