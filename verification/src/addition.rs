//! The sum and the difference.
//!
//! Terms whose exponents are at most 64 apart are added exactly and rounded.
//! Farther apart, the small term cannot reach the last digit of the large
//! one: it only says on which side of the large term the sum lies.
use crate::arith::{diff, signed, sum, sum_finite};
use crate::format::Format;
use crate::power::{lemma_bit_length_le, lemma_pow2_high, lemma_pow2_increases, pow2_u128};
use crate::rounding::{
    lemma_round_sign, lemma_round_sticky, lemma_round_valid, quantum, round, round_pack,
};
use vstd::arithmetic::div_mod::*;
use vstd::arithmetic::mul::*;
use vstd::arithmetic::power2::*;
use vstd::prelude::*;

verus! {

/// The far-apart case of a sum: next to `hs * 2^d` a nonzero `ls` below
/// `2^(d - 2)` only tips the rounding.
proof fn lemma_sum_far(fmt: Format, hs: nat, ls: nat, d: nat, le: int, same: bool)
    requires
        fmt.hidden() <= hs < 2 * fmt.hidden(),
        ls < 2 * fmt.hidden(),
        d > 64,
    ensures
        hs * pow2(d) > ls,
        same ==> round(fmt, false, hs * pow2(d) + ls, le, false) == round(
            fmt,
            false,
            4 * hs,
            le + d - 2,
            ls != 0,
        ),
        !same && ls != 0 ==> round(fmt, false, (hs * pow2(d) - ls) as nat, le, false) == round(
            fmt,
            false,
            (4 * hs - 1) as nat,
            le + d - 2,
            true,
        ),
{
    fmt.lemma_constants();
    lemma2_to64();
    lemma2_to64_rest();
    let h4: int = (4 * hs) as int;
    let k = (d - 2) as nat;
    let c = pow2(k);
    lemma_pow2_adds(2, k);
    lemma_pow2_increases(54, k);
    lemma_pow2_pos(k);
    assert(pow2(d) == 4 * c);
    assert(ls < c);
    lemma_mul_is_associative(hs as int, 4, c as int);
    assert(hs * pow2(d) == h4 * c);
    lemma_mul_inequality(1, h4, c as int);
    let p = fmt.precision();
    // 2^(p + 1) * c <= 4 * hs * c
    lemma_mul_inequality(pow2(p + 1) as int, h4, c as int);
    lemma_pow2_unfold(p + 1);
    lemma_pow2_adds(p + 1, k);
    lemma_pow2_adds(p, k);
    lemma_pow2_unfold(p + k + 1);
    if same {
        let n = hs * pow2(d) + ls;
        lemma_fundamental_div_mod_converse(n as int, c as int, h4, ls as int);
        lemma_bit_length_le(n, p + k);
        assert(quantum(fmt, n, le) > le + k);
        lemma_round_sticky(fmt, n, le, k, false);
    } else if ls != 0 {
        let n = (hs * pow2(d) - ls) as nat;
        lemma_mul_is_distributive_sub_other_way(c as int, h4, 1);
        assert(n == (h4 - 1) * c + (c - ls));
        lemma_fundamental_div_mod_converse(n as int, c as int, h4 - 1, c - ls);
        lemma_mul_inequality(pow2(p) as int, h4 - 1, c as int);
        lemma_bit_length_le(n, p + k);
        assert(quantum(fmt, n, le) > le + k);
        lemma_round_sticky(fmt, n, le, k, false);
    }
}

/// The sum of two finite numbers whose exponents are at most 64 apart, the
/// one with the larger exponent first: the terms are added exactly.
fn plus_near(fmt: Format, hn: bool, hs: u64, he: i32, ln: bool, ls: u64, le: i32) -> (r: u64)
    requires
        hs < 2 * fmt.hidden(),
        ls < 2 * fmt.hidden(),
        -0x10000 <= le <= he <= 0x10000,
        he - le <= 64,
    ensures
        r == sum_finite(fmt, hn, hs as nat, he as int, ln, ls as nat, le as int),
        fmt.valid(r),
{
    let d: i32 = he - le;
    let c: u128 = pow2_u128(d as u32);
    proof {
        lemma_pow2_high();
        assert(hs * c < pow2(126) && ls < pow2(126) && hs * c >= 0) by {
            fmt.lemma_constants();
            lemma2_to64();
            lemma2_to64_rest();
            lemma_pow2_high();
            lemma_pow2_adds(53, 64);
            lemma_pow2_increases(d as nat, 64);
            lemma_pow2_strictly_increases(117, 126);
            lemma_mul_upper_bound(hs as int, pow2(53) as int, c as int, pow2(64) as int);
            lemma_mul_nonnegative(hs as int, c as int);
        }
        assert(ls * pow2(0) == ls) by {
            lemma2_to64();
            lemma_mul_basics(ls as int);
        }
    }
    let x: u128 = (hs as u128) * c;
    let y: u128 = ls as u128;
    let ghost t = signed(hn, (hs * pow2(d as nat)) as nat) + signed(ln, (ls * pow2(0)) as nat);
    if hn == ln {
        proof {
            assert(t == signed(hn, (x + y) as nat));
            lemma_round_valid(fmt, hn, 0, le as int, false);
        }
        round_pack(fmt, hn, x + y, le as i64, false)
    } else if x > y {
        proof {
            assert(t == signed(hn, (x - y) as nat));
        }
        round_pack(fmt, hn, x - y, le as i64, false)
    } else if x < y {
        proof {
            assert(t == signed(ln, (y - x) as nat));
        }
        round_pack(fmt, ln, y - x, le as i64, false)
    } else {
        proof {
            assert(t == 0);
        }
        fmt.join(false, 0)
    }
}

/// The sum of two finite numbers whose exponents are more than 64 apart,
/// the one with the larger exponent first: the small term only tips the
/// rounding of the large one.
fn plus_far(fmt: Format, hn: bool, hs: u64, he: i32, ln: bool, ls: u64, le: i32) -> (r: u64)
    requires
        fmt.hidden() <= hs < 2 * fmt.hidden(),
        ls < 2 * fmt.hidden(),
        -0x10000 <= le <= he <= 0x10000,
        he - le > 64,
    ensures
        r == sum_finite(fmt, hn, hs as nat, he as int, ln, ls as nat, le as int),
        fmt.valid(r),
{
    let ghost d = (he - le) as nat;
    let ghost big = hs * pow2(d);
    let ghost t = signed(hn, big as nat) + signed(ln, (ls * pow2(0)) as nat);
    proof {
        assert(ls * pow2(0) == ls) by {
            lemma2_to64();
            lemma_mul_basics(ls as int);
        }
        assert(4 * hs < pow2(127)) by {
            fmt.lemma_constants();
            lemma2_to64();
            lemma2_to64_rest();
            lemma_pow2_high();
        }
        lemma_sum_far(fmt, hs as nat, ls as nat, d, le as int, hn == ln);
        lemma_sum_far(fmt, hs as nat, 0, d, le as int, true);
        assert(big > ls);
        if hn == ln {
            assert(t == signed(hn, (big + ls) as nat));
        } else {
            assert(t == signed(hn, (big - ls) as nat));
        }
        lemma_round_sign(fmt, (big + ls) as nat, le as int, false);
        lemma_round_sign(fmt, (big - ls) as nat, le as int, false);
        lemma_round_sign(fmt, (4 * hs) as nat, le + d - 2, ls != 0);
        lemma_round_sign(fmt, (4 * hs - 1) as nat, le + d - 2, true);
    }
    if hn == ln || ls == 0 {
        round_pack(fmt, hn, (hs as u128) * 4, (he - 2) as i64, ls != 0)
    } else {
        round_pack(fmt, hn, (hs as u128) * 4 - 1, (he - 2) as i64, true)
    }
}

/// The sum of two finite numbers, the one with the larger exponent first.
fn plus_ordered(fmt: Format, hn: bool, hs: u64, he: i32, ln: bool, ls: u64, le: i32) -> (r: u64)
    requires
        hs < 2 * fmt.hidden(),
        ls < 2 * fmt.hidden(),
        he > le ==> hs >= fmt.hidden(),
        -0x10000 <= le <= he <= 0x10000,
    ensures
        r == sum_finite(fmt, hn, hs as nat, he as int, ln, ls as nat, le as int),
        fmt.valid(r),
{
    if he - le <= 64 {
        plus_near(fmt, hn, hs, he, ln, ls, le)
    } else {
        plus_far(fmt, hn, hs, he, ln, ls, le)
    }
}

/// The order of the terms does not matter to a sum.
pub proof fn lemma_sum_finite_commutes(
    fmt: Format,
    na: bool,
    sa: nat,
    ea: int,
    nb: bool,
    sb: nat,
    eb: int,
)
    ensures
        sum_finite(fmt, na, sa, ea, nb, sb, eb) == sum_finite(fmt, nb, sb, eb, na, sa, ea),
{
}

/// `a + b`.
pub fn plus(fmt: Format, a: u64, b: u64) -> (r: u64)
    requires
        fmt.valid(a),
        fmt.valid(b),
    ensures
        r == sum(fmt, a, b),
        fmt.valid(r),
{
    reveal(sum);
    let (na, ma) = fmt.split(a);
    let (nb, mb) = fmt.split(b);
    let inf: u64 = fmt.inf_bits();
    if ma > inf {
        return fmt.quiet(a);
    }
    if mb > inf {
        return fmt.quiet(b);
    }
    if ma == inf {
        if mb == inf && na != nb {
            return fmt.default_nan_bits();
        }
        return a;
    }
    if mb == inf {
        return b;
    }
    let (sa, ea) = fmt.decode(ma);
    let (sb, eb) = fmt.decode(mb);
    if ea >= eb {
        plus_ordered(fmt, na, sa, ea, nb, sb, eb)
    } else {
        proof {
            lemma_sum_finite_commutes(fmt, na, sa as nat, ea as int, nb, sb as nat, eb as int);
        }
        plus_ordered(fmt, nb, sb, eb, na, sa, ea)
    }
}

/// `a - b`.
pub fn minus(fmt: Format, a: u64, b: u64) -> (r: u64)
    requires
        fmt.valid(a),
        fmt.valid(b),
    ensures
        r == diff(fmt, a, b),
        fmt.valid(r),
{
    reveal(sum);
    let (na, ma) = fmt.split(a);
    let (nb, mb) = fmt.split(b);
    if ma <= fmt.inf_bits() && mb > fmt.inf_bits() {
        return fmt.quiet(b);
    }
    plus(fmt, a, fmt.join(!nb, mb))
}

} // verus!
