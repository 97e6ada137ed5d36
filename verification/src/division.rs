//! The quotient: the significands are divided with so many digits to spare
//! that the remainder only says whether the quotient is exact.
use crate::arith::{quot, quotient_digits};
use crate::format::Format;
use crate::power::{
    bit_length_u128, lemma_bit_length_bounds, lemma_bit_length_le, lemma_bit_length_shift,
    lemma_pow2_high, lemma_pow2_increases, pow2_u128,
};
use crate::rounding::{lemma_round_sticky, round_mag, round_pack};
use vstd::arithmetic::div_mod::*;
use vstd::arithmetic::mul::*;
use vstd::arithmetic::power2::*;
use vstd::prelude::*;

verus! {

/// A quotient carried to fewer digits rounds as one carried to more, as
/// long as more than `precision` digits are there.
proof fn lemma_quot_digits(fmt: Format, sa: nat, sb: nat, e: int, t: nat)
    requires
        0 < sa,
        0 < sb < 2 * fmt.hidden(),
        t <= quotient_digits(),
        sa * pow2(t) >= pow2(126),
    ensures
        round_mag(
            fmt,
            (sa * pow2(quotient_digits())) / sb,
            e - quotient_digits(),
            (sa * pow2(quotient_digits())) % sb != 0,
        ) == round_mag(fmt, (sa * pow2(t)) / sb, e - t, (sa * pow2(t)) % sb != 0),
{
    fmt.lemma_constants();
    lemma2_to64();
    lemma2_to64_rest();
    let big = quotient_digits();
    let k = (big - t) as nat;
    let c = pow2(k);
    let nt = sa * pow2(t);
    let nk = sa * pow2(big);
    lemma_pow2_pos(k);
    lemma_pow2_adds(t, k);
    lemma_mul_is_associative(sa as int, pow2(t) as int, c as int);
    assert(nk == nt * c);
    let qk = nk / sb;
    let qt = nt / sb;
    // qk / c == qt
    lemma_mul_nonnegative(nt as int, c as int);
    lemma_div_denominator(nk as int, sb as int, c as int);
    lemma_mul_is_commutative(nt as int, c as int);
    lemma_mul_is_commutative(sb as int, c as int);
    lemma_div_multiples_vanish_quotient(c as int, nt as int, sb as int);
    assert(qk / c == qt);
    // the two remainders vanish together
    lemma_fundamental_div_mod(nk as int, sb as int);
    lemma_fundamental_div_mod(nt as int, sb as int);
    lemma_fundamental_div_mod(qk as int, c as int);
    lemma_mod_bound(nk as int, sb as int);
    lemma_mod_bound(nt as int, sb as int);
    lemma_mod_bound(qk as int, c as int);
    lemma_remainders_vanish(
        sb as int,
        c as int,
        qt as int,
        (qk % c) as int,
        (nk % sb) as int,
        (nt % sb) as int,
        qk as int,
        nk as int,
        nt as int,
    );
    // qt has more than `precision` digits
    let p = fmt.precision();
    lemma_pow2_adds(p, p);
    lemma_pow2_increases(2 * p, 126);
    lemma_mul_strict_inequality(sb as int, pow2(p) as int, pow2(p) as int);
    lemma_mul_is_commutative(sb as int, pow2(p) as int);
    lemma_div_is_ordered((pow2(p) * sb) as int, nt as int, sb as int);
    lemma_div_multiples_vanish(pow2(p) as int, sb as int);
    assert(qt >= pow2(p));
    lemma_bit_length_le(qt, p);
    lemma_mul_inequality(1, qt as int, c as int);
    lemma_mul_is_commutative(qt as int, c as int);
    assert(qk >= c);
    lemma_bit_length_shift(qk, k);
    lemma_round_sticky(fmt, qk, e - big, k, nk % sb != 0);
}

/// From `nk == nt * c`, divided by `sb` and the quotient by `c`: the
/// remainder of `nt` is zero exactly when both of the others are.
proof fn lemma_remainders_vanish(
    sb: int,
    c: int,
    qt: int,
    r: int,
    rk: int,
    rt: int,
    qk: int,
    nk: int,
    nt: int,
)
    by (nonlinear_arith)
    requires
        sb > 0,
        c > 0,
        r >= 0,
        rk >= 0,
        rt >= 0,
        nk == nt * c,
        nk == sb * qk + rk,
        nt == sb * qt + rt,
        qk == c * qt + r,
    ensures
        (rt == 0) == (r == 0 && rk == 0),
{
    assert(nt * c == sb * qt * c + rt * c);
    assert(sb * qk == sb * c * qt + sb * r);
    assert(rt * c == sb * r + rk);
}

/// `a / b`.
pub fn over(fmt: Format, a: u64, b: u64) -> (r: u64)
    requires
        fmt.valid(a),
        fmt.valid(b),
    ensures
        r == quot(fmt, a, b),
        fmt.valid(r),
{
    reveal(quot);
    let (na, ma) = fmt.split(a);
    let (nb, mb) = fmt.split(b);
    let negative = na != nb;
    let inf: u64 = fmt.inf_bits();
    if ma > inf {
        return fmt.quiet(a);
    }
    if mb > inf {
        return fmt.quiet(b);
    }
    if ma == inf {
        if mb == inf {
            return fmt.default_nan_bits();
        }
        return fmt.join(negative, inf);
    }
    if mb == inf {
        return fmt.join(negative, 0);
    }
    if mb == 0 {
        if ma == 0 {
            return fmt.default_nan_bits();
        }
        return fmt.join(negative, inf);
    }
    let (sa, ea) = fmt.decode(ma);
    let (sb, eb) = fmt.decode(mb);
    proof {
        fmt.lemma_constants();
        lemma2_to64();
        lemma2_to64_rest();
    }
    if sa == 0 {
        proof {
            lemma_mul_basics(pow2(quotient_digits()) as int);
        }
        return fmt.join(negative, 0);
    }
    let l: u32 = bit_length_u128(sa as u128);
    proof {
        lemma_bit_length_bounds(sa as nat);
        lemma_bit_length_le(sa as nat, 53);
    }
    let t: u32 = 127 - l;
    let c: u128 = pow2_u128(t);
    proof {
        lemma_pow2_high();
        lemma_pow2_pos(t as nat);
        lemma_pow2_adds(l as nat, t as nat);
        lemma_pow2_adds((l - 1) as nat, t as nat);
        lemma_mul_strict_inequality(sa as int, pow2(l as nat) as int, c as int);
        lemma_mul_inequality(pow2((l - 1) as nat) as int, sa as int, c as int);
        lemma_quot_digits(fmt, sa as nat, sb as nat, ea - eb, t as nat);
    }
    let num: u128 = (sa as u128) * c;
    let q: u128 = num / (sb as u128);
    let rem: u128 = num % (sb as u128);
    round_pack(fmt, negative, q, (ea - eb - (t as i32)) as i64, rem != 0)
}

} // verus!
