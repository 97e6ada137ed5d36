//! Rounding to nearest, ties to even: from an exact magnitude `n * 2^e` to
//! the magnitude pattern of a format.
use crate::format::Format;
use crate::power::{
    bit_length, bit_length_u128, lemma_bit_length_bounds, lemma_bit_length_le,
    lemma_bit_length_scale, lemma_bit_length_shift, lemma_bit_length_unique, lemma_pow2_increases,
    pow2_u128, pow2_u64,
};
use vstd::arithmetic::div_mod::*;
use vstd::arithmetic::mul::*;
use vstd::arithmetic::power2::*;
use vstd::prelude::*;

verus! {

/// Exponent at which `n * 2^e` is rounded: the one that leaves `precision`
/// digits of `n`, but never below the format's least exponent.
pub open spec fn quantum(fmt: Format, n: nat, e: int) -> int {
    let q = e + bit_length(n) - fmt.precision();
    if q < fmt.min_exponent() {
        fmt.min_exponent()
    } else {
        q
    }
}

/// Magnitude pattern of `sig * 2^q`, for `sig <= 2^precision`; a number
/// beyond the largest finite one becomes infinity.
pub open spec fn encode(fmt: Format, q: int, sig: nat) -> nat {
    let m = (q - fmt.min_exponent()) * fmt.hidden() + sig;
    if m >= fmt.inf() {
        fmt.inf()
    } else {
        m as nat
    }
}

/// Whether a discarded part `rem`, out of `2 * half`, rounds the kept part
/// up. `inexact` says that the true discarded part is a little more than `rem`.
pub open spec fn rounds_up(rem: nat, half: nat, odd: bool, inexact: bool) -> bool {
    rem > half || (rem == half && (inexact || odd))
}

/// The magnitude pattern nearest to `n * 2^e`, ties going to the even
/// significand.
///
/// With `inexact` the number rounded is not `n * 2^e` itself but some number
/// strictly between it and `(n + 1) * 2^e`; this has a meaning only where
/// `n > 0` and `quantum(fmt, n, e) > e`, and every such number then rounds alike.
pub open spec fn round_mag(fmt: Format, n: nat, e: int, inexact: bool) -> nat {
    if n == 0 {
        0
    } else {
        let q = quantum(fmt, n, e);
        if q <= e {
            encode(fmt, q, n * pow2((e - q) as nat))
        } else {
            let d = pow2((q - e) as nat);
            let sig = n / d;
            if rounds_up(n % d, d / 2, sig % 2 == 1, inexact) {
                encode(fmt, q, sig + 1)
            } else {
                encode(fmt, q, sig)
            }
        }
    }
}

/// The pattern of `(-1)^negative * n * 2^e`, rounded.
pub open spec fn round(fmt: Format, negative: bool, n: nat, e: int, inexact: bool) -> u64 {
    fmt.with_sign(negative, round_mag(fmt, n, e, inexact)) as u64
}

/// An encoded magnitude is a finite pattern or infinity.
pub proof fn lemma_encode_bound(fmt: Format, q: int, sig: nat)
    requires
        q >= fmt.min_exponent(),
    ensures
        encode(fmt, q, sig) <= fmt.inf(),
        encode(fmt, q, sig) == (q - fmt.min_exponent()) * fmt.hidden() + sig || encode(fmt, q, sig)
            == fmt.inf(),
{
    lemma_mul_nonnegative(q - fmt.min_exponent(), fmt.hidden() as int);
}

/// A rounded number is a pattern of the format with the sign it was given,
/// and no NaN.
pub proof fn lemma_round_valid(fmt: Format, negative: bool, n: nat, e: int, inexact: bool)
    ensures
        round_mag(fmt, n, e, inexact) <= fmt.inf(),
        fmt.valid(round(fmt, negative, n, e, inexact)),
        fmt.negative(round(fmt, negative, n, e, inexact)) == negative,
        fmt.magnitude(round(fmt, negative, n, e, inexact)) == round_mag(fmt, n, e, inexact),
        !fmt.is_nan(round(fmt, negative, n, e, inexact)),
{
    if n > 0 {
        let q = quantum(fmt, n, e);
        if q <= e {
            lemma_encode_bound(fmt, q, n * pow2((e - q) as nat));
        } else {
            let d = pow2((q - e) as nat);
            lemma_encode_bound(fmt, q, n / d);
            lemma_encode_bound(fmt, q, n / d + 1);
        }
    }
}

/// The sign only sets the sign bit of a rounded number.
pub proof fn lemma_round_sign(fmt: Format, n: nat, e: int, inexact: bool)
    ensures
        round(fmt, true, n, e, inexact) == round(fmt, false, n, e, inexact) + fmt.sign_bit(),
{
    lemma_round_valid(fmt, false, n, e, inexact);
    lemma_round_valid(fmt, true, n, e, inexact);
}

/// Rounding is exact on what the format holds: the significand and exponent
/// of a finite magnitude pattern round back to that pattern.
pub proof fn lemma_round_exact(fmt: Format, mag: nat)
    requires
        mag < fmt.inf(),
    ensures
        round_mag(fmt, fmt.significand(mag), fmt.exponent(mag), false) == mag,
{
    fmt.lemma_constants();
    lemma2_to64();
    let h = fmt.hidden();
    let n = fmt.significand(mag);
    let e = fmt.exponent(mag);
    if mag == 0 {
    } else if mag < h {
        lemma_bit_length_le(n, fmt.frac_bits());
        assert(quantum(fmt, n, e) == e);
        lemma_mul_basics(n as int);
        lemma_mul_basics(h as int);
    } else {
        let field = mag / h;
        lemma_fundamental_div_mod(mag as int, h as int);
        lemma_mod_bound(mag as int, h as int);
        lemma_bit_length_unique(n, fmt.precision());
        assert(quantum(fmt, n, e) == e);
        lemma_mul_basics(n as int);
        assert((e - fmt.min_exponent()) * h + n == mag) by {
            lemma_mul_is_distributive_sub_other_way(h as int, field as int, 1);
            lemma_mul_is_commutative(h as int, field as int);
        }
    }
}

/// How `c * a + s` compares with `c * b`, for a part `s` below `c`.
proof fn lemma_compare_scaled(c: int, a: int, b: int, s: int)
    by (nonlinear_arith)
    requires
        c > 0,
        0 <= s < c,
    ensures
        (c * a + s > c * b) == (a > b || (a == b && s > 0)),
        (c * a + s == c * b) == (a == b && s == 0),
{
}

/// Writing the same number with `k` more digits does not change how it rounds:
/// `(n * 2^k) * 2^(e - k)` is `n * 2^e`.
pub proof fn lemma_round_scale(fmt: Format, n: nat, e: int, k: nat)
    ensures
        round_mag(fmt, n * pow2(k), e - k, false) == round_mag(fmt, n, e, false),
{
    lemma_pow2_pos(k);
    if n == 0 {
        lemma_mul_basics(pow2(k) as int);
    } else {
        lemma_bit_length_scale(n, k);
        let m = n * pow2(k);
        let q = quantum(fmt, n, e);
        assert(quantum(fmt, m, e - k) == q);
        if q <= e - k {
            let j = (e - k - q) as nat;
            lemma_pow2_adds(k, j);
            lemma_mul_is_associative(n as int, pow2(k) as int, pow2(j) as int);
            assert(m * pow2(j) == n * pow2((e - q) as nat));
        } else if q <= e {
            // the k added digits are zero, and the quantum lies among them
            let j = (e - q) as nat;
            let i = (q - (e - k)) as nat;
            let d = pow2(i);
            lemma_pow2_adds(j, i);
            lemma_pow2_pos(i);
            lemma_pow2_unfold(i);
            lemma_mul_is_associative(n as int, pow2(j) as int, d as int);
            let kept = n * pow2(j);
            assert(m == kept * d);
            lemma_fundamental_div_mod_converse(m as int, d as int, kept as int, 0);
            assert(!rounds_up(m % d, d / 2, (m / d) % 2 == 1, false));
        } else {
            let i = (q - e) as nat;
            let d = pow2(i);
            let c = pow2(k);
            lemma_pow2_adds(k, i);
            lemma_pow2_pos(i);
            lemma_pow2_unfold(i);
            lemma_pow2_unfold(k + i);
            let dd = pow2(k + i);
            assert(dd == c * d);
            lemma_mul_is_commutative(n as int, c as int);
            lemma_div_multiples_vanish_quotient(c as int, n as int, d as int);
            lemma_truncate_middle(n as int, c as int, d as int);
            assert(m / dd == n / d);
            assert(m % dd == c * (n % d));
            assert(dd / 2 == c * (d / 2)) by {
                lemma_mul_is_associative(c as int, 2, (d / 2) as int);
                lemma_mul_is_commutative(c as int, 2);
                lemma_mul_is_associative(2, c as int, (d / 2) as int);
            }
            lemma_compare_scaled(c as int, (n % d) as int, (d / 2) as int, 0);
        }
    }
}

/// Digits far below the quantum count only by whether any of them is set:
/// the last `k` digits of `n` may be cut off and remembered as `inexact`.
pub proof fn lemma_round_sticky(fmt: Format, n: nat, e: int, k: nat, inexact: bool)
    requires
        n >= pow2(k),
        quantum(fmt, n, e) > e + k,
    ensures
        n / pow2(k) > 0,
        quantum(fmt, n / pow2(k), e + k) == quantum(fmt, n, e),
        round_mag(fmt, n, e, inexact) == round_mag(
            fmt,
            n / pow2(k),
            e + k,
            inexact || n % pow2(k) != 0,
        ),
{
    let c = pow2(k);
    let m = n / c;
    let s = n % c;
    lemma_pow2_pos(k);
    lemma_bit_length_shift(n, k);
    let q = quantum(fmt, n, e);
    assert(quantum(fmt, m, e + k) == q);
    let i = (q - e - k) as nat;
    let dd = pow2((q - e) as nat);
    let d = pow2(i);
    lemma_pow2_adds(k, i);
    lemma_pow2_pos(i);
    lemma_pow2_unfold(i);
    lemma_pow2_unfold(k + i);
    assert(dd == c * d);
    lemma_div_denominator(n as int, c as int, d as int);
    lemma_breakdown(n as int, c as int, d as int);
    lemma_mod_bound(n as int, c as int);
    assert(n / dd == m / d);
    assert(n % dd == c * (m % d) + s);
    assert(dd / 2 == c * (d / 2)) by {
        lemma_mul_is_associative(c as int, 2, (d / 2) as int);
        lemma_mul_is_commutative(c as int, 2);
        lemma_mul_is_associative(2, c as int, (d / 2) as int);
    }
    lemma_compare_scaled(c as int, (m % d) as int, (d / 2) as int, s as int);
}

/// `n / 2^k < 2^(l - k)` for `n < 2^l`.
proof fn lemma_div_pow2_bound(n: nat, l: nat, k: nat)
    requires
        n < pow2(l),
        k <= l,
    ensures
        n / pow2(k) < pow2((l - k) as nat),
{
    lemma_pow2_pos(k);
    lemma_pow2_adds((l - k) as nat, k);
    lemma_multiply_divide_lt(n as int, pow2(k) as int, pow2((l - k) as nat) as int);
}

/// The pattern of `(-1)^negative * sig * 2^q`.
fn pack(fmt: Format, negative: bool, q: i64, sig: u64) -> (r: u64)
    requires
        fmt.min_exponent() <= q <= 0x4_0000_0000,
        sig <= 2 * fmt.hidden(),
    ensures
        r == fmt.with_sign(negative, encode(fmt, q as int, sig as nat)),
        fmt.valid(r),
        fmt.negative(r) == negative,
        fmt.magnitude(r) == encode(fmt, q as int, sig as nat),
        fmt.magnitude(r) <= fmt.inf(),
{
    let h: u64 = fmt.hidden_bits();
    let steps: i64 = q - fmt.min_exponent_value() as i64;
    let top: i64 = fmt.max_field_value() as i64;
    proof {
        fmt.lemma_constants();
    }
    if steps >= top {
        proof {
            lemma_mul_inequality(top as int, steps as int, h as int);
        }
        return fmt.join(negative, fmt.inf_bits());
    }
    proof {
        lemma_mul_inequality(steps as int, top as int - 1, h as int);
        lemma_mul_is_distributive_sub_other_way(h as int, top as int, 1);
        lemma_mul_nonnegative(steps as int, h as int);
    }
    let m: u64 = (steps as u64) * h + sig;
    if m >= fmt.inf_bits() {
        fmt.join(negative, fmt.inf_bits())
    } else {
        fmt.join(negative, m)
    }
}

/// What is kept of `n` at a quantum `sh` digits up, rounded.
fn kept_digits(n: u128, sh: u32, inexact: bool, p: u32) -> (r: u64)
    requires
        0 < n < pow2((p + sh) as nat),
        1 <= sh < 128,
        p <= 53,
    ensures
        r == if rounds_up(
            n as nat % pow2(sh as nat),
            pow2(sh as nat) / 2,
            (n as nat / pow2(sh as nat)) % 2 == 1,
            inexact,
        ) {
            n as nat / pow2(sh as nat) + 1
        } else {
            n as nat / pow2(sh as nat)
        },
        r <= pow2(p as nat),
{
    let d: u128 = pow2_u128(sh);
    proof {
        lemma2_to64_rest();
        lemma_pow2_pos(sh as nat);
        lemma_pow2_increases(p as nat, 53);
        lemma_div_pow2_bound(n as nat, (p + sh) as nat, sh as nat);
    }
    let kept: u128 = n / d;
    let rem: u128 = n % d;
    let half: u128 = d / 2;
    if rem > half || (rem == half && (inexact || kept % 2 == 1)) {
        (kept as u64) + 1
    } else {
        kept as u64
    }
}

/// Rounds `(-1)^negative * n * 2^e` to a pattern of `fmt`.
pub(crate) fn round_pack(fmt: Format, negative: bool, n: u128, e: i64, inexact: bool) -> (r: u64)
    requires
        n < pow2(127),
        -0x2_0000_0000 <= e <= 0x2_0000_0000,
    ensures
        r == round(fmt, negative, n as nat, e as int, inexact),
        fmt.valid(r),
        fmt.negative(r) == negative,
        fmt.magnitude(r) == round_mag(fmt, n as nat, e as int, inexact),
        !fmt.is_nan(r),
{
    if n == 0 {
        return fmt.join(negative, 0);
    }
    let l: i64 = bit_length_u128(n) as i64;
    let p: i64 = fmt.precision_bits() as i64;
    let qmin: i64 = fmt.min_exponent_value() as i64;
    proof {
        fmt.lemma_constants();
        lemma_bit_length_bounds(n as nat);
        lemma_bit_length_le(n as nat, 127);
    }
    let q: i64 = if e + l - p < qmin {
        qmin
    } else {
        e + l - p
    };
    assert(q == quantum(fmt, n as nat, e as int));
    if q <= e {
        let k: u32 = (e - q) as u32;
        let scale: u64 = pow2_u64(k);
        proof {
            assert(n * scale < pow2(p as nat) && pow2(p as nat) <= 0x20_0000_0000_0000) by {
                lemma2_to64();
                lemma2_to64_rest();
                lemma_pow2_adds(l as nat, k as nat);
                lemma_pow2_increases((l + k) as nat, p as nat);
                lemma_pow2_pos(k as nat);
                lemma_mul_strict_inequality(n as int, pow2(l as nat) as int, scale as int);
            }
            assert(n < 0x20_0000_0000_0000) by {
                lemma_pow2_pos(k as nat);
                lemma_mul_inequality(1, scale as int, n as int);
                lemma_mul_is_commutative(n as int, scale as int);
            }
        }
        pack(fmt, negative, q, (n as u64) * scale)
    } else {
        let sh: i64 = q - e;
        if sh >= 128 {
            proof {
                let d = pow2(sh as nat);
                lemma_pow2_unfold(sh as nat);
                lemma_pow2_increases(127, (sh - 1) as nat);
                lemma_basic_div(n as int, d as int);
                lemma_small_mod(n as nat, d);
                assert(q == qmin);
                assert(d / 2 == pow2((sh - 1) as nat));
                assert(encode(fmt, q as int, 0) == 0) by {
                    lemma_mul_basics(fmt.hidden() as int);
                }
            }
            return fmt.join(negative, 0);
        }
        proof {
            lemma_pow2_increases(l as nat, (p + sh) as nat);
        }
        let sig: u64 = kept_digits(n, sh as u32, inexact, p as u32);
        pack(fmt, negative, q, sig)
    }
}

} // verus!
