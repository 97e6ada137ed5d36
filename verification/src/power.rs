//! Powers of two and binary digit counts; the arithmetic that every other
//! module of the crate is stated in.
use vstd::arithmetic::div_mod::*;
use vstd::arithmetic::mul::*;
use vstd::arithmetic::power2::*;
use vstd::bits::*;
use vstd::prelude::*;

verus! {

/// Number of binary digits of `n`: 0 for 0, and `floor(log2 n) + 1` otherwise.
pub open spec fn bit_length(n: nat) -> nat
    decreases n,
{
    if n == 0 {
        0
    } else {
        1 + bit_length(n / 2)
    }
}

/// A positive `n` lies in `[2^(L-1), 2^L)` for `L = bit_length(n)`.
pub proof fn lemma_bit_length_bounds(n: nat)
    requires
        n > 0,
    ensures
        bit_length(n) >= 1,
        pow2((bit_length(n) - 1) as nat) <= n < pow2(bit_length(n)),
    decreases n,
{
    lemma2_to64();
    if n == 1 {
        assert(bit_length(1) == 1 + bit_length(0));
    } else {
        let h = n / 2;
        lemma_bit_length_bounds(h);
        let l = bit_length(h);
        lemma_pow2_unfold(l);
        lemma_pow2_unfold(l + 1);
        assert(bit_length(n) == l + 1);
    }
}

/// The interval `[2^(l-1), 2^l)` determines the digit count.
pub proof fn lemma_bit_length_unique(n: nat, l: nat)
    requires
        l >= 1,
        pow2((l - 1) as nat) <= n < pow2(l),
    ensures
        bit_length(n) == l,
{
    lemma_pow2_pos((l - 1) as nat);
    lemma_bit_length_bounds(n);
    let k = bit_length(n);
    if k < l {
        lemma_pow2_increases(k, (l - 1) as nat);
    } else if k > l {
        lemma_pow2_increases(l, (k - 1) as nat);
    }
}

/// `2^a <= 2^b` whenever `a <= b`.
pub proof fn lemma_pow2_increases(a: nat, b: nat)
    requires
        a <= b,
    ensures
        pow2(a) <= pow2(b),
{
    if a < b {
        lemma_pow2_strictly_increases(a, b);
    }
}

/// `n < 2^l` exactly when `n` has at most `l` binary digits.
pub proof fn lemma_bit_length_le(n: nat, l: nat)
    ensures
        n < pow2(l) <==> bit_length(n) <= l,
{
    lemma_pow2_pos(l);
    if n > 0 {
        lemma_bit_length_bounds(n);
        let k = bit_length(n);
        if k <= l {
            lemma_pow2_increases(k, l);
        } else {
            lemma_pow2_increases(l, (k - 1) as nat);
        }
    }
}

/// Multiplying by `2^k` appends `k` digits.
pub proof fn lemma_bit_length_scale(n: nat, k: nat)
    requires
        n > 0,
    ensures
        n * pow2(k) > 0,
        bit_length(n * pow2(k)) == bit_length(n) + k,
{
    lemma_bit_length_bounds(n);
    let l = bit_length(n);
    lemma_pow2_adds((l - 1) as nat, k);
    lemma_pow2_adds(l, k);
    lemma_pow2_pos(k);
    lemma_mul_inequality(pow2((l - 1) as nat) as int, n as int, pow2(k) as int);
    lemma_mul_strict_inequality(n as int, pow2(l) as int, pow2(k) as int);
    lemma_pow2_pos((l - 1 + k) as nat);
    lemma_bit_length_unique(n * pow2(k), l + k);
}

/// Dividing by `2^k` drops `k` digits, as long as any are left.
pub proof fn lemma_bit_length_shift(n: nat, k: nat)
    requires
        n >= pow2(k),
    ensures
        n / pow2(k) > 0,
        bit_length(n) == bit_length(n / pow2(k)) + k,
{
    lemma_pow2_pos(k);
    let d = pow2(k);
    let m = n / d;
    lemma_fundamental_div_mod(n as int, d as int);
    lemma_mod_bound(n as int, d as int);
    if m == 0 {
        lemma_mul_basics(d as int);
    }
    lemma_bit_length_bounds(m);
    let l = bit_length(m);
    lemma_pow2_adds((l - 1) as nat, k);
    lemma_pow2_adds(l, k);
    // 2^(l-1) * d <= m * d <= n < (m + 1) * d <= 2^l * d
    lemma_mul_inequality(pow2((l - 1) as nat) as int, m as int, d as int);
    lemma_mul_inequality((m + 1) as int, pow2(l) as int, d as int);
    lemma_mul_is_distributive_add_other_way(d as int, m as int, 1);
    lemma_mul_is_commutative(d as int, m as int);
    lemma_bit_length_unique(n, l + k);
}

/// The powers of two at the top of a `u128`.
pub proof fn lemma_pow2_high()
    ensures
        pow2(126) == 0x4000_0000_0000_0000_0000_0000_0000_0000,
        pow2(127) == 0x8000_0000_0000_0000_0000_0000_0000_0000,
        pow2(128) == 0x1_0000_0000_0000_0000_0000_0000_0000_0000,
{
    lemma2_to64();
    lemma2_to64_rest();
    lemma_pow2_adds(62, 64);
    lemma_pow2_adds(63, 64);
    lemma_pow2_adds(64, 64);
}

/// Clearing the digits of `m` below `u` leaves the digits from `h` up as they
/// are, where `u` divides `h`; and below `h` it clears the same digits.
pub proof fn lemma_clear_low_digits(m: int, h: int, u: int)
    requires
        0 <= m,
        0 < u,
        0 < h,
        h % u == 0,
    ensures
        m - m % u >= 0,
        (m - m % u) / h == m / h,
        (m - m % u) % h == m % h - (m % h) % u,
{
    let q = m / h;
    let r = m % h;
    let t = h / u;
    lemma_fundamental_div_mod(m, h);
    lemma_mod_bound(m, h);
    lemma_fundamental_div_mod(h, u);
    lemma_mod_bound(r, u);
    lemma_mod_bound(m, u);
    // m is a multiple of u, plus r
    assert(h * q == u * (t * q)) by {
        lemma_mul_is_associative(u, t, q);
    }
    lemma_mod_multiples_vanish(t * q, r, u);
    lemma_mul_is_commutative(u, t * q);
    assert(m % u == r % u);
    lemma_mul_is_commutative(h, q);
    lemma_mod_decreases(r as nat, u as nat);
    assert(m - m % u == q * h + (r - r % u));
    lemma_fundamental_div_mod_converse(m - m % u, h, q, r - r % u);
}

/// `2^k` as a `u64`.
pub fn pow2_u64(k: u32) -> (r: u64)
    requires
        k < 64,
    ensures
        r == pow2(k as nat),
{
    proof {
        lemma_u64_pow2_no_overflow(k as nat);
        lemma_u64_shl_is_mul(1u64, k as u64);
    }
    1u64 << (k as u64)
}

/// `2^k` as a `u128`.
pub fn pow2_u128(k: u32) -> (r: u128)
    requires
        k < 128,
    ensures
        r == pow2(k as nat),
{
    if k < 64 {
        pow2_u64(k) as u128
    } else {
        let low: u64 = pow2_u64(k - 64);
        proof {
            lemma2_to64();
            lemma_pow2_adds((k - 64) as nat, 64);
            lemma_u64_pow2_no_overflow((k - 64) as nat);
        }
        (low as u128) * 0x1_0000_0000_0000_0000u128
    }
}

/// The digit count of a `u128`.
pub fn bit_length_u128(n: u128) -> (r: u32)
    ensures
        r == bit_length(n as nat),
        r <= 128,
{
    let mut m: u128 = n;
    let mut l: u32 = 0;
    let mut step: u32 = 64;
    proof {
        lemma2_to64();
        lemma_pow2_adds(64, 64);
    }
    while step > 0
        invariant
            bit_length(n as nat) == l + bit_length(m as nat),
            step == 64 || step == 32 || step == 16 || step == 8 || step == 4 || step == 2 || step
                == 1 || step == 0,
            step > 0 ==> l + 2 * step <= 128 && m < pow2((2 * step) as nat),
            step == 0 ==> l <= 127 && m <= 1,
        decreases step,
    {
        let d: u128 = pow2_u128(step);
        if m >= d {
            proof {
                lemma_bit_length_shift(m as nat, step as nat);
                lemma_pow2_adds(step as nat, step as nat);
                lemma_pow2_pos(step as nat);
                lemma_fundamental_div_mod(m as int, d as int);
                lemma_mod_bound(m as int, d as int);
                lemma_mul_is_commutative(d as int, (m / d) as int);
                if m / d >= d {
                    lemma_mul_inequality(d as int, (m / d) as int, d as int);
                }
                assert(pow2((2 * step) as nat) == d * d);
                assert(m / d < d);
            }
            m = m / d;
            l = l + step;
        }
        assert(m < pow2(step as nat));
        assert(2 * (step / 2) == step || step == 1);
        proof {
            lemma2_to64();
        }
        step = step / 2;
    }
    proof {
        assert(bit_length(0) == 0);
        assert(bit_length(1) == 1 + bit_length(0));
        assert(m == 0 || m == 1);
    }
    if m > 0 {
        l = l + 1;
    }
    l
}

} // verus!
