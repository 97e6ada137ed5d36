//! The whole number nearest to a number, from its bit pattern: half a unit is
//! added to the pattern, and what then stands below the units is cut off.
//! Here is why that works, in plain integers.
use vstd::arithmetic::div_mod::*;
use vstd::arithmetic::mul::*;
use vstd::prelude::*;

verus! {

/// `x / t + 1/2` rounded down: the whole number nearest to `x / t`, a half
/// going up.
pub open spec fn nearest_whole(x: int, t: int) -> int {
    (2 * x + t) / (2 * t)
}

/// A fraction field `frac`, out of `full`, under an implicit digit stands
/// for `frac + full`; a unit is `2 * th` of it, and `th * c == full`. Where
/// adding half a unit does not carry into the exponent, the sum holds the
/// nearest whole number above the unit, and cutting off below the unit
/// leaves that number.
pub proof fn lemma_half_added(frac: int, full: int, th: int, c: int)
    requires
        0 <= frac,
        frac + th < full,
        th > 0,
        c >= 2,
        c % 2 == 0,
        th * c == full,
    ensures
        (frac + th + full) / (2 * th) == nearest_whole(frac + full, 2 * th),
        (frac + th) - (frac + th) % (2 * th) + full == nearest_whole(frac + full, 2 * th) * (2
            * th),
        (frac + th) - (frac + th) % (2 * th) >= 0,
        (frac + th) - (frac + th) % (2 * th) < full,
{
    let t = 2 * th;
    let y = frac + th;
    let half_c = c / 2;
    assert(full == t * half_c) by (nonlinear_arith)
        requires
            th * c == full,
            c == 2 * half_c,
            t == 2 * th,
    ;
    // twice the number plus a unit, over two units
    lemma_div_multiples_vanish_quotient(2, y + full, t);
    assert(2 * (y + full) == 2 * (frac + full) + t);
    assert(2 * t == 2 * (2 * th));
    // the whole units of the implicit digit come out of the quotient
    lemma_hoist_over_denominator(y, half_c, t as nat);
    lemma_mul_is_commutative(half_c, t);
    lemma_fundamental_div_mod(y, t);
    lemma_mod_bound(y, t);
    assert((y / t + half_c) * t == (y / t) * t + half_c * t) by (nonlinear_arith);
    lemma_mul_is_commutative(y / t, t);
}

/// Where adding half a unit carries into the exponent, the number is within
/// half a unit below `c` units, and `c` is the nearest whole number: what
/// stands after the carry is less than half a unit.
pub proof fn lemma_half_carried(frac: int, full: int, th: int, c: int)
    requires
        0 <= frac < full,
        frac + th >= full,
        th > 0,
        c >= 1,
        th * c == full,
    ensures
        nearest_whole(frac + full, 2 * th) == c,
        (frac + th) / th == c,
        0 <= frac + th - full < th,
        (frac + th - full) % th == frac + th - full,
{
    let t = 2 * th;
    let rest = frac + th - full;
    assert(0 <= rest < th);
    lemma_small_mod(rest as nat, th as nat);
    // (full + rest) / th == c
    lemma_mul_is_commutative(th, c);
    lemma_fundamental_div_mod_converse(frac + th, th, c, rest);
    // (2 * (frac + full) + t) / (2 * t) == (2 * full + rest) / t == c
    lemma_div_multiples_vanish_quotient(2, frac + full + th, t);
    assert(2 * (frac + full + th) == 2 * (frac + full) + t);
    assert(2 * full == c * t) by (nonlinear_arith)
        requires
            th * c == full,
            t == 2 * th,
    ;
    lemma_fundamental_div_mod_converse(2 * full + rest, t, c, rest);
}

/// Digits below a unit that the pattern's low word holds do not change the
/// nearest whole number: `x` counts in units of `word`, of which `low` is
/// less than one.
pub proof fn lemma_low_word_is_below(x: int, t: int, low: int, word: int)
    requires
        0 <= x,
        t > 0,
        t % 2 == 0,
        word > 0,
        0 <= low < word,
    ensures
        nearest_whole(x * word + low, t * word) == nearest_whole(x, t),
{
    let num = 2 * x + t;
    let big = 2 * (x * word + low) + t * word;
    assert(big == num * word + 2 * low) by (nonlinear_arith)
        requires
            big == 2 * (x * word + low) + t * word,
            num == 2 * x + t,
    ;
    assert(2 * (t * word) == word * (2 * t)) by (nonlinear_arith);
    // big / word is num or num + 1
    let extra = (2 * low) / word;
    assert(0 <= extra <= 1 && 0 <= 2 * low - extra * word < word) by {
        lemma_fundamental_div_mod(2 * low, word);
        lemma_mod_bound(2 * low, word);
        lemma_mul_is_commutative(word, extra);
        if extra >= 2 {
            lemma_mul_inequality(2, extra, word);
        }
        if extra < 0 {
            lemma_mul_inequality(extra, -1, word);
        }
    }
    lemma_mul_is_distributive_add_other_way(word, num, extra);
    lemma_fundamental_div_mod_converse(big, word, num + extra, 2 * low - extra * word);
    lemma_mul_nonnegative(num, word);
    lemma_div_denominator(big, word, 2 * t);
    // num is even, so num + 1 has the same quotient by 2 * t
    let h = x + t / 2;
    assert(num == 2 * h);
    lemma_div_denominator(num + extra, 2, t);
    lemma_div_denominator(num, 2, t);
    assert((num + extra) / 2 == h && num / 2 == h);
}

} // verus!
