//! That `round_mag` rounds to nearest, ties to even: of all the finite
//! numbers of the format none lies closer to `n * 2^e` than the rounded
//! one, and where two lie equally close the one with the even significand
//! is taken. The same of a number between `n * 2^e` and `(n + 1) * 2^e`, which
//! is what a quotient or a square root is rounded from.
use crate::arith::isqrt;
use crate::format::Format;
use crate::power::{bit_length, lemma_bit_length_bounds, lemma_pow2_increases};
use crate::rounding::{encode, quantum, round_mag, rounds_up};
use crate::square_root::lemma_isqrt_exists;
use vstd::arithmetic::div_mod::*;
use vstd::arithmetic::mul::*;
use vstd::arithmetic::power2::*;
use vstd::prelude::*;

verus! {

/// The number that a finite magnitude pattern stands for, counted in units
/// of `2^min_exponent`, of which every such number is a multiple.
pub open spec fn units(fmt: Format, mag: nat) -> nat {
    fmt.significand(mag) * pow2((fmt.exponent(mag) - fmt.min_exponent()) as nat)
}

/// How far the number of the finite magnitude pattern `mag` lies from
/// `n * 2^e`, counted in units of `2^e` or of `2^min_exponent`, whichever is
/// smaller.
pub open spec fn distance(fmt: Format, n: nat, e: int, mag: nat) -> int {
    let b = if e < fmt.min_exponent() {
        e
    } else {
        fmt.min_exponent()
    };
    let x = n * pow2((e - b) as nat);
    let v = units(fmt, mag) * pow2((fmt.min_exponent() - b) as nat);
    if x >= v {
        x - v
    } else {
        v - x
    }
}

/// What `(q - min_exponent) * hidden + s` stands for: `s * 2^q`.
pub proof fn lemma_units_encoded(fmt: Format, q: int, s: nat)
    requires
        q >= fmt.min_exponent(),
        s <= 2 * fmt.hidden(),
        q > fmt.min_exponent() ==> s >= fmt.hidden(),
    ensures
        (q - fmt.min_exponent()) * fmt.hidden() + s >= 0,
        units(fmt, ((q - fmt.min_exponent()) * fmt.hidden() + s) as nat) == s * pow2(
            (q - fmt.min_exponent()) as nat,
        ),
        s < 2 * fmt.hidden() ==> fmt.significand(
            ((q - fmt.min_exponent()) * fmt.hidden() + s) as nat,
        ) == s && fmt.exponent(((q - fmt.min_exponent()) * fmt.hidden() + s) as nat) == q,
        s == 2 * fmt.hidden() ==> fmt.significand(
            ((q - fmt.min_exponent()) * fmt.hidden() + s) as nat,
        ) == fmt.hidden(),
{
    fmt.lemma_constants();
    let h = fmt.hidden() as int;
    let steps = q - fmt.min_exponent();
    lemma_mul_nonnegative(steps, h);
    let p = (steps * h + s) as nat;
    if s < h {
        assert(steps == 0);
        lemma_mul_basics(h);
        lemma2_to64();
        lemma_mul_basics(s as int);
    } else if s < 2 * h {
        lemma_mul_is_distributive_add_other_way(h, steps, 1);
        lemma_fundamental_div_mod_converse(p as int, h, steps + 1, s - h);
    } else {
        lemma_mul_is_distributive_add_other_way(h, steps, 2);
        lemma_fundamental_div_mod_converse(p as int, h, steps + 2, 0);
        lemma_pow2_unfold((steps + 1) as nat);
        let w = pow2(steps as nat) as int;
        assert(h * (2 * w) == (2 * h) * w) by (nonlinear_arith);
    }
}

/// From one finite pattern to the next the number grows by one unit in the
/// last place.
pub proof fn lemma_units_successor(fmt: Format, mag: nat)
    requires
        mag + 1 < fmt.inf(),
    ensures
        units(fmt, mag + 1) == units(fmt, mag) + pow2(
            (fmt.exponent(mag) - fmt.min_exponent()) as nat,
        ),
{
    fmt.lemma_constants();
    let h = fmt.hidden() as int;
    let q = fmt.exponent(mag);
    let s = fmt.significand(mag);
    let w = pow2((q - fmt.min_exponent()) as nat) as int;
    if mag < h {
        lemma_units_encoded(fmt, q, s);
        lemma_units_encoded(fmt, q, s + 1);
        lemma_mul_basics(h);
        assert((s + 1) * w == s * w + w) by (nonlinear_arith);
    } else {
        let f = mag as int / h;
        lemma_fundamental_div_mod(mag as int, h);
        lemma_mod_bound(mag as int, h);
        assert(h <= s < 2 * h);
        assert(mag == (q - fmt.min_exponent()) * h + s) by {
            lemma_mul_is_distributive_sub_other_way(h, f, 1);
            lemma_mul_is_commutative(h, f);
        }
        lemma_units_encoded(fmt, q, s);
        lemma_units_encoded(fmt, q, s + 1);
        assert((s + 1) * w == s * w + w) by (nonlinear_arith);
    }
}

/// Larger finite patterns stand for larger numbers.
pub proof fn lemma_units_increase(fmt: Format, a: nat, b: nat)
    requires
        a <= b < fmt.inf(),
    ensures
        units(fmt, a) <= units(fmt, b),
        a < b ==> units(fmt, a) < units(fmt, b),
    decreases b - a,
{
    if a < b {
        lemma_units_increase(fmt, a, (b - 1) as nat);
        lemma_units_successor(fmt, (b - 1) as nat);
        lemma_pow2_pos((fmt.exponent((b - 1) as nat) - fmt.min_exponent()) as nat);
    }
}

/// What is kept of `n` at its quantum is a significand: below
/// `2^precision`, and with its leading digit set unless the quantum is the
/// least exponent.
pub proof fn lemma_kept_is_significand(fmt: Format, n: nat, e: int)
    requires
        n > 0,
    ensures
        quantum(fmt, n, e) >= fmt.min_exponent(),
        quantum(fmt, n, e) <= e ==> {
            &&& n * pow2((e - quantum(fmt, n, e)) as nat) < 2 * fmt.hidden()
            &&& quantum(fmt, n, e) > fmt.min_exponent() ==> n * pow2(
                (e - quantum(fmt, n, e)) as nat,
            ) >= fmt.hidden()
        },
        quantum(fmt, n, e) > e ==> {
            &&& n / pow2((quantum(fmt, n, e) - e) as nat) < 2 * fmt.hidden()
            &&& quantum(fmt, n, e) > fmt.min_exponent() ==> n / pow2(
                (quantum(fmt, n, e) - e) as nat,
            ) >= fmt.hidden()
        },
{
    fmt.lemma_constants();
    lemma_bit_length_bounds(n);
    let l = bit_length(n);
    let p = fmt.precision();
    let q = quantum(fmt, n, e);
    if q <= e {
        let k = (e - q) as nat;
        let c = pow2(k);
        lemma_pow2_pos(k);
        lemma_pow2_adds(l, k);
        lemma_pow2_increases(l + k, p);
        lemma_mul_strict_inequality(n as int, pow2(l) as int, c as int);
        if q > fmt.min_exponent() {
            lemma_pow2_adds((l - 1) as nat, k);
            lemma_mul_inequality(pow2((l - 1) as nat) as int, n as int, c as int);
            assert((l - 1 + k) as nat == fmt.frac_bits());
        }
    } else {
        let k = (q - e) as nat;
        let d = pow2(k);
        lemma_pow2_pos(k);
        lemma_pow2_adds(p, k);
        lemma_pow2_increases(l, p + k);
        lemma_mul_is_commutative(d as int, pow2(p) as int);
        lemma_multiply_divide_lt(n as int, d as int, pow2(p) as int);
        if q > fmt.min_exponent() {
            assert((l - 1) as nat == fmt.frac_bits() + k);
            lemma_pow2_adds(fmt.frac_bits(), k);
            lemma_div_is_ordered((fmt.hidden() * d) as int, n as int, d as int);
            lemma_div_multiples_vanish(fmt.hidden() as int, d as int);
            lemma_mul_is_commutative(d as int, fmt.hidden() as int);
        }
    }
}

/// The distances of the two neighbours of `n * 2^e` at its quantum, where
/// digits have to go: the kept digits stand for a number `rem` parts
/// below, and the next pattern for one `d - rem` parts above, of `d` parts
/// to the unit in the last place.
proof fn lemma_neighbours(fmt: Format, n: nat, e: int)
    requires
        n > 0,
        quantum(fmt, n, e) > e,
        encode(fmt, quantum(fmt, n, e), n / pow2((quantum(fmt, n, e) - e) as nat)) < fmt.inf(),
    ensures
        ({
            let b = if e < fmt.min_exponent() {
                e
            } else {
                fmt.min_exponent()
            };
            let q = quantum(fmt, n, e);
            let d = pow2((q - e) as nat);
            let c = pow2((e - b) as nat);
            let low = encode(fmt, q, n / d);
            &&& low == (q - fmt.min_exponent()) * fmt.hidden() + n / d
            &&& units(fmt, low) * pow2((fmt.min_exponent() - b) as nat) == (n / d) * d * c
            &&& n * c == (n / d) * d * c + (n % d) * c
            &&& fmt.exponent(low) == q
            &&& fmt.significand(low) == n / d
            &&& low + 1 < fmt.inf() ==> units(fmt, low + 1) * pow2((fmt.min_exponent() - b) as nat)
                == (n / d) * d * c + d * c
            &&& c > 0
            &&& d > 0
        }),
{
    fmt.lemma_constants();
    let qmin = fmt.min_exponent();
    let b = if e < qmin {
        e
    } else {
        qmin
    };
    let q = quantum(fmt, n, e);
    let k = (q - e) as nat;
    let d = pow2(k);
    let c = pow2((e - b) as nat);
    let g = pow2((qmin - b) as nat);
    let w = pow2((q - qmin) as nat);
    let s = n / d;
    lemma_pow2_pos(k);
    lemma_pow2_pos((e - b) as nat);
    lemma_kept_is_significand(fmt, n, e);
    lemma_units_encoded(fmt, q, s);
    let low = encode(fmt, q, s);
    lemma_fundamental_div_mod(n as int, d as int);
    // 2^(q - qmin) * 2^(qmin - b) == 2^(q - e) * 2^(e - b)
    lemma_pow2_adds((q - qmin) as nat, (qmin - b) as nat);
    lemma_pow2_adds(k, (e - b) as nat);
    assert(w * g == d * c);
    assert(s * w * g == s * d * c) by {
        lemma_mul_is_associative(s as int, w as int, g as int);
        lemma_mul_is_associative(s as int, d as int, c as int);
    }
    assert(n * c == s * d * c + (n % d) * c) by {
        lemma_mul_is_commutative(d as int, s as int);
        lemma_mul_is_distributive_add_other_way(c as int, (s * d) as int, (n % d) as int);
    }
    if low + 1 < fmt.inf() {
        lemma_units_successor(fmt, low);
        assert((s * w + w) * g == s * d * c + d * c) by {
            lemma_mul_is_distributive_add_other_way(g as int, (s * w) as int, w as int);
        }
    }
}

/// How `rem * c` compares with half of `d * c`.
proof fn lemma_parts(rem: int, d: int, c: int)
    by (nonlinear_arith)
    requires
        0 <= rem < d,
        c > 0,
        d % 2 == 0,
    ensures
        0 <= rem * c < d * c,
        rem > d / 2 <==> 2 * (rem * c) > d * c,
        rem == d / 2 <==> 2 * (rem * c) == d * c,
{
}

/// The order of two finite patterns is that of their numbers, in any unit.
proof fn lemma_scaled_order(fmt: Format, a: nat, b: nat, g: nat)
    requires
        a < fmt.inf(),
        b < fmt.inf(),
        g > 0,
    ensures
        a <= b ==> units(fmt, a) * g <= units(fmt, b) * g,
        a < b ==> units(fmt, a) * g < units(fmt, b) * g,
{
    if a <= b {
        lemma_units_increase(fmt, a, b);
        lemma_mul_inequality(units(fmt, a) as int, units(fmt, b) as int, g as int);
        if a < b {
            lemma_mul_strict_inequality(units(fmt, a) as int, units(fmt, b) as int, g as int);
        }
    }
}

/// Where no digit has to go, the rounded number is the number itself:
/// `n * 2^e`, counted in units of `2^min_exponent`.
pub proof fn rounding_keeps_short_numbers(fmt: Format, n: nat, e: int)
    requires
        n > 0,
        quantum(fmt, n, e) <= e,
        round_mag(fmt, n, e, false) < fmt.inf(),
    ensures
        e >= fmt.min_exponent(),
        units(fmt, round_mag(fmt, n, e, false)) == n * pow2((e - fmt.min_exponent()) as nat),
        fmt.exponent(round_mag(fmt, n, e, false)) == quantum(fmt, n, e),
        fmt.significand(round_mag(fmt, n, e, false)) == n * pow2((e - quantum(fmt, n, e)) as nat),
{
    fmt.lemma_constants();
    let qmin = fmt.min_exponent();
    let q = quantum(fmt, n, e);
    let s = n * pow2((e - q) as nat);
    lemma_kept_is_significand(fmt, n, e);
    lemma_units_encoded(fmt, q, s);
    lemma_pow2_adds((e - q) as nat, (q - qmin) as nat);
    lemma_mul_is_associative(n as int, pow2((e - q) as nat) as int, pow2((q - qmin) as nat) as int);
}

/// The claim of `rounding_is_nearest` where no digit has to go.
proof fn lemma_nearest_exact(fmt: Format, n: nat, e: int, other: nat)
    requires
        n > 0,
        other < fmt.inf(),
        round_mag(fmt, n, e, false) < fmt.inf(),
        quantum(fmt, n, e) <= e,
    ensures
        distance(fmt, n, e, round_mag(fmt, n, e, false)) == 0,
        other != round_mag(fmt, n, e, false) ==> distance(fmt, n, e, other) > 0,
{
    let r = round_mag(fmt, n, e, false);
    rounding_keeps_short_numbers(fmt, n, e);
    lemma2_to64();
    lemma_mul_basics(units(fmt, r) as int);
    lemma_mul_basics(units(fmt, other) as int);
    if other < r {
        lemma_units_increase(fmt, other, r);
    }
    if r < other {
        lemma_units_increase(fmt, r, other);
    }
}

/// Of two neighbours `base` and `base + whole` of `x = base + part`, the one
/// that the rounding takes is as close to `x` as any number `vo` not
/// between them; and a number as close is the other neighbour, at a tie.
proof fn lemma_closest(x: int, base: int, part: int, whole: int, vr: int, vo: int, up: bool)
    requires
        x == base + part,
        0 <= part < whole,
        up ==> vr == base + whole && 2 * part >= whole,
        !up ==> vr == base && 2 * part <= whole,
        vo <= base || vo >= base + whole,
    ensures
        (if x >= vr {
            x - vr
        } else {
            vr - x
        }) <= (if x >= vo {
            x - vo
        } else {
            vo - x
        }),
        vo != vr && (if x >= vr {
            x - vr
        } else {
            vr - x
        }) == (if x >= vo {
            x - vo
        } else {
            vo - x
        }) ==> 2 * part == whole,
{
}

/// Where digits have to go, the rounded pattern is the one of the kept
/// digits or the next, by the part that goes.
proof fn lemma_round_choice(fmt: Format, n: nat, e: int, inexact: bool)
    requires
        n > 0,
        round_mag(fmt, n, e, inexact) < fmt.inf(),
        quantum(fmt, n, e) > e,
    ensures
        ({
            let q = quantum(fmt, n, e);
            let d = pow2((q - e) as nat);
            let low = (q - fmt.min_exponent()) * fmt.hidden() + n / d;
            let up = rounds_up(n % d, d / 2, (n / d) % 2 == 1, inexact);
            &&& 0 <= low < fmt.inf()
            &&& low == encode(fmt, q, n / d)
            &&& up ==> round_mag(fmt, n, e, inexact) == low + 1
            &&& !up ==> round_mag(fmt, n, e, inexact) == low
            &&& !inexact && n % d == d / 2 ==> fmt.significand(round_mag(fmt, n, e, inexact)) % 2
                == 0
        }),
{
    fmt.lemma_constants();
    let q = quantum(fmt, n, e);
    let d = pow2((q - e) as nat);
    let s = n / d;
    lemma_kept_is_significand(fmt, n, e);
    lemma_units_encoded(fmt, q, s);
    lemma_units_encoded(fmt, q, s + 1);
}

/// The claim of `rounding_is_nearest` where digits have to go.
proof fn lemma_nearest_rounded(fmt: Format, n: nat, e: int, other: nat)
    requires
        n > 0,
        other < fmt.inf(),
        round_mag(fmt, n, e, false) < fmt.inf(),
        quantum(fmt, n, e) > e,
    ensures
        distance(fmt, n, e, round_mag(fmt, n, e, false)) <= distance(fmt, n, e, other),
        other != round_mag(fmt, n, e, false) && distance(fmt, n, e, other) == distance(
            fmt,
            n,
            e,
            round_mag(fmt, n, e, false),
        ) ==> fmt.significand(round_mag(fmt, n, e, false)) % 2 == 0,
{
    let qmin = fmt.min_exponent();
    let b = if e < qmin {
        e
    } else {
        qmin
    };
    let q = quantum(fmt, n, e);
    let r = round_mag(fmt, n, e, false);
    let c = pow2((e - b) as nat);
    let g = pow2((qmin - b) as nat);
    let d = pow2((q - e) as nat);
    let rem = n % d;
    let low = encode(fmt, q, n / d);
    let up = rounds_up(rem, d / 2, (n / d) % 2 == 1, false);
    let base = (n / d) * d * c;
    let part = rem * c;
    let whole = d * c;
    let x = n * c;
    let vo = units(fmt, other) * g;
    let vr = units(fmt, r) * g;
    lemma_round_choice(fmt, n, e, false);
    lemma_neighbours(fmt, n, e);
    assert(0 <= part < whole && (rem > d / 2 <==> 2 * part > whole) && (rem == d / 2 <==> 2 * part
        == whole)) by {
        lemma_pow2_unfold((q - e) as nat);
        lemma_mod_bound(n as int, d as int);
        lemma_parts(rem as int, d as int, c as int);
    }
    assert(vo <= base || vo >= base + whole) by {
        lemma_pow2_pos((qmin - b) as nat);
        lemma_scaled_order(fmt, other, low, g);
        if other > low {
            lemma_scaled_order(fmt, low + 1, other, g);
        }
    }
    assert(vo != vr || other == r) by {
        lemma_pow2_pos((qmin - b) as nat);
        lemma_scaled_order(fmt, other, r, g);
        lemma_scaled_order(fmt, r, other, g);
    }
    lemma_closest(x as int, base as int, part as int, whole as int, vr as int, vo as int, up);
}

/// No finite number of the format lies closer to `n * 2^e` than the one it
/// is rounded to; and where another lies as close, the rounded one has an
/// even significand.
pub proof fn rounding_is_nearest(fmt: Format, n: nat, e: int, other: nat)
    requires
        n > 0,
        other < fmt.inf(),
        round_mag(fmt, n, e, false) < fmt.inf(),
    ensures
        distance(fmt, n, e, round_mag(fmt, n, e, false)) <= distance(fmt, n, e, other),
        other != round_mag(fmt, n, e, false) && distance(fmt, n, e, other) == distance(
            fmt,
            n,
            e,
            round_mag(fmt, n, e, false),
        ) ==> fmt.significand(round_mag(fmt, n, e, false)) % 2 == 0,
{
    if quantum(fmt, n, e) <= e {
        lemma_nearest_exact(fmt, n, e, other);
    } else {
        lemma_nearest_rounded(fmt, n, e, other);
    }
}

/// A number is rounded to infinity only from halfway between the largest
/// finite number and the power of two above it, that is from `2 * hidden -
/// 1/2` units in the last place of the largest finite number.
pub proof fn rounding_overflows_from_halfway(fmt: Format, n: nat, e: int)
    requires
        n > 0,
        round_mag(fmt, n, e, false) == fmt.inf(),
    ensures
        ({
            let b = if e < fmt.min_exponent() {
                e
            } else {
                fmt.min_exponent()
            };
            let largest = (fmt.inf() - 1) as nat;
            let ulp = pow2((fmt.exponent(largest) - fmt.min_exponent()) as nat);
            2 * (n * pow2((e - b) as nat)) >= (2 * units(fmt, largest) + ulp) * pow2(
                (fmt.min_exponent() - b) as nat,
            )
        }),
{
    fmt.lemma_constants();
    let qmin = fmt.min_exponent();
    let h = fmt.hidden() as int;
    let b = if e < qmin {
        e
    } else {
        qmin
    };
    let q = quantum(fmt, n, e);
    let c = pow2((e - b) as nat) as int;
    let g = pow2((qmin - b) as nat) as int;
    let largest = (fmt.inf() - 1) as nat;
    let top = fmt.exponent(largest);
    let ulp = pow2((top - qmin) as nat) as int;
    lemma_pow2_pos((qmin - b) as nat);
    lemma_pow2_pos((e - b) as nat);
    lemma_pow2_pos((top - qmin) as nat);
    lemma_kept_is_significand(fmt, n, e);
    // the largest finite number is 2 * hidden - 1 units in its last place
    assert(fmt.significand(largest) == 2 * h - 1 && top == fmt.max_field() - 2 + qmin) by {
        lemma_fundamental_div_mod_converse(largest as int, h, fmt.max_field() - 1, h - 1);
    }
    let bound = (2 * units(fmt, largest) + ulp) * g;
    assert(bound == (4 * h - 1) * (ulp * g)) by (nonlinear_arith)
        requires
            bound == (2 * units(fmt, largest) + ulp) * g,
            units(fmt, largest) == (2 * h - 1) * ulp,
    ;
    if q <= e {
        let s = (n * pow2((e - q) as nat)) as int;
        lemma_mul_nonnegative(q - qmin, h);
        let w = pow2((q - qmin) as nat) as int;
        lemma_pow2_pos((q - qmin) as nat);
        // the pattern reaches infinity only above the largest exponent
        assert(q > top) by {
            if q <= top {
                lemma_mul_inequality(q - qmin, top - qmin, h);
            }
        }
        lemma2_to64();
        lemma_pow2_adds((e - q) as nat, (q - qmin) as nat);
        lemma_mul_is_associative(n as int, pow2((e - q) as nat) as int, w);
        lemma_pow2_increases((top + 1 - qmin) as nat, (q - qmin) as nat);
        lemma_pow2_unfold((top + 1 - qmin) as nat);
        assert(n * c == s * w);
        assert(2 * (s * w) >= (4 * h - 1) * (ulp * g)) by (nonlinear_arith)
            requires
                s >= h,
                w >= 2 * ulp,
                g == 1,
                h > 0,
                ulp > 0,
        ;
    } else {
        let d = pow2((q - e) as nat) as int;
        let s = n as int / d;
        let rem = n as int % d;
        let up = rounds_up(rem as nat, (d / 2) as nat, s % 2 == 1, false);
        let w = pow2((q - qmin) as nat) as int;
        lemma_pow2_pos((q - e) as nat);
        lemma_pow2_pos((q - qmin) as nat);
        lemma_pow2_unfold((q - e) as nat);
        lemma_mul_nonnegative(q - qmin, h);
        lemma_fundamental_div_mod(n as int, d);
        lemma_mod_bound(n as int, d);
        lemma_pow2_adds((q - qmin) as nat, (qmin - b) as nat);
        lemma_pow2_adds((q - e) as nat, (e - b) as nat);
        assert(w * g == d * c);
        assert(q >= top) by {
            if q < top {
                lemma_mul_inequality(q - qmin, top - 1 - qmin, h);
            }
        }
        lemma_pow2_increases((top - qmin) as nat, (q - qmin) as nat);
        if q > top {
            lemma_pow2_increases((top + 1 - qmin) as nat, (q - qmin) as nat);
            lemma_pow2_unfold((top + 1 - qmin) as nat);
            assert(2 * (n * c) >= (4 * h - 1) * (ulp * g)) by (nonlinear_arith)
                requires
                    n == d * s + rem,
                    rem >= 0,
                    s >= h,
                    w * g == d * c,
                    w >= 2 * ulp,
                    g > 0,
                    c > 0,
                    h > 0,
                    ulp > 0,
            ;
        } else {
            // at the largest exponent all digits are set, and the part that goes is a half or more
            assert(s == 2 * h - 1 && up) by {
                lemma_mul_is_distributive_sub_other_way(h, fmt.max_field() as int, 2);
            }
            assert(2 * (n * c) >= (4 * h - 1) * (ulp * g)) by (nonlinear_arith)
                requires
                    n == d * s + rem,
                    2 * rem >= d,
                    s == 2 * h - 1,
                    w * g == d * c,
                    w == ulp,
                    g > 0,
                    c > 0,
            ;
        }
    }
}

/// How far the number of the finite magnitude pattern `mag` lies from
/// `(n + num / den) * 2^e`, counted in parts of which `den` make a unit of
/// `distance`.
pub open spec fn distance_between(
    fmt: Format,
    n: nat,
    num: nat,
    den: nat,
    e: int,
    mag: nat,
) -> int {
    let b = if e < fmt.min_exponent() {
        e
    } else {
        fmt.min_exponent()
    };
    let x = (n * den + num) * pow2((e - b) as nat);
    let v = units(fmt, mag) * pow2((fmt.min_exponent() - b) as nat) * den;
    if x >= v {
        x - v
    } else {
        v - x
    }
}

/// How `(rem + num / den) * c` compares with half of `d * c`, in `den`-ths.
proof fn lemma_parts_between(rem: int, d: int, c: int, num: int, den: int)
    by (nonlinear_arith)
    requires
        0 <= rem < d,
        c > 0,
        d % 2 == 0,
        0 < num < den,
    ensures
        0 <= (rem * c) * den + num * c < (d * c) * den,
        2 * rem >= d ==> 2 * ((rem * c) * den + num * c) > (d * c) * den,
        2 * rem < d ==> 2 * ((rem * c) * den + num * c) < (d * c) * den,
{
    assert((rem * c) * den + num * c < ((rem + 1) * c) * den);
    assert(((rem + 1) * c) * den <= (d * c) * den);
    if 2 * rem >= d {
        assert(2 * ((rem * c) * den) >= (d * c) * den);
    } else {
        assert(2 * rem + 2 <= d);
        assert(2 * ((rem * c) * den + num * c) < ((2 * rem + 2) * c) * den);
        assert(((2 * rem + 2) * c) * den <= (d * c) * den);
    }
}

/// A number strictly between `n * 2^e` and `(n + 1) * 2^e`, of which the
/// digits of `n` reach below the quantum, lies closer to the number that
/// `round_mag` gives with `inexact` than to any other finite number of the
/// format: that is what `inexact` stands for.
pub proof fn rounding_is_nearest_between(
    fmt: Format,
    n: nat,
    num: nat,
    den: nat,
    e: int,
    other: nat,
)
    requires
        n > 0,
        0 < num < den,
        quantum(fmt, n, e) > e,
        other < fmt.inf(),
        round_mag(fmt, n, e, true) < fmt.inf(),
        other != round_mag(fmt, n, e, true),
    ensures
        distance_between(fmt, n, num, den, e, round_mag(fmt, n, e, true)) < distance_between(
            fmt,
            n,
            num,
            den,
            e,
            other,
        ),
{
    let qmin = fmt.min_exponent();
    let b = if e < qmin {
        e
    } else {
        qmin
    };
    let q = quantum(fmt, n, e);
    let r = round_mag(fmt, n, e, true);
    let c = pow2((e - b) as nat) as int;
    let g = pow2((qmin - b) as nat);
    let d = pow2((q - e) as nat) as int;
    let rem = n as int % d;
    let low = encode(fmt, q, n / (d as nat));
    let up = rounds_up(rem as nat, (d / 2) as nat, (n as int / d) % 2 == 1, true);
    let base = (n as int / d) * d * c;
    let part = rem * c;
    let whole = d * c;
    let vo = (units(fmt, other) * g) as int;
    let vr = (units(fmt, r) * g) as int;
    lemma_round_choice(fmt, n, e, true);
    lemma_neighbours(fmt, n, e);
    assert(n * c == base + part);
    assert(vo <= base || vo >= base + whole) by {
        lemma_pow2_pos((qmin - b) as nat);
        lemma_scaled_order(fmt, other, low, g);
        if other > low {
            lemma_scaled_order(fmt, low + 1, other, g);
        }
    }
    assert(vo != vr) by {
        lemma_pow2_pos((qmin - b) as nat);
        lemma_scaled_order(fmt, other, r, g);
        lemma_scaled_order(fmt, r, other, g);
    }
    assert(up <==> 2 * rem >= d) by {
        lemma_pow2_unfold((q - e) as nat);
    }
    lemma_pow2_unfold((q - e) as nat);
    lemma_mod_bound(n as int, d);
    lemma_parts_between(rem, d, c, num as int, den as int);
    let x2 = (n * den + num) * c;
    let base2 = base * den;
    let part2 = part * den + num * c;
    let whole2 = whole * den;
    assert(x2 == base2 + part2) by (nonlinear_arith)
        requires
            n * c == base + part,
            x2 == (n * den + num) * c,
            base2 == base * den,
            part2 == part * den + num * c,
    ;
    assert(vo * den <= base2 || vo * den >= base2 + whole2) by (nonlinear_arith)
        requires
            vo <= base || vo >= base + whole,
            den > 0,
            base2 == base * den,
            whole2 == whole * den,
    ;
    assert(vo * den != vr * den) by (nonlinear_arith)
        requires
            vo != vr,
            den > 0,
    ;
    assert(up ==> vr * den == base2 + whole2) by (nonlinear_arith)
        requires
            up ==> vr == base + whole,
            base2 == base * den,
            whole2 == whole * den,
    ;
    assert(!up ==> vr * den == base2);
    lemma_closest(x2, base2, part2, whole2, vr * den, vo * den, up);
}

/// With `a` the sum of two numbers and `n < root < n + 1`, where `y` is the
/// square of `root * c`: `a` is below twice the root if it is at most `2 n c`,
/// and above if it is at least `2 (n + 1) c`.
proof fn lemma_twice_root(a: int, n: int, y: int, c: int)
    by (nonlinear_arith)
    requires
        0 <= n,
        n * n < y < (n + 1) * (n + 1),
        c > 0,
        0 <= a,
    ensures
        a <= 2 * (n * c) ==> a * a < 4 * y * c * c,
        a >= 2 * ((n + 1) * c) ==> a * a > 4 * y * c * c,
{
    if a <= 2 * (n * c) {
        assert(a * a <= (2 * (n * c)) * (2 * (n * c)));
        assert((2 * (n * c)) * (2 * (n * c)) == 4 * (n * n) * c * c);
        assert(4 * (n * n) * c * c < 4 * y * c * c) by {
            assert((n * n) * (c * c) < y * (c * c));
        }
    }
    if a >= 2 * ((n + 1) * c) {
        assert(a * a >= (2 * ((n + 1) * c)) * (2 * ((n + 1) * c)));
        assert((2 * ((n + 1) * c)) * (2 * ((n + 1) * c)) == 4 * ((n + 1) * (n + 1)) * c * c);
        assert(4 * ((n + 1) * (n + 1)) * c * c > 4 * y * c * c) by {
            assert(((n + 1) * (n + 1)) * (c * c) > y * (c * c));
        }
    }
}

/// The square root of `y * 4^e`, where `y` is no square and the digits of
/// its integer root reach below the quantum, lies closer to the number
/// that `round_mag` gives than to any other finite number of the format.
/// Said without the root itself: the middle between the rounded number and
/// another lies below the root where the other is smaller, and above it
/// where the other is larger, by the squares.
pub proof fn rounding_is_nearest_to_root(fmt: Format, y: nat, e: int, other: nat)
    requires
        isqrt(y) * isqrt(y) != y,
        quantum(fmt, isqrt(y), e) > e,
        other < fmt.inf(),
        round_mag(fmt, isqrt(y), e, true) < fmt.inf(),
    ensures
        ({
            let b = if e < fmt.min_exponent() {
                e
            } else {
                fmt.min_exponent()
            };
            let c = pow2((e - b) as nat);
            let g = pow2((fmt.min_exponent() - b) as nat);
            let result = round_mag(fmt, isqrt(y), e, true);
            let twice = (units(fmt, other) + units(fmt, result)) * g;
            &&& other < result ==> twice * twice < 4 * y * c * c
            &&& other > result ==> twice * twice > 4 * y * c * c
        }),
{
    let n = isqrt(y);
    lemma_isqrt_exists(y);
    assert(n > 0) by {
        if n == 0 {
            assert(y < 1) by (nonlinear_arith)
                requires
                    y < (0 + 1) * (0 + 1),
            ;
        }
    }
    let qmin = fmt.min_exponent();
    let b = if e < qmin {
        e
    } else {
        qmin
    };
    let q = quantum(fmt, n, e);
    let r = round_mag(fmt, n, e, true);
    let c = pow2((e - b) as nat) as int;
    let g = pow2((qmin - b) as nat);
    let d = pow2((q - e) as nat) as int;
    let rem = n as int % d;
    let s = n as int / d;
    let low = encode(fmt, q, n / (d as nat));
    let up = rounds_up(rem as nat, (d / 2) as nat, s % 2 == 1, true);
    let base = s * d * c;
    let whole = d * c;
    let vo = (units(fmt, other) * g) as int;
    let vr = (units(fmt, r) * g) as int;
    let twice = ((units(fmt, other) + units(fmt, r)) * g) as int;
    lemma_round_choice(fmt, n, e, true);
    lemma_neighbours(fmt, n, e);
    lemma_pow2_pos((qmin - b) as nat);
    lemma_pow2_unfold((q - e) as nat);
    lemma_mod_bound(n as int, d);
    lemma_fundamental_div_mod(n as int, d);
    assert(twice == vo + vr) by {
        lemma_mul_is_distributive_add_other_way(
            g as int,
            units(fmt, other) as int,
            units(fmt, r) as int,
        );
    }
    assert(up <==> 2 * rem >= d);
    // the neighbours, in the units of n * c
    assert(n * c == base + rem * c);
    assert(2 * (rem * c) >= whole <==> 2 * rem >= d) by (nonlinear_arith)
        requires
            whole == d * c,
            c > 0,
    ;
    assert((n + 1) * c <= base + whole) by (nonlinear_arith)
        requires
            n * c == base + rem * c,
            whole == d * c,
            rem < d,
            c > 0,
    ;
    if 2 * rem < d {
        assert(2 * (rem + 1) <= d);
        lemma_mul_inequality(2 * (rem + 1), d, c);
        assert((n + 1) * c == n * c + c) by (nonlinear_arith);
        assert((2 * (rem + 1)) * c == 2 * (rem * c) + 2 * c) by (nonlinear_arith);
        assert(2 * ((n + 1) * c) <= 2 * base + whole);
    }
    lemma_scaled_order(fmt, other, low, g);
    lemma_scaled_order(fmt, low, other, g);
    if low + 1 < fmt.inf() {
        lemma_scaled_order(fmt, other, low + 1, g);
        lemma_scaled_order(fmt, low + 1, other, g);
    }
    lemma_twice_root(twice, n as int, y as int, c);
    // below the rounded number the middle is at most n * c, above it at least (n + 1) * c
    if other < r {
        assert(twice <= 2 * (n * c));
    }
    if other > r {
        assert(twice >= 2 * ((n + 1) * c));
    }
}

} // verus!
