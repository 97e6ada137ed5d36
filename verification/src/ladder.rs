//! The exact cases of a power `x^y`: what IEEE-754 fixes for zeros, ones,
//! infinities and NaNs, for the exponents 1, -1, 2 and 1/2, and for a
//! negative base. They are tried in a fixed order, and the first that
//! applies gives the result.
use crate::addition::plus;
use crate::arith::{abs, absolute, neg, negated, prod, quot, root, sum, times};
use crate::division::over;
use crate::format::Format;
use crate::power::pow2_u64;
use crate::square_root::sqrt;
use vstd::arithmetic::div_mod::*;
use vstd::arithmetic::power2::*;
use vstd::prelude::*;

verus! {

/// Whether an exponent is a whole number, and of which parity.
#[derive(Clone, Copy, PartialEq, Eq, Debug, Structural)]
pub enum Parity {
    NotInteger,
    Odd,
    Even,
}

/// The parity of the number `significand * 2^exponent` that `y` stands for.
/// An infinity counts as even, as every number from `2^precision` on is.
pub open spec fn parity(fmt: Format, y: u64) -> Parity {
    let m = fmt.magnitude(y);
    if m >= fmt.inf() {
        Parity::Even
    } else {
        let s = fmt.significand(m);
        let e = fmt.exponent(m);
        if e >= 0 {
            if e == 0 && s % 2 == 1 {
                Parity::Odd
            } else {
                Parity::Even
            }
        } else {
            let d = pow2((-e) as nat);
            if s % d != 0 {
                Parity::NotInteger
            } else if (s / d) % 2 == 1 {
                Parity::Odd
            } else {
                Parity::Even
            }
        }
    }
}

/// Classifies an exponent from its bit pattern alone.
pub fn exponent_parity(fmt: Format, y: u64) -> (r: Parity)
    requires
        fmt.valid(y),
    ensures
        r == parity(fmt, y),
{
    let (_n, m) = fmt.split(y);
    if m >= fmt.inf_bits() {
        return Parity::Even;
    }
    let (s, e) = fmt.decode(m);
    if e > 0 {
        return Parity::Even;
    }
    if e == 0 {
        return if s % 2 == 1 {
            Parity::Odd
        } else {
            Parity::Even
        };
    }
    let k: u32 = (-e) as u32;
    if k >= 54 {
        proof {
            fmt.lemma_constants();
            lemma2_to64_rest();
            if 54 < k {
                lemma_pow2_strictly_increases(54, k as nat);
            }
            lemma_small_mod(s as nat, pow2(k as nat));
            lemma_basic_div(s as int, pow2(k as nat) as int);
        }
        return if s == 0 {
            Parity::Even
        } else {
            Parity::NotInteger
        };
    }
    let d: u64 = pow2_u64(k);
    proof {
        lemma_pow2_pos(k as nat);
    }
    if s % d != 0 {
        Parity::NotInteger
    } else if (s / d) % 2 == 1 {
        Parity::Odd
    } else {
        Parity::Even
    }
}

/// The result of `x^y` where one of the exact cases applies, and `None`
/// where the power has to be computed.
pub open spec fn special_value(fmt: Format, x: u64, y: u64) -> Option<u64> {
    let ax = fmt.magnitude(x);
    let ay = fmt.magnitude(y);
    let one = fmt.one() as u64;
    if ay == 0 {
        Some(one)
    } else if x == one {
        Some(one)
    } else if fmt.is_nan(x) || fmt.is_nan(y) {
        Some(sum(fmt, x, y))
    } else if ay == fmt.inf() {
        if ax == one {
            Some(one)
        } else if (ax > one) == fmt.negative(y) {
            Some(0)
        } else {
            Some(fmt.inf() as u64)
        }
    } else if ay == one {
        if fmt.negative(y) {
            Some(quot(fmt, one, x))
        } else {
            Some(x)
        }
    } else if y == fmt.two() {
        Some(prod(fmt, x, x))
    } else if y == fmt.half() && !fmt.negative(x) {
        Some(root(fmt, x))
    } else if ax == fmt.inf() || ax == 0 || ax == one {
        let z = if fmt.negative(y) {
            quot(fmt, one, absolute(fmt, x))
        } else {
            absolute(fmt, x)
        };
        if !fmt.negative(x) {
            Some(z)
        } else if ax == one && parity(fmt, y) == Parity::NotInteger {
            Some(fmt.default_nan() as u64)
        } else if parity(fmt, y) == Parity::Odd {
            Some(negated(fmt, z))
        } else {
            Some(z)
        }
    } else if fmt.negative(x) && parity(fmt, y) == Parity::NotInteger {
        Some(fmt.default_nan() as u64)
    } else {
        None
    }
}

/// Whether a computed power is negative: the base is, and the exponent is
/// an odd whole number.
pub open spec fn negative_power(fmt: Format, x: u64, y: u64) -> bool {
    fmt.negative(x) && parity(fmt, y) == Parity::Odd
}

/// Tries the exact cases in their order.
pub fn special(fmt: Format, x: u64, y: u64) -> (r: Option<u64>)
    requires
        fmt.valid(x),
        fmt.valid(y),
    ensures
        r == special_value(fmt, x, y),
        r matches Some(v) ==> fmt.valid(v),
        r is None ==> {
            &&& 0 < fmt.magnitude(x) < fmt.inf()
            &&& fmt.magnitude(x) != fmt.one()
            &&& 0 < fmt.magnitude(y) < fmt.inf()
            &&& fmt.magnitude(y) != fmt.one()
            &&& y != fmt.two()
        },
{
    let (nx, ax) = fmt.split(x);
    let (ny, ay) = fmt.split(y);
    let one: u64 = fmt.one_bits();
    let inf: u64 = fmt.inf_bits();
    if ay == 0 {
        return Some(one);
    }
    if x == one {
        return Some(one);
    }
    if ax > inf || ay > inf {
        return Some(plus(fmt, x, y));
    }
    if ay == inf {
        return Some(
            if ax == one {
                one
            } else if (ax > one) == ny {
                0
            } else {
                inf
            },
        );
    }
    if ay == one {
        return Some(
            if ny {
                over(fmt, one, x)
            } else {
                x
            },
        );
    }
    if y == fmt.two_bits() {
        return Some(times(fmt, x, x));
    }
    if y == fmt.half_bits() && !nx {
        return Some(sqrt(fmt, x));
    }
    if ax == inf || ax == 0 || ax == one {
        let z: u64 = if ny {
            over(fmt, one, abs(fmt, x))
        } else {
            abs(fmt, x)
        };
        if !nx {
            return Some(z);
        }
        let p = exponent_parity(fmt, y);
        if ax == one && p == Parity::NotInteger {
            return Some(fmt.default_nan_bits());
        }
        if p == Parity::Odd {
            return Some(neg(fmt, z));
        }
        return Some(z);
    }
    if nx && exponent_parity(fmt, y) == Parity::NotInteger {
        return Some(fmt.default_nan_bits());
    }
    None
}

} // verus!
