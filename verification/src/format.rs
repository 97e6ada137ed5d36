//! The two IEEE-754 binary interchange formats this crate computes in, read
//! as unsigned integers.
//!
//! A bit pattern is carried in a `u64` whatever its format; a binary32
//! pattern fills the low 32 bits. A finite pattern stands for the number
//! `(-1)^negative * significand * 2^exponent`, where `exponent` is the weight
//! of the significand's last binary digit.
use vstd::arithmetic::power2::*;
use vstd::prelude::*;

verus! {

/// One of the two formats.
#[derive(Clone, Copy, PartialEq, Eq, Debug, Structural)]
pub enum Format {
    /// Single precision: 8 exponent bits, 23 fraction bits.
    Binary32,
    /// Double precision: 11 exponent bits, 52 fraction bits.
    Binary64,
}

impl Format {
    /// Width of the fraction field.
    pub open spec fn frac_bits(self) -> nat {
        match self {
            Format::Binary32 => 23,
            Format::Binary64 => 52,
        }
    }

    /// Number of significant binary digits of a normal number.
    pub open spec fn precision(self) -> nat {
        self.frac_bits() + 1
    }

    /// Weight of the implicit leading digit, `2^frac_bits`; also the least
    /// magnitude pattern of a normal number.
    pub open spec fn hidden(self) -> nat {
        match self {
            Format::Binary32 => 0x0080_0000,
            Format::Binary64 => 0x0010_0000_0000_0000,
        }
    }

    /// The pattern that holds the sign bit alone.
    pub open spec fn sign_bit(self) -> nat {
        match self {
            Format::Binary32 => 0x8000_0000,
            Format::Binary64 => 0x8000_0000_0000_0000,
        }
    }

    /// Magnitude pattern of infinity; every larger magnitude is a NaN.
    pub open spec fn inf(self) -> nat {
        match self {
            Format::Binary32 => 0x7f80_0000,
            Format::Binary64 => 0x7ff0_0000_0000_0000,
        }
    }

    /// The fraction bit that marks a NaN as quiet.
    pub open spec fn quiet_bit(self) -> nat {
        match self {
            Format::Binary32 => 0x0040_0000,
            Format::Binary64 => 0x0008_0000_0000_0000,
        }
    }

    /// Exponent of the subnormal numbers, the least there is.
    pub open spec fn min_exponent(self) -> int {
        match self {
            Format::Binary32 => -149,
            Format::Binary64 => -1074,
        }
    }

    /// Largest value of the exponent field, which marks infinity and NaN.
    pub open spec fn max_field(self) -> nat {
        match self {
            Format::Binary32 => 255,
            Format::Binary64 => 2047,
        }
    }

    /// The pattern of `1.0`.
    pub open spec fn one(self) -> nat {
        match self {
            Format::Binary32 => 0x3f80_0000,
            Format::Binary64 => 0x3ff0_0000_0000_0000,
        }
    }

    /// The pattern of `2.0`.
    pub open spec fn two(self) -> nat {
        match self {
            Format::Binary32 => 0x4000_0000,
            Format::Binary64 => 0x4000_0000_0000_0000,
        }
    }

    /// The pattern of `0.5`.
    pub open spec fn half(self) -> nat {
        match self {
            Format::Binary32 => 0x3f00_0000,
            Format::Binary64 => 0x3fe0_0000_0000_0000,
        }
    }

    /// `b` is a bit pattern of this format.
    pub open spec fn valid(self, b: u64) -> bool {
        b < 2 * self.sign_bit()
    }

    /// The sign bit of `b` is set.
    pub open spec fn negative(self, b: u64) -> bool {
        b >= self.sign_bit()
    }

    /// The pattern without its sign bit.
    pub open spec fn magnitude(self, b: u64) -> nat {
        if b >= self.sign_bit() {
            (b - self.sign_bit()) as nat
        } else {
            b as nat
        }
    }

    /// Puts a sign on a magnitude pattern.
    pub open spec fn with_sign(self, negative: bool, mag: nat) -> nat {
        if negative {
            mag + self.sign_bit()
        } else {
            mag
        }
    }

    /// `b` is a NaN: its magnitude lies above that of infinity.
    pub open spec fn is_nan(self, b: u64) -> bool {
        self.magnitude(b) > self.inf()
    }

    /// `b` is an infinity.
    pub open spec fn is_inf(self, b: u64) -> bool {
        self.magnitude(b) == self.inf()
    }

    /// `b` is a finite number: zero, subnormal or normal.
    pub open spec fn is_finite(self, b: u64) -> bool {
        self.magnitude(b) < self.inf()
    }

    /// `b` is a zero, of either sign.
    pub open spec fn is_zero(self, b: u64) -> bool {
        self.magnitude(b) == 0
    }

    /// Significand of a finite magnitude pattern, with the implicit digit
    /// where the number is normal.
    pub open spec fn significand(self, mag: nat) -> nat {
        if mag < self.hidden() {
            mag
        } else {
            mag % self.hidden() + self.hidden()
        }
    }

    /// Exponent of a finite magnitude pattern: the weight of the last digit
    /// of its significand.
    pub open spec fn exponent(self, mag: nat) -> int {
        if mag < self.hidden() {
            self.min_exponent()
        } else {
            mag / self.hidden() - 1 + self.min_exponent()
        }
    }

    /// A NaN with its quiet bit set, as an operation hands it on.
    pub open spec fn quieted(self, b: u64) -> nat {
        if self.magnitude(b) % (2 * self.quiet_bit()) >= self.quiet_bit() {
            b as nat
        } else {
            (b + self.quiet_bit()) as nat
        }
    }

    /// The NaN that an invalid operation produces.
    pub open spec fn default_nan(self) -> nat {
        self.inf() + self.quiet_bit()
    }

    /// The constants above, as powers of two.
    pub proof fn lemma_constants(self)
        ensures
            self.hidden() == pow2(self.frac_bits()),
            2 * self.hidden() == pow2(self.precision()),
            self.inf() == self.max_field() * self.hidden(),
            self.sign_bit() == (self.max_field() + 1) * self.hidden(),
            2 * self.quiet_bit() == self.hidden(),
    {
        lemma2_to64();
        lemma2_to64_rest();
    }

    /// `hidden` as a machine integer.
    pub fn hidden_bits(self) -> (r: u64)
        ensures
            r == self.hidden(),
    {
        match self {
            Format::Binary32 => 0x0080_0000,
            Format::Binary64 => 0x0010_0000_0000_0000,
        }
    }

    /// `sign_bit` as a machine integer.
    pub fn sign_bits(self) -> (r: u64)
        ensures
            r == self.sign_bit(),
    {
        match self {
            Format::Binary32 => 0x8000_0000,
            Format::Binary64 => 0x8000_0000_0000_0000,
        }
    }

    /// `inf` as a machine integer.
    pub fn inf_bits(self) -> (r: u64)
        ensures
            r == self.inf(),
    {
        match self {
            Format::Binary32 => 0x7f80_0000,
            Format::Binary64 => 0x7ff0_0000_0000_0000,
        }
    }

    /// `default_nan` as a machine integer.
    pub fn default_nan_bits(self) -> (r: u64)
        ensures
            r == self.default_nan(),
    {
        match self {
            Format::Binary32 => 0x7fc0_0000,
            Format::Binary64 => 0x7ff8_0000_0000_0000,
        }
    }

    /// `one` as a machine integer.
    pub fn one_bits(self) -> (r: u64)
        ensures
            r == self.one(),
    {
        match self {
            Format::Binary32 => 0x3f80_0000,
            Format::Binary64 => 0x3ff0_0000_0000_0000,
        }
    }

    /// `two` as a machine integer.
    pub fn two_bits(self) -> (r: u64)
        ensures
            r == self.two(),
    {
        match self {
            Format::Binary32 => 0x4000_0000,
            Format::Binary64 => 0x4000_0000_0000_0000,
        }
    }

    /// `half` as a machine integer.
    pub fn half_bits(self) -> (r: u64)
        ensures
            r == self.half(),
    {
        match self {
            Format::Binary32 => 0x3f00_0000,
            Format::Binary64 => 0x3fe0_0000_0000_0000,
        }
    }

    /// `precision` as a machine integer.
    pub fn precision_bits(self) -> (r: i32)
        ensures
            r == self.precision(),
    {
        match self {
            Format::Binary32 => 24,
            Format::Binary64 => 53,
        }
    }

    /// `min_exponent` as a machine integer.
    pub fn min_exponent_value(self) -> (r: i32)
        ensures
            r == self.min_exponent(),
    {
        match self {
            Format::Binary32 => -149,
            Format::Binary64 => -1074,
        }
    }

    /// `max_field` as a machine integer.
    pub fn max_field_value(self) -> (r: i32)
        ensures
            r == self.max_field(),
    {
        match self {
            Format::Binary32 => 255,
            Format::Binary64 => 2047,
        }
    }

    /// Splits a pattern into its sign and its magnitude.
    pub fn split(self, b: u64) -> (r: (bool, u64))
        requires
            self.valid(b),
        ensures
            r.0 == self.negative(b),
            r.1 == self.magnitude(b),
            r.1 < self.sign_bit(),
    {
        let s: u64 = self.sign_bits();
        if b >= s {
            (true, b - s)
        } else {
            (false, b)
        }
    }

    /// Puts a sign on a magnitude.
    pub fn join(self, negative: bool, mag: u64) -> (r: u64)
        requires
            mag < self.sign_bit(),
        ensures
            r == self.with_sign(negative, mag as nat),
            self.valid(r),
            self.negative(r) == negative,
            self.magnitude(r) == mag,
    {
        if negative {
            mag + self.sign_bits()
        } else {
            mag
        }
    }

    /// Significand and exponent of a finite magnitude.
    pub fn decode(self, mag: u64) -> (r: (u64, i32))
        requires
            mag < self.inf(),
        ensures
            r.0 == self.significand(mag as nat),
            r.1 == self.exponent(mag as nat),
            r.0 < 2 * self.hidden(),
            self.min_exponent() <= r.1 <= self.min_exponent() + self.max_field() - 2,
            r.1 > self.min_exponent() ==> r.0 >= self.hidden(),
            r.0 == 0 <==> mag == 0,
    {
        let h: u64 = self.hidden_bits();
        if mag < h {
            (mag, self.min_exponent_value())
        } else {
            let field: u64 = mag / h;
            assert(1 <= field < self.max_field()) by {
                self.lemma_constants();
                assert(mag == h * (mag / h) + mag % h);
            }
            (mag % h + h, (field as i32) - 1 + self.min_exponent_value())
        }
    }

    /// The quiet form of a NaN.
    pub fn quiet(self, b: u64) -> (r: u64)
        requires
            self.valid(b),
            self.is_nan(b),
        ensures
            r == self.quieted(b),
            self.valid(r),
            self.is_nan(r),
            self.negative(r) == self.negative(b),
    {
        let (_neg, mag) = self.split(b);
        match self {
            Format::Binary32 => {
                if mag % 0x0080_0000 >= 0x0040_0000 {
                    b
                } else {
                    b + 0x0040_0000
                }
            },
            Format::Binary64 => {
                if mag % 0x0010_0000_0000_0000 >= 0x0008_0000_0000_0000 {
                    b
                } else {
                    b + 0x0008_0000_0000_0000
                }
            },
        }
    }
}

} // verus!
