//! `logf`, `pow` and `powf` on IEEE-754 bit patterns, in integer arithmetic
//! alone: every result is a function of the bits of the arguments.
//!
//! - `format` reads a bit pattern as sign, significand and exponent.
//! - `rounding`, `arith`, `addition`, `division` and `square_root` are the
//!   arithmetic: each operation gives its exact result, rounded once.
//!   `nearest` and `correctly_rounded` show that the rounding is to nearest,
//!   ties to even, and `identities` what multiplying by one and the like give.
//! - `single` and `double` are the arithmetic at the two widths.
//! - `ladder` holds the exact cases of a power, in either format, and `laws`
//!   what holds of them.
//! - `logf`, `powf` and `pow` are the three functions; `powf_laws` and
//!   `pow_laws` say what holds of the powers on all inputs.
//! - `power` and `halfway` are plain integer arithmetic: powers of two, digit
//!   counts, and the nearest whole number by adding a half.
pub mod addition;
pub mod arith;
pub mod correctly_rounded;
pub mod division;
pub mod double;
pub mod format;
pub mod halfway;
pub mod identities;
pub mod ladder;
pub mod laws;
pub mod logf;
pub mod nearest;
pub mod pow;
pub mod pow_laws;
pub mod power;
pub mod powf;
pub mod powf_laws;
pub mod rounding;
pub mod single;
pub mod square_root;

pub use crate::logf::logf;
pub use crate::pow::pow;
pub use crate::powf::powf;
