//! Fixed-size, fixed-point decimal numbers built from an array of unsigned
//! units, with NaN and signed infinities in place of panics.
//!
//! A number type is `Fdec<U, N, SCALE>`: `N` units of the unsigned type `U`
//! hold the magnitude, and the last `SCALE` decimal places are the fraction.

pub mod units;
pub mod magnitude;
pub mod wide;
pub mod division;
pub mod value;
pub mod number;
pub mod ops;
pub mod compare;
pub mod shift;
pub mod parse;
pub mod format;
pub mod text;
pub mod bytes;
pub mod convert;
pub mod math;
pub mod traits;
pub mod laws;

pub use crate::bytes::FromBytesError;
pub use crate::convert::WithScale;
pub use crate::number::Fdec;
pub use crate::parse::{ParseNumberError, StrInfo};
pub use crate::traits::Number;
pub use crate::units::{
    NumberUnit, PrimNumber, big_unit, div_rem_digit, div_wide, is_magnitude_zero,
    normalize_digits, weight,
};
pub use crate::value::Value;
