//! The trait of the numeric types.

use vstd::prelude::*;
use crate::units::NumberUnit;
use crate::number::Fdec;
use crate::convert::WithScale;
use crate::value::{Value, abs_value};
use crate::math::{fract_value, trunc_value, sqrt_value, powi_value};

verus! {

/// Trait that is implemented by all numeric types of this library.
pub trait Number:
    Sized
    + Default
    + PartialEq
    + PartialOrd
    + core::ops::Neg<Output = Self>
    + core::ops::Add<Output = Self>
    + core::ops::Sub<Output = Self>
    + core::ops::Mul<Output = Self>
    + core::ops::Div<Output = Self>
    + core::ops::Rem<Output = Self>
    + From<u8>
    + From<u16>
    + From<u32>
    + From<u64>
    + WithScale<u8>
    + WithScale<u16>
    + WithScale<u32>
    + WithScale<u64>
    + core::ops::Shr<usize>
{
    /// Number of decimal places in numbers.
    spec fn places() -> nat;

    /// Number of units that are used to store numbers.
    spec fn units() -> nat;

    /// The parameters of the type are those of a numeric type.
    spec fn valid() -> bool;

    /// The bound of the magnitudes.
    spec fn bound() -> int;

    /// The number holds what every number holds.
    spec fn well_formed(&self) -> bool;

    /// What the number stands for.
    spec fn value(&self) -> Value;

    /// Number of decimal places in numbers.
    fn scale() -> (r: usize)
        ensures
            r == Self::places(),
    ;

    /// Number of units that are used to store numbers.
    fn length() -> (r: usize)
        ensures
            r == Self::units(),
    ;

    /// Returns the zero value.
    fn zero() -> (r: Self)
        ensures
            r.well_formed(),
            r.value() == Value::Finite(0),
    ;

    /// Returns the `1` value.
    fn one() -> (r: Self)
        requires
            Self::valid(),
        ensures
            r.well_formed(),
            r.value() == Value::Finite(crate::units::pow10(Self::places()) as int),
    ;

    /// Returns the smallest positive value.
    fn ulp() -> (r: Self)
        requires
            Self::valid(),
        ensures
            r.well_formed(),
            r.value() == Value::Finite(1),
    ;

    /// Returns the largest normal value.
    fn max() -> (r: Self)
        requires
            Self::valid(),
        ensures
            r.well_formed(),
            r.value() == Value::Finite(Self::bound() - 1),
    ;

    /// Returns the smallest normal value.
    fn min() -> (r: Self)
        requires
            Self::valid(),
        ensures
            r.well_formed(),
            r.value() == Value::Finite(1 - Self::bound()),
    ;

    /// Returns the value that represents positive infinity.
    fn infinity() -> (r: Self)
        ensures
            r.well_formed(),
            r.value() == Value::Infinity,
    ;

    /// Returns the value that represents negative infinity.
    fn neg_infinity() -> (r: Self)
        ensures
            r.well_formed(),
            r.value() == Value::NegInfinity,
    ;

    /// Returns the value that represents NaN (Not a Number).
    fn nan() -> (r: Self)
        ensures
            r.well_formed(),
            r.value() == Value::Nan,
    ;

    /// Returns `true` if the number is negative (including -Infinity) and
    /// `false` if the number is zero or positive.
    fn is_sign_negative(&self) -> (r: bool)
        requires
            self.well_formed(),
        ensures
            r == self.value().is_negative(),
    ;

    /// Returns `true` if the number is zero or positive (including
    /// +Infinity) and `false` if the number is negative.
    fn is_sign_positive(&self) -> (r: bool)
        requires
            self.well_formed(),
        ensures
            r == !self.value().is_negative(),
    ;

    /// Returns `true` if this value is positive infinity or negative
    /// infinity and `false` otherwise.
    fn is_infinite(&self) -> (r: bool)
        requires
            self.well_formed(),
        ensures
            r == self.value().is_infinite(),
    ;

    /// Returns `true` if this value is NaN (Not a Number) and `false` otherwise.
    fn is_nan(&self) -> (r: bool)
        requires
            self.well_formed(),
        ensures
            r == (self.value() is Nan),
    ;

    /// Returns `true` if this values is NaN or ±Infinity.
    fn is_special(&self) -> (r: bool)
        requires
            self.well_formed(),
        ensures
            r == self.value().is_special(),
    ;

    /// Returns `true` if the number is zero.
    fn is_zero(&self) -> (r: bool)
        requires
            self.well_formed(),
        ensures
            r == self.value().is_zero(),
    ;

    /// Returns the absolute value of the number.
    fn abs(&self) -> (r: Self)
        requires
            self.well_formed(),
        ensures
            r.well_formed(),
            r.value() == abs_value(self.value()),
    ;

    /// Returns the integral part of the number.
    fn trunc(&self) -> (r: Self)
        requires
            Self::valid(),
            self.well_formed(),
        ensures
            r.well_formed(),
            r.value() == trunc_value(self.value(), crate::units::pow10(Self::places()) as int),
    ;

    /// Returns the fraction part of the number.
    fn fract(&self) -> (r: Self)
        requires
            Self::valid(),
            self.well_formed(),
        ensures
            r.well_formed(),
            r.value() == fract_value(self.value(), crate::units::pow10(Self::places()) as int),
    ;

    /// Returns the square root of the number.
    fn sqrt(&self) -> (r: Self)
        requires
            Self::valid(),
            self.well_formed(),
        ensures
            r.well_formed(),
            r.value() == sqrt_value(
                self.value(),
                Self::bound(),
                crate::units::pow10(Self::places()) as int,
            ),
    ;

    /// Returns the number raised to the given integer power.
    fn powi(&self, n: i32) -> (r: Self)
        requires
            Self::valid(),
            self.well_formed(),
        ensures
            r.well_formed(),
            r.value() == powi_value(
                self.value(),
                n as int,
                Self::bound(),
                crate::units::pow10(Self::places()) as int,
            ),
    ;
}

impl<U: NumberUnit, const N: usize, const SCALE: usize> Number for Fdec<U, N, SCALE> {
    open spec fn places() -> nat {
        SCALE as nat
    }

    open spec fn units() -> nat {
        N as nat
    }

    open spec fn valid() -> bool {
        Self::valid_params()
    }

    open spec fn bound() -> int {
        Self::limit()
    }

    open spec fn well_formed(&self) -> bool {
        self.wf()
    }

    open spec fn value(&self) -> Value {
        self@
    }

    fn scale() -> (r: usize) {
        SCALE
    }

    fn length() -> (r: usize) {
        N
    }

    fn zero() -> (r: Self) {
        Fdec::zero()
    }

    fn one() -> (r: Self) {
        Fdec::one()
    }

    fn ulp() -> (r: Self) {
        Fdec::ulp()
    }

    fn max() -> (r: Self) {
        Fdec::max()
    }

    fn min() -> (r: Self) {
        Fdec::min()
    }

    fn infinity() -> (r: Self) {
        Fdec::infinity()
    }

    fn neg_infinity() -> (r: Self) {
        Fdec::neg_infinity()
    }

    fn nan() -> (r: Self) {
        Fdec::nan()
    }

    fn is_sign_negative(&self) -> (r: bool) {
        Fdec::is_sign_negative(self)
    }

    fn is_sign_positive(&self) -> (r: bool) {
        Fdec::is_sign_positive(self)
    }

    fn is_infinite(&self) -> (r: bool) {
        Fdec::is_infinite(self)
    }

    fn is_nan(&self) -> (r: bool) {
        Fdec::is_nan(self)
    }

    fn is_special(&self) -> (r: bool) {
        Fdec::is_special(self)
    }

    fn is_zero(&self) -> (r: bool) {
        Fdec::is_zero(self)
    }

    fn abs(&self) -> (r: Self) {
        Fdec::abs(self)
    }

    fn trunc(&self) -> (r: Self) {
        Fdec::trunc(self)
    }

    fn fract(&self) -> (r: Self) {
        Fdec::fract(self)
    }

    fn sqrt(&self) -> (r: Self) {
        Fdec::sqrt(self)
    }

    fn powi(&self, n: i32) -> (r: Self) {
        Fdec::powi(self, n)
    }
}

} // verus!
