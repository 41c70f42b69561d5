//! The arithmetic operators of a number.

use vstd::prelude::*;
use vstd::std_specs::ops::{
    AddSpecImpl, SubSpecImpl, MulSpecImpl, DivSpecImpl, RemSpecImpl, NegSpecImpl,
};
use crate::units::{
    NumberUnit, PrimNumber, base_pow, mag_value, weight_of, pow10, lemma_base_pow, lemma_weight,
    lemma_mag_value_bound, lemma_mag_value_zero, lemma_base_pow_monotonic, lemma_base_pow_adds,
    lemma_pow10_positive,
};
use crate::magnitude::{
    MagnitudeOrder, compare_magnitudes, add_magnitude, sub_from_greater, lemma_high_zero,
};
use crate::wide::{Wide, multiply, length_fits};
use crate::division::{DivProduct, divide, divide_result, quotient_too_long};
use crate::number::{Fdec, FLAG_NEGATIVE};
use crate::value::{
    signed, bounded, abs_int, neg_value, add_value, sub_value, mul_value, div_value, rem_value,
};

verus! {

/// The product of two counts by their signs and absolute values.
pub proof fn lemma_signed_product(x: int, y: int)
    ensures
        abs_int(x * y) == abs_int(x) * abs_int(y),
        (x != 0 && y != 0) ==> ((x * y < 0) <==> ((x < 0) != (y < 0))),
        (x == 0 || y == 0) ==> x * y == 0,
{
    assert(abs_int(x * y) == abs_int(x) * abs_int(y)) by (nonlinear_arith);
    assert((x != 0 && y != 0) ==> ((x * y < 0) <==> ((x < 0) != (y < 0)))) by (nonlinear_arith);
    assert((x == 0 || y == 0) ==> x * y == 0) by (nonlinear_arith);
}

/// A dividend too long for its divisor has a quotient at the bound or above.
pub proof fn lemma_too_long_overflows<U: NumberUnit>(dividend: Seq<U>, divisor: Seq<U>)
    requires
        quotient_too_long(dividend, divisor),
        mag_value(divisor) != 0,
    ensures
        mag_value(dividend) / mag_value(divisor) >= base_pow::<U>(divisor.len()),
{
    lemma_weight(dividend);
    lemma_weight(divisor);
    let wd = weight_of(dividend);
    let wv = weight_of(divisor);
    let n = divisor.len();
    lemma_base_pow_monotonic::<U>(wv + n, (wd - 1) as nat);
    lemma_base_pow_adds::<U>(wv, n);
    lemma_base_pow::<U>(wv);
    lemma_base_pow::<U>(n);
    let d = mag_value(dividend) as int;
    let v = mag_value(divisor) as int;
    let pv = base_pow::<U>(wv) as int;
    let pn = base_pow::<U>(n) as int;
    vstd::arithmetic::div_mod::lemma_fundamental_div_mod(d, v);
    vstd::arithmetic::div_mod::lemma_mod_bound(d, v);
    let q = d / v;
    let r = d % v;
    assert(q >= pn) by (nonlinear_arith)
        requires
            d == v * q + r,
            0 <= r < v,
            d >= pv * pn,
            0 < v < pv,
            pn > 0,
    ;
}

impl<U: NumberUnit, const N: usize, const SCALE: usize> Fdec<U, N, SCALE> {
    /// The sum of two counts given by sign and magnitude.
    pub(crate) fn add_signed(a_neg: bool, a: &[U; N], b_neg: bool, b: &[U; N]) -> (r: Self)
        ensures
            r.wf(),
            r@ == bounded(
                signed(a_neg, mag_value(a@) as int) + signed(b_neg, mag_value(b@) as int),
                Self::limit(),
            ),
    {
        proof {
            lemma_mag_value_bound(a@);
            lemma_mag_value_bound(b@);
            lemma_base_pow::<U>(N as nat);
        }
        if a_neg == b_neg {
            // Add magnitudes
            let mut magnitude = *a;
            let carry = add_magnitude(&mut magnitude, b);
            proof {
                lemma_mag_value_bound(magnitude@);
                let c = carry.to_nat() as int;
                let lim = Self::limit();
                assert(c == 0 ==> c * lim == 0) by (nonlinear_arith);
                assert(c == 1 ==> c * lim == lim) by (nonlinear_arith);
            }
            if carry.widen() != 0 {
                Self::signed_inf(a_neg)
            } else {
                Self::with_sign(a_neg, magnitude)
            }
        } else {
            // Subtract from bigger magnitude
            match compare_magnitudes(a, b) {
                MagnitudeOrder::Equal => Self::zero(),
                MagnitudeOrder::Greater => {
                    let mut mg = *a;
                    sub_from_greater(&mut mg, b);
                    Self::with_sign(a_neg, mg)
                },
                MagnitudeOrder::Less => {
                    let mut mg = *b;
                    sub_from_greater(&mut mg, a);
                    Self::with_sign(b_neg, mg)
                },
            }
        }
    }

    /// The magnitude of the number one.
    pub(crate) fn one_magnitude() -> (r: [U; N])
        requires
            Self::valid_params(),
        ensures
            mag_value(r@) == pow10(SCALE as nat),
            mag_value(r@) != 0,
    {
        let one = Self::one();
        proof {
            one.lemma_repr();
            one.lemma_view();
            lemma_pow10_positive(SCALE as nat);
        }
        one.magnitude
    }

    /// The number of the sign `neg` whose magnitude is the quotient of a
    /// division, or the infinity of that sign if the quotient does not fit.
    pub(crate) fn from_quotient(
        neg: bool,
        div: DivProduct<U, N>,
        Ghost(dividend): Ghost<Seq<U>>,
        Ghost(divisor): Ghost<Seq<U>>,
    ) -> (r: Self)
        requires
            length_fits(N as nat),
            divisor.len() == N,
            mag_value(divisor) != 0,
            divide_result(dividend, divisor, div),
        ensures
            r.wf(),
            r@ == bounded(
                signed(neg, (mag_value(dividend) / mag_value(divisor)) as int),
                Self::limit(),
            ),
    {
        proof {
            lemma_base_pow::<U>(N as nat);
        }
        match div {
            DivProduct::Infinity => {
                proof {
                    lemma_too_long_overflows(dividend, divisor);
                }
                Self::signed_inf(neg)
            },
            DivProduct::Normal { quot, rem: _ } => {
                proof {
                    lemma_weight(quot@);
                }
                let w = quot.weight();
                if w > N {
                    proof {
                        lemma_base_pow_monotonic::<U>(N as nat, (w - 1) as nat);
                    }
                    Self::signed_inf(neg)
                } else {
                    proof {
                        lemma_base_pow_monotonic::<U>(w as nat, N as nat);
                        lemma_high_zero(quot@, N as int);
                    }
                    Self::with_sign(neg, quot.low())
                }
            },
        }
    }
}

impl<U: NumberUnit, const N: usize, const SCALE: usize> NegSpecImpl for Fdec<U, N, SCALE> {
    open spec fn obeys_neg_spec() -> bool {
        true
    }

    open spec fn neg_req(self) -> bool {
        self.wf()
    }

    open spec fn neg_spec(self) -> Self {
        choose|x: Self| x.wf() && x@ == neg_value(self@)
    }
}

impl<U: NumberUnit, const N: usize, const SCALE: usize> core::ops::Neg for Fdec<U, N, SCALE> {
    type Output = Self;

    /// The number with the sign flipped; NaN and zero stay.
    fn neg(self) -> (r: Self)
        ensures
            r.wf(),
            r@ == neg_value(self@),
    {
        let r = self.negate();
        proof {
            r.lemma_unique(choose|x: Self| x.wf() && x@ == neg_value(self@));
        }
        r
    }
}

impl<U: NumberUnit, const N: usize, const SCALE: usize> AddSpecImpl for Fdec<U, N, SCALE> {
    open spec fn obeys_add_spec() -> bool {
        true
    }

    open spec fn add_req(self, rhs: Self) -> bool {
        self.wf() && rhs.wf()
    }

    open spec fn add_spec(self, rhs: Self) -> Self {
        choose|x: Self| x.wf() && x@ == add_value(self@, rhs@, Self::limit())
    }
}

impl<U: NumberUnit, const N: usize, const SCALE: usize> core::ops::Add for Fdec<U, N, SCALE> {
    type Output = Self;

    fn add(self, rhs: Self) -> (r: Self)
        ensures
            r.wf(),
            r@ == add_value(self@, rhs@, Self::limit()),
    {
        proof {
            self.lemma_repr();
            rhs.lemma_repr();
            self.lemma_view();
            rhs.lemma_view();
        }
        let r = if self.is_special() || rhs.is_special() {
            if self.is_nan() || rhs.is_nan() {
                Self::nan()
            } else {
                let s_inf = self.is_infinite();
                let r_inf = rhs.is_infinite();
                if s_inf && !r_inf {
                    self
                } else if !s_inf && r_inf {
                    rhs
                } else if self.flags == rhs.flags {
                    self
                } else {
                    Self::nan()
                }
            }
        } else {
            Self::add_signed(
                self.flags == FLAG_NEGATIVE,
                &self.magnitude,
                rhs.flags == FLAG_NEGATIVE,
                &rhs.magnitude,
            )
        };
        proof {
            r.lemma_unique(choose|x: Self| x.wf() && x@ == add_value(self@, rhs@, Self::limit()));
        }
        r
    }
}

impl<U: NumberUnit, const N: usize, const SCALE: usize> SubSpecImpl for Fdec<U, N, SCALE> {
    open spec fn obeys_sub_spec() -> bool {
        true
    }

    open spec fn sub_req(self, rhs: Self) -> bool {
        self.wf() && rhs.wf()
    }

    open spec fn sub_spec(self, rhs: Self) -> Self {
        choose|x: Self| x.wf() && x@ == sub_value(self@, rhs@, Self::limit())
    }
}

impl<U: NumberUnit, const N: usize, const SCALE: usize> core::ops::Sub for Fdec<U, N, SCALE> {
    type Output = Self;

    fn sub(self, rhs: Self) -> (r: Self)
        ensures
            r.wf(),
            r@ == sub_value(self@, rhs@, Self::limit()),
    {
        proof {
            self.lemma_repr();
            rhs.lemma_repr();
            self.lemma_view();
            rhs.lemma_view();
        }
        let r = if self.is_special() || rhs.is_special() {
            if self.is_nan() || rhs.is_nan() {
                Self::nan()
            } else {
                let s_inf = self.is_infinite();
                let r_inf = rhs.is_infinite();
                if s_inf && !r_inf {
                    self
                } else if !s_inf && r_inf {
                    rhs.negate()
                } else if self.flags == rhs.flags {
                    Self::nan()
                } else {
                    self
                }
            }
        } else {
            Self::add_signed(
                self.flags == FLAG_NEGATIVE,
                &self.magnitude,
                rhs.flags != FLAG_NEGATIVE,
                &rhs.magnitude,
            )
        };
        proof {
            r.lemma_unique(choose|x: Self| x.wf() && x@ == sub_value(self@, rhs@, Self::limit()));
        }
        r
    }
}

impl<U: NumberUnit, const N: usize, const SCALE: usize> MulSpecImpl for Fdec<U, N, SCALE> {
    open spec fn obeys_mul_spec() -> bool {
        true
    }

    open spec fn mul_req(self, rhs: Self) -> bool {
        Self::valid_params() && self.wf() && rhs.wf()
    }

    open spec fn mul_spec(self, rhs: Self) -> Self {
        choose|x: Self| x.wf() && x@ == mul_value(self@, rhs@, Self::limit(), Self::one_units())
    }
}

impl<U: NumberUnit, const N: usize, const SCALE: usize> core::ops::Mul for Fdec<U, N, SCALE> {
    type Output = Self;

    fn mul(self, rhs: Self) -> (r: Self)
        ensures
            r.wf(),
            r@ == mul_value(self@, rhs@, Self::limit(), Self::one_units()),
    {
        proof {
            self.lemma_repr();
            rhs.lemma_repr();
            self.lemma_view();
            rhs.lemma_view();
        }
        // Handle special cases
        let r = if self.is_special() || rhs.is_special() {
            if self.is_nan() || rhs.is_nan() || self.is_zero() || rhs.is_zero() {
                Self::nan()
            } else {
                Self::signed_inf(self.is_sign_positive() != rhs.is_sign_positive())
            }
        } else {
            // Multiply magnitudes
            let mw = multiply(&self.magnitude, &rhs.magnitude);
            // Round the result
            let neg = self.is_sign_positive() != rhs.is_sign_positive();
            let one = Self::one_magnitude();
            let div = divide(&mw, &one);
            proof {
                lemma_signed_product(self@.units(), rhs@.units());
                let q = mag_value(mw@) as int / mag_value(one@) as int;
                if self@.units() == 0 || rhs@.units() == 0 {
                    vstd::arithmetic::div_mod::lemma_basic_div(0, mag_value(one@) as int);
                }
                vstd::arithmetic::div_mod::lemma_div_pos_is_pos(
                    mag_value(mw@) as int,
                    mag_value(one@) as int,
                );
            }
            Self::from_quotient(neg, div, Ghost(mw@), Ghost(one@))
        };
        proof {
            r.lemma_unique(
                choose|x: Self|
                    x.wf() && x@ == mul_value(self@, rhs@, Self::limit(), Self::one_units()),
            );
        }
        r
    }
}

impl<U: NumberUnit, const N: usize, const SCALE: usize> DivSpecImpl for Fdec<U, N, SCALE> {
    open spec fn obeys_div_spec() -> bool {
        true
    }

    open spec fn div_req(self, rhs: Self) -> bool {
        Self::valid_params() && self.wf() && rhs.wf()
    }

    open spec fn div_spec(self, rhs: Self) -> Self {
        choose|x: Self| x.wf() && x@ == div_value(self@, rhs@, Self::limit(), Self::one_units())
    }
}

impl<U: NumberUnit, const N: usize, const SCALE: usize> core::ops::Div for Fdec<U, N, SCALE> {
    type Output = Self;

    fn div(self, rhs: Self) -> (r: Self)
        ensures
            r.wf(),
            r@ == div_value(self@, rhs@, Self::limit(), Self::one_units()),
    {
        proof {
            self.lemma_repr();
            rhs.lemma_repr();
            self.lemma_view();
            rhs.lemma_view();
        }
        // Handle special cases
        let r = if self.is_special() {
            if self.is_nan() || rhs.is_special() {
                Self::nan()
            } else {
                self
            }
        } else if rhs.is_special() {
            if rhs.is_nan() {
                Self::nan()
            } else {
                Self::zero()
            }
        } else if rhs.is_zero() {
            if self.is_zero() {
                Self::nan()
            } else {
                Self::signed_inf(self.is_sign_negative())
            }
        } else {
            // Move dividend's point right by SCALE positions
            let one = Self::one_magnitude();
            let dividend = multiply(&self.magnitude, &one);
            // Actually divide
            let neg = self.is_sign_positive() != rhs.is_sign_positive();
            let div = divide(&dividend, &rhs.magnitude);
            Self::from_quotient(neg, div, Ghost(dividend@), Ghost(rhs.magnitude@))
        };
        proof {
            r.lemma_unique(
                choose|x: Self|
                    x.wf() && x@ == div_value(self@, rhs@, Self::limit(), Self::one_units()),
            );
        }
        r
    }
}

impl<U: NumberUnit, const N: usize, const SCALE: usize> RemSpecImpl for Fdec<U, N, SCALE> {
    open spec fn obeys_rem_spec() -> bool {
        true
    }

    open spec fn rem_req(self, rhs: Self) -> bool {
        Self::valid_params() && self.wf() && rhs.wf()
    }

    open spec fn rem_spec(self, rhs: Self) -> Self {
        choose|x: Self| x.wf() && x@ == rem_value(self@, rhs@, Self::limit(), Self::one_units())
    }
}

impl<U: NumberUnit, const N: usize, const SCALE: usize> core::ops::Rem for Fdec<U, N, SCALE> {
    type Output = Self;

    fn rem(self, rhs: Self) -> (r: Self)
        ensures
            r.wf(),
            r@ == rem_value(self@, rhs@, Self::limit(), Self::one_units()),
    {
        proof {
            self.lemma_repr();
            rhs.lemma_repr();
            self.lemma_view();
            rhs.lemma_view();
            lemma_base_pow::<U>(N as nat);
        }
        // Handle special cases
        let r = if self.is_special() {
            Self::nan()
        } else if rhs.is_special() {
            if rhs.is_nan() {
                Self::nan()
            } else {
                self
            }
        } else if rhs.is_zero() {
            Self::nan()
        } else {
            // The whole part of the quotient
            let dividend = Wide::from_low(&self.magnitude);
            proof {
                lemma_weight(dividend@);
                lemma_weight(rhs.magnitude@);
                lemma_mag_value_zero(rhs.magnitude@);
                lemma_mag_value_bound(self.magnitude@);
                lemma_high_zero(dividend@, N as int);
            }
            let neg = self.is_sign_positive() != rhs.is_sign_positive();
            match divide(&dividend, &rhs.magnitude) {
                DivProduct::Infinity => Self::signed_inf(neg),
                DivProduct::Normal { quot, rem: _ } => {
                    let ghost a = mag_value(self.magnitude@) as int;
                    let ghost b = mag_value(rhs.magnitude@) as int;
                    proof {
                        vstd::arithmetic::div_mod::lemma_fundamental_div_mod(a, b);
                        vstd::arithmetic::div_mod::lemma_mod_bound(a, b);
                        vstd::arithmetic::div_mod::lemma_div_pos_is_pos(a, b);
                        let t = a / b;
                        assert(t <= a) by (nonlinear_arith)
                            requires
                                a == b * t + a % b,
                                a % b >= 0,
                                b >= 1,
                                t >= 0,
                        ;
                        lemma_high_zero(quot@, N as int);
                    }
                    let whole = quot.low();
                    // Does the whole part, as a number, fit?
                    let one = Self::one_magnitude();
                    let scaled = multiply(&whole, &one);
                    proof {
                        lemma_weight(scaled@);
                    }
                    let w = scaled.weight();
                    if w > N {
                        proof {
                            lemma_base_pow_monotonic::<U>(N as nat, (w - 1) as nat);
                        }
                        Self::signed_inf(neg)
                    } else {
                        proof {
                            lemma_base_pow_monotonic::<U>(w as nat, N as nat);
                        }
                        // The dividend less the whole part times the divisor
                        let z = multiply(&whole, &rhs.magnitude);
                        proof {
                            let t = a / b;
                            assert(t * b <= a) by (nonlinear_arith)
                                requires
                                    a == b * t + a % b,
                                    a % b >= 0,
                            ;
                            lemma_high_zero(z@, N as int);
                            assert(a - t * b == a % b) by (nonlinear_arith)
                                requires
                                    a == b * t + a % b,
                            ;
                        }
                        let zl = z.low();
                        let mut mg = self.magnitude;
                        sub_from_greater(&mut mg, &zl);
                        Self::with_sign(self.is_sign_negative(), mg)
                    }
                },
            }
        };
        proof {
            r.lemma_unique(
                choose|x: Self|
                    x.wf() && x@ == rem_value(self@, rhs@, Self::limit(), Self::one_units()),
            );
        }
        r
    }
}

impl<U: NumberUnit, const N: usize, const SCALE: usize> Fdec<U, N, SCALE> {
    /// Replaces the number by its sum with `rhs`.
    pub fn add_assign(&mut self, rhs: Self)
        requires
            old(self).wf(),
            rhs.wf(),
        ensures
            final(self).wf(),
            final(self)@ == add_value(old(self)@, rhs@, Self::limit()),
    {
        let res = *self + rhs;
        *self = res;
    }

    /// Replaces the number by its difference with `rhs`.
    pub fn sub_assign(&mut self, rhs: Self)
        requires
            old(self).wf(),
            rhs.wf(),
        ensures
            final(self).wf(),
            final(self)@ == sub_value(old(self)@, rhs@, Self::limit()),
    {
        let res = *self - rhs;
        *self = res;
    }

    /// Replaces the number by its product with `rhs`.
    pub fn mul_assign(&mut self, rhs: Self)
        requires
            Self::valid_params(),
            old(self).wf(),
            rhs.wf(),
        ensures
            final(self).wf(),
            final(self)@ == mul_value(old(self)@, rhs@, Self::limit(), Self::one_units()),
    {
        let res = *self * rhs;
        *self = res;
    }

    /// Replaces the number by its quotient by `rhs`.
    pub fn div_assign(&mut self, rhs: Self)
        requires
            Self::valid_params(),
            old(self).wf(),
            rhs.wf(),
        ensures
            final(self).wf(),
            final(self)@ == div_value(old(self)@, rhs@, Self::limit(), Self::one_units()),
    {
        let res = *self / rhs;
        *self = res;
    }

    /// Replaces the number by its remainder by `rhs`.
    pub fn rem_assign(&mut self, rhs: Self)
        requires
            Self::valid_params(),
            old(self).wf(),
            rhs.wf(),
        ensures
            final(self).wf(),
            final(self)@ == rem_value(old(self)@, rhs@, Self::limit(), Self::one_units()),
    {
        let res = *self % rhs;
        *self = res;
    }
}

} // verus!
