//! Mathematical functions of a number.

use vstd::prelude::*;
use crate::units::{NumberUnit, lemma_base_pow, lemma_pow10_positive};
use crate::number::Fdec;
use crate::value::{Value, signed, abs_int, add_value, mul_value, div_value, shr_value, eq_value};

verus! {

/// The fraction part: the value less its whole part. Special values stay.
pub open spec fn fract_value(a: Value, one: int) -> Value {
    match a {
        Value::Finite(m) => Value::Finite(signed(m < 0, abs_int(m) % one)),
        _ => a,
    }
}

/// The whole part: the value rounded towards zero. Special values stay.
pub open spec fn trunc_value(a: Value, one: int) -> Value {
    match a {
        Value::Finite(m) => Value::Finite(signed(m < 0, (abs_int(m) / one) * one)),
        _ => a,
    }
}

/// One step of Newton's iteration for the square root of `v` at `x`: the
/// mean of `x` and `v / x`.
pub open spec fn newton_step(v: Value, x: Value, limit: int, one: int) -> Value {
    shr_value(add_value(x, div_value(v, x, limit, one), limit), 1)
}

/// Newton's iteration from `x`, whose predecessor was `prev`, until a value
/// repeats or `n` steps are made.
pub open spec fn newton(v: Value, x: Value, prev: Value, n: nat, limit: int, one: int) -> Value
    decreases n,
{
    if n == 0 || eq_value(x, prev) {
        x
    } else {
        newton(v, newton_step(v, x, limit, one), x, (n - 1) as nat, limit, one)
    }
}

/// The square root: NaN and infinity stay, a negative value gives NaN, and
/// another value gives what Newton's iteration from its half ends in after
/// 100 steps at most.
pub open spec fn sqrt_value(v: Value, limit: int, one: int) -> Value {
    if v is Nan || v is Infinity {
        v
    } else if v.is_negative() {
        Value::Nan
    } else {
        newton(v, shr_value(v, 1), Value::Finite(0), 100, limit, one)
    }
}

/// The power by squaring: `res` times `mul` to the `m`, each product
/// rounded as a product of numbers is.
pub open spec fn power_loop(res: Value, mul: Value, m: nat, limit: int, one: int) -> Value
    decreases m,
{
    if m == 0 {
        res
    } else {
        let next = if m % 2 == 1 {
            mul_value(res, mul, limit, one)
        } else {
            res
        };
        if m / 2 == 0 {
            next
        } else {
            power_loop(next, mul_value(mul, mul, limit, one), m / 2, limit, one)
        }
    }
}

/// The power with an exponent that is not negative: one for the exponent
/// zero, unless the base is NaN; an infinity to a positive exponent is
/// itself, and infinity for negative infinity to an even one.
pub open spec fn power_value(a: Value, m: nat, limit: int, one: int) -> Value {
    match a {
        Value::Nan => Value::Nan,
        _ => if m == 0 {
            Value::Finite(one)
        } else {
            match a {
                Value::Infinity => Value::Infinity,
                Value::NegInfinity => if m % 2 == 1 {
                    Value::NegInfinity
                } else {
                    Value::Infinity
                },
                _ => power_loop(Value::Finite(one), a, m, limit, one),
            }
        },
    }
}

/// The power with an integer exponent. A negative exponent gives zero for
/// an infinity, infinity for zero, and else the power of the reciprocal to
/// the opposite exponent.
pub open spec fn powi_value(a: Value, n: int, limit: int, one: int) -> Value {
    if n >= 0 {
        power_value(a, n as nat, limit, one)
    } else {
        match a {
            Value::Nan => Value::Nan,
            Value::Finite(m) => if m == 0 {
                Value::Infinity
            } else {
                let rev = div_value(Value::Finite(one), a, limit, one);
                if n == i32::MIN {
                    div_value(power_value(rev, (-(n + 1)) as nat, limit, one), a, limit, one)
                } else {
                    power_value(rev, (-n) as nat, limit, one)
                }
            },
            _ => Value::Finite(0),
        }
    }
}

impl<U: NumberUnit, const N: usize, const SCALE: usize> Fdec<U, N, SCALE> {
    /// Returns the fraction part of the number.
    pub fn fract(&self) -> (r: Self)
        requires
            Self::valid_params(),
            self.wf(),
        ensures
            r.wf(),
            r@ == fract_value(self@, Self::one_units()),
    {
        proof {
            self.lemma_view();
            lemma_pow10_positive(SCALE as nat);
            lemma_base_pow::<U>(N as nat);
            let a = abs_int(self@.units());
            let one = Self::one_units();
            vstd::arithmetic::div_mod::lemma_fundamental_div_mod(a, one);
            vstd::arithmetic::div_mod::lemma_mod_bound(a, one);
            vstd::arithmetic::div_mod::lemma_div_pos_is_pos(a, one);
            assert((a / one) * one <= a) by (nonlinear_arith)
                requires
                    a == one * (a / one) + a % one,
                    a % one >= 0,
            ;
            vstd::arithmetic::div_mod::lemma_small_mod(0, one as nat);
            assert(abs_int(one) == one);
        }
        if self.is_special() || self.is_zero() {
            *self
        } else {
            *self % Self::one()
        }
    }

    /// Returns the integral part of the number.
    pub fn trunc(&self) -> (r: Self)
        requires
            Self::valid_params(),
            self.wf(),
        ensures
            r.wf(),
            r@ == trunc_value(self@, Self::one_units()),
    {
        proof {
            self.lemma_view();
            lemma_pow10_positive(SCALE as nat);
            lemma_base_pow::<U>(N as nat);
            let a = abs_int(self@.units());
            let one = Self::one_units();
            vstd::arithmetic::div_mod::lemma_fundamental_div_mod(a, one);
            vstd::arithmetic::div_mod::lemma_mod_bound(a, one);
            vstd::arithmetic::div_mod::lemma_div_pos_is_pos(a, one);
            assert((a / one) * one == a - a % one) by (nonlinear_arith)
                requires
                    a == one * (a / one) + a % one,
            ;
            vstd::arithmetic::div_mod::lemma_basic_div(0, one);
            assert(0 * one == 0);
        }
        if self.is_special() || self.is_zero() {
            *self
        } else {
            *self - self.fract()
        }
    }

    /// Returns the square root of the number.
    pub fn sqrt(&self) -> (r: Self)
        requires
            Self::valid_params(),
            self.wf(),
        ensures
            r.wf(),
            r@ == sqrt_value(self@, Self::limit(), Self::one_units()),
    {
        if self.is_nan() || (self.is_infinite() && self.is_sign_positive()) {
            return *self;
        } else if self.is_sign_negative() {
            return Self::nan();
        }
        let max_iter: u32 = 100;
        let mut iter: u32 = 0;
        let mut x: Self = *self >> 1;
        let mut prev_x: Self = Self::zero();
        while iter < max_iter && x != prev_x
            invariant
                Self::valid_params(),
                self.wf(),
                x.wf(),
                prev_x.wf(),
                iter <= max_iter,
                max_iter == 100,
                sqrt_value(self@, Self::limit(), Self::one_units()) == newton(
                    self@,
                    x@,
                    prev_x@,
                    (max_iter - iter) as nat,
                    Self::limit(),
                    Self::one_units(),
                ),
            decreases max_iter - iter,
        {
            prev_x = x;
            x = (x + *self / x) >> 1;
            iter += 1;
        }
        x
    }

    /// The power with an exponent that is not negative.
    pub fn powu(&self, n: u32) -> (r: Self)
        requires
            Self::valid_params(),
            self.wf(),
        ensures
            r.wf(),
            r@ == power_value(self@, n as nat, Self::limit(), Self::one_units()),
    {
        if self.is_nan() {
            return *self;
        } else if n == 0 {
            return Self::one();
        } else if self.is_special() {
            return if self.is_sign_positive() || n % 2 == 1 {
                *self
            } else {
                Self::infinity()
            };
        }
        let mut res: Self = Self::one();
        let mut mul: Self = *self;
        let mut m: u32 = n;
        while m != 0
            invariant
                Self::valid_params(),
                res.wf(),
                mul.wf(),
                power_value(self@, n as nat, Self::limit(), Self::one_units()) == power_loop(
                    res@,
                    mul@,
                    m as nat,
                    Self::limit(),
                    Self::one_units(),
                ),
            decreases m,
        {
            if m % 2 == 1 {
                res = res * mul;
            }
            m = m / 2;
            if m != 0 {
                mul = mul * mul;
            }
        }
        res
    }

    /// Returns the number raised to the given integer power.
    pub fn powi(&self, n: i32) -> (r: Self)
        requires
            Self::valid_params(),
            self.wf(),
        ensures
            r.wf(),
            r@ == powi_value(self@, n as int, Self::limit(), Self::one_units()),
    {
        if n >= 0 {
            return self.powu(n as u32);
        }
        // Handle special cases

        if self.is_special() {
            if self.is_nan() {
                *self
            } else {
                Self::zero()
            }
        } else if self.is_zero() {
            Self::infinity()
        } else if n == i32::MIN {
            // Prevent overflow when switching from min_value
            let rev = Self::one() / *self;
            rev.powu((-(n + 1)) as u32) / *self
        } else {
            let rev = Self::one() / *self;
            rev.powu((-n) as u32)
        }
    }
}

} // verus!
