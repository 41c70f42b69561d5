//! Numbers from primitive integers.

use vstd::prelude::*;
use vstd::std_specs::convert::FromSpecImpl;
use crate::units::{
    NumberUnit, PrimNumber, base, base_pow, mag_value, pow10, lemma_base, lemma_base_pow,
    lemma_pow10_positive,
};
use crate::magnitude::{lemma_update_step, lemma_zero_above};
use crate::number::Fdec;
use crate::value::{Value, signed, bounded};

verus! {

/// Trait of types that can create values from other types with scaling.
pub trait WithScale<T>: Sized {
    /// The scales that the type takes: those up to its own.
    spec fn scale_fits(scale: usize) -> bool;

    /// `r` is the number with the count `v` of units of the decimal place
    /// `scale`.
    spec fn scaled(v: T, scale: usize, r: Self) -> bool;

    /// Creates a number from the given value, applying the given scale to it.
    fn with_scale(v: T, scale: usize) -> (r: Self)
        requires
            Self::scale_fits(scale),
        ensures
            Self::scaled(v, scale, r),
    ;
}

/// The absolute value of a signed primitive as an unsigned one.
pub fn unsigned_abs(v: i64) -> (r: u64)
    ensures
        r == crate::value::abs_int(v as int),
{
    if v > 0 {
        v as u64
    } else if v == i64::MIN {
        // Prevent overflow
        let uv = (-(v + 1)) as u64;
        uv + 1
    } else {
        (-v) as u64
    }
}

impl<U: NumberUnit, const N: usize, const SCALE: usize> Fdec<U, N, SCALE> {
    /// What a count of units of a decimal place stands for: the count times
    /// ten to the places that the scale has more, or the infinity of its
    /// sign where that does not fit.
    pub open spec fn scaled_value(v: int, scale: usize) -> Value {
        bounded(v * pow10((SCALE - scale) as nat), Self::limit())
    }

    /// The number with the sign `neg` and the absolute count `v` of units
    /// of the decimal place `scale`.
    pub fn from_parts(neg: bool, v: u64, scale: usize) -> (r: Self)
        requires
            scale <= SCALE,
        ensures
            r.wf(),
            r@ == Self::scaled_value(signed(neg, v as int), scale),
    {
        let radix: u128 = U::radix();
        let mut vv: u128 = v as u128;
        let mut i: usize = 0;
        let mut mag = Self::zero_magnitude();
        let ghost p10 = pow10((SCALE - scale) as nat) as int;
        proof {
            lemma_base::<U>();
            lemma_base_pow::<U>(0);
            lemma_pow10_positive((SCALE - scale) as nat);
            assert(mag@.take(0) =~= Seq::<U>::empty());
            assert(mag_value(Seq::<U>::empty()) == 0);
            assert(signed(neg, v as int) * p10 == signed(neg, v * p10)) by (nonlinear_arith);
            assert(v * p10 >= v) by (nonlinear_arith)
                requires
                    v >= 0,
                    p10 >= 1,
            ;
        }
        while vv != 0 && i < N
            invariant
                i <= N,
                radix == base::<U>(),
                256 <= radix <= 0x1_0000_0000_0000_0000,
                v == vv * base_pow::<U>(i as nat) + mag_value(mag@.take(i as int)),
                forall|k: int| i <= k < N ==> (#[trigger] mag@[k]).to_nat() == 0,
            decreases N - i,
        {
            let unit: U = U::narrow(vv % radix);
            let ghost prev = mag@;
            mag[i] = unit;
            proof {
                vstd::arithmetic::div_mod::lemma_fundamental_div_mod(vv as int, radix as int);
                vstd::arithmetic::div_mod::lemma_small_mod((vv % radix) as nat, base::<U>());
                lemma_update_step(prev, i as int, unit);
                lemma_base_pow::<U>(i as nat);
                let p = base_pow::<U>(i as nat) as int;
                let q = (vv / radix) as int;
                let l = (vv % radix) as int;
                assert(vv * p == q * (p * radix) + l * p) by (nonlinear_arith)
                    requires
                        vv == radix * q + l,
                ;
            }
            vv = vv / radix;
            i += 1;
        }
        proof {
            lemma_pow10_positive((SCALE - scale) as nat);
            assert(signed(neg, v as int) * p10 == signed(neg, v * p10)) by (nonlinear_arith);
            assert(v * p10 >= v) by (nonlinear_arith)
                requires
                    v >= 0,
                    p10 >= 1,
            ;
            lemma_base_pow::<U>(N as nat);
            lemma_zero_above(mag@, i as int);
            let p = base_pow::<U>(i as nat) as int;
            lemma_base_pow::<U>(i as nat);
            assert(mag@.take(N as int) =~= mag@);
            if vv != 0 {
                assert(vv * p >= p) by (nonlinear_arith)
                    requires
                        vv >= 1,
                        p >= 0,
                ;
            } else {
                assert(vv * p == 0) by (nonlinear_arith)
                    requires
                        vv == 0,
                ;
            }
        }
        if vv != 0 {
            return Self::signed_inf(neg);
        }
        let overflow = Self::move_point_right(&mut mag, SCALE - scale);
        if overflow {
            Self::signed_inf(neg)
        } else {
            Self::with_sign(neg, mag)
        }
    }
}


impl<U: NumberUnit, const N: usize, const SCALE: usize> WithScale<u8> for Fdec<U, N, SCALE> {
    open spec fn scale_fits(scale: usize) -> bool {
        scale <= SCALE
    }

    open spec fn scaled(v: u8, scale: usize, r: Self) -> bool {
        r.wf() && r@ == Self::scaled_value(v as int, scale)
    }

    fn with_scale(v: u8, scale: usize) -> (r: Self) {
        Self::from_parts(false, v as u64, scale)
    }
}

impl<U: NumberUnit, const N: usize, const SCALE: usize> FromSpecImpl<u8> for Fdec<U, N, SCALE> {
    open spec fn obeys_from_spec() -> bool {
        true
    }

    open spec fn from_spec(v: u8) -> Self {
        choose|x: Self| x.wf() && x@ == Self::scaled_value(v as int, 0)
    }
}

impl<U: NumberUnit, const N: usize, const SCALE: usize> From<u8> for Fdec<U, N, SCALE> {
    fn from(v: u8) -> (r: Self)
        ensures
            r.wf(),
            r@ == Self::scaled_value(v as int, 0),
    {
        let r = Self::from_parts(false, v as u64, 0);
        proof {
            r.lemma_unique(choose|x: Self| x.wf() && x@ == Self::scaled_value(v as int, 0));
        }
        r
    }
}

impl<U: NumberUnit, const N: usize, const SCALE: usize> WithScale<u16> for Fdec<U, N, SCALE> {
    open spec fn scale_fits(scale: usize) -> bool {
        scale <= SCALE
    }

    open spec fn scaled(v: u16, scale: usize, r: Self) -> bool {
        r.wf() && r@ == Self::scaled_value(v as int, scale)
    }

    fn with_scale(v: u16, scale: usize) -> (r: Self) {
        Self::from_parts(false, v as u64, scale)
    }
}

impl<U: NumberUnit, const N: usize, const SCALE: usize> FromSpecImpl<u16> for Fdec<U, N, SCALE> {
    open spec fn obeys_from_spec() -> bool {
        true
    }

    open spec fn from_spec(v: u16) -> Self {
        choose|x: Self| x.wf() && x@ == Self::scaled_value(v as int, 0)
    }
}

impl<U: NumberUnit, const N: usize, const SCALE: usize> From<u16> for Fdec<U, N, SCALE> {
    fn from(v: u16) -> (r: Self)
        ensures
            r.wf(),
            r@ == Self::scaled_value(v as int, 0),
    {
        let r = Self::from_parts(false, v as u64, 0);
        proof {
            r.lemma_unique(choose|x: Self| x.wf() && x@ == Self::scaled_value(v as int, 0));
        }
        r
    }
}

impl<U: NumberUnit, const N: usize, const SCALE: usize> WithScale<u32> for Fdec<U, N, SCALE> {
    open spec fn scale_fits(scale: usize) -> bool {
        scale <= SCALE
    }

    open spec fn scaled(v: u32, scale: usize, r: Self) -> bool {
        r.wf() && r@ == Self::scaled_value(v as int, scale)
    }

    fn with_scale(v: u32, scale: usize) -> (r: Self) {
        Self::from_parts(false, v as u64, scale)
    }
}

impl<U: NumberUnit, const N: usize, const SCALE: usize> FromSpecImpl<u32> for Fdec<U, N, SCALE> {
    open spec fn obeys_from_spec() -> bool {
        true
    }

    open spec fn from_spec(v: u32) -> Self {
        choose|x: Self| x.wf() && x@ == Self::scaled_value(v as int, 0)
    }
}

impl<U: NumberUnit, const N: usize, const SCALE: usize> From<u32> for Fdec<U, N, SCALE> {
    fn from(v: u32) -> (r: Self)
        ensures
            r.wf(),
            r@ == Self::scaled_value(v as int, 0),
    {
        let r = Self::from_parts(false, v as u64, 0);
        proof {
            r.lemma_unique(choose|x: Self| x.wf() && x@ == Self::scaled_value(v as int, 0));
        }
        r
    }
}

impl<U: NumberUnit, const N: usize, const SCALE: usize> WithScale<u64> for Fdec<U, N, SCALE> {
    open spec fn scale_fits(scale: usize) -> bool {
        scale <= SCALE
    }

    open spec fn scaled(v: u64, scale: usize, r: Self) -> bool {
        r.wf() && r@ == Self::scaled_value(v as int, scale)
    }

    fn with_scale(v: u64, scale: usize) -> (r: Self) {
        Self::from_parts(false, v, scale)
    }
}

impl<U: NumberUnit, const N: usize, const SCALE: usize> FromSpecImpl<u64> for Fdec<U, N, SCALE> {
    open spec fn obeys_from_spec() -> bool {
        true
    }

    open spec fn from_spec(v: u64) -> Self {
        choose|x: Self| x.wf() && x@ == Self::scaled_value(v as int, 0)
    }
}

impl<U: NumberUnit, const N: usize, const SCALE: usize> From<u64> for Fdec<U, N, SCALE> {
    fn from(v: u64) -> (r: Self)
        ensures
            r.wf(),
            r@ == Self::scaled_value(v as int, 0),
    {
        let r = Self::from_parts(false, v, 0);
        proof {
            r.lemma_unique(choose|x: Self| x.wf() && x@ == Self::scaled_value(v as int, 0));
        }
        r
    }
}

impl<U: NumberUnit, const N: usize, const SCALE: usize> WithScale<i8> for Fdec<U, N, SCALE> {
    open spec fn scale_fits(scale: usize) -> bool {
        scale <= SCALE
    }

    open spec fn scaled(v: i8, scale: usize, r: Self) -> bool {
        r.wf() && r@ == Self::scaled_value(v as int, scale)
    }

    fn with_scale(v: i8, scale: usize) -> (r: Self) {
        Self::from_parts(v < 0, unsigned_abs(v as i64), scale)
    }
}

impl<U: NumberUnit, const N: usize, const SCALE: usize> FromSpecImpl<i8> for Fdec<U, N, SCALE> {
    open spec fn obeys_from_spec() -> bool {
        true
    }

    open spec fn from_spec(v: i8) -> Self {
        choose|x: Self| x.wf() && x@ == Self::scaled_value(v as int, 0)
    }
}

impl<U: NumberUnit, const N: usize, const SCALE: usize> From<i8> for Fdec<U, N, SCALE> {
    fn from(v: i8) -> (r: Self)
        ensures
            r.wf(),
            r@ == Self::scaled_value(v as int, 0),
    {
        let r = Self::from_parts(v < 0, unsigned_abs(v as i64), 0);
        proof {
            r.lemma_unique(choose|x: Self| x.wf() && x@ == Self::scaled_value(v as int, 0));
        }
        r
    }
}

impl<U: NumberUnit, const N: usize, const SCALE: usize> WithScale<i16> for Fdec<U, N, SCALE> {
    open spec fn scale_fits(scale: usize) -> bool {
        scale <= SCALE
    }

    open spec fn scaled(v: i16, scale: usize, r: Self) -> bool {
        r.wf() && r@ == Self::scaled_value(v as int, scale)
    }

    fn with_scale(v: i16, scale: usize) -> (r: Self) {
        Self::from_parts(v < 0, unsigned_abs(v as i64), scale)
    }
}

impl<U: NumberUnit, const N: usize, const SCALE: usize> FromSpecImpl<i16> for Fdec<U, N, SCALE> {
    open spec fn obeys_from_spec() -> bool {
        true
    }

    open spec fn from_spec(v: i16) -> Self {
        choose|x: Self| x.wf() && x@ == Self::scaled_value(v as int, 0)
    }
}

impl<U: NumberUnit, const N: usize, const SCALE: usize> From<i16> for Fdec<U, N, SCALE> {
    fn from(v: i16) -> (r: Self)
        ensures
            r.wf(),
            r@ == Self::scaled_value(v as int, 0),
    {
        let r = Self::from_parts(v < 0, unsigned_abs(v as i64), 0);
        proof {
            r.lemma_unique(choose|x: Self| x.wf() && x@ == Self::scaled_value(v as int, 0));
        }
        r
    }
}

impl<U: NumberUnit, const N: usize, const SCALE: usize> WithScale<i32> for Fdec<U, N, SCALE> {
    open spec fn scale_fits(scale: usize) -> bool {
        scale <= SCALE
    }

    open spec fn scaled(v: i32, scale: usize, r: Self) -> bool {
        r.wf() && r@ == Self::scaled_value(v as int, scale)
    }

    fn with_scale(v: i32, scale: usize) -> (r: Self) {
        Self::from_parts(v < 0, unsigned_abs(v as i64), scale)
    }
}

impl<U: NumberUnit, const N: usize, const SCALE: usize> FromSpecImpl<i32> for Fdec<U, N, SCALE> {
    open spec fn obeys_from_spec() -> bool {
        true
    }

    open spec fn from_spec(v: i32) -> Self {
        choose|x: Self| x.wf() && x@ == Self::scaled_value(v as int, 0)
    }
}

impl<U: NumberUnit, const N: usize, const SCALE: usize> From<i32> for Fdec<U, N, SCALE> {
    fn from(v: i32) -> (r: Self)
        ensures
            r.wf(),
            r@ == Self::scaled_value(v as int, 0),
    {
        let r = Self::from_parts(v < 0, unsigned_abs(v as i64), 0);
        proof {
            r.lemma_unique(choose|x: Self| x.wf() && x@ == Self::scaled_value(v as int, 0));
        }
        r
    }
}

impl<U: NumberUnit, const N: usize, const SCALE: usize> WithScale<i64> for Fdec<U, N, SCALE> {
    open spec fn scale_fits(scale: usize) -> bool {
        scale <= SCALE
    }

    open spec fn scaled(v: i64, scale: usize, r: Self) -> bool {
        r.wf() && r@ == Self::scaled_value(v as int, scale)
    }

    fn with_scale(v: i64, scale: usize) -> (r: Self) {
        Self::from_parts(v < 0, unsigned_abs(v), scale)
    }
}

impl<U: NumberUnit, const N: usize, const SCALE: usize> FromSpecImpl<i64> for Fdec<U, N, SCALE> {
    open spec fn obeys_from_spec() -> bool {
        true
    }

    open spec fn from_spec(v: i64) -> Self {
        choose|x: Self| x.wf() && x@ == Self::scaled_value(v as int, 0)
    }
}

impl<U: NumberUnit, const N: usize, const SCALE: usize> From<i64> for Fdec<U, N, SCALE> {
    fn from(v: i64) -> (r: Self)
        ensures
            r.wf(),
            r@ == Self::scaled_value(v as int, 0),
    {
        let r = Self::from_parts(v < 0, unsigned_abs(v), 0);
        proof {
            r.lemma_unique(choose|x: Self| x.wf() && x@ == Self::scaled_value(v as int, 0));
        }
        r
    }
}

} // verus!
