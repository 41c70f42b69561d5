//! The number: a set of flags and a magnitude, and what they stand for.

use vstd::prelude::*;
use crate::units::{
    NumberUnit, PrimNumber, base, base_pow, mag_value, all_zero, pow10, is_magnitude_zero,
    lemma_base, lemma_base_pow, lemma_mag_value_bound, lemma_mag_value_zero, lemma_pow10_positive,
    lemma_pow10_adds,
};
use crate::magnitude::{lemma_mag_value_injective, lemma_take_step, multiply_by_unit};
use crate::wide::length_fits;
use crate::value::{Value, signed, signed_infinity, bounded, neg_value, abs_value};

verus! {

/// The flags of a number that is zero or positive.
pub const FLAGS_NO: u8 = 0;

/// The flag of a negative number and of negative infinity.
pub const FLAG_NEGATIVE: u8 = 1;

/// The flag of NaN.
pub const FLAG_NAN: u8 = 2;

/// The flag of an infinity.
pub const FLAG_INFINITY: u8 = 4;

/// The flags of negative infinity: those of infinity and of a negative
/// number.
pub const FLAGS_NEG_INFINITY: u8 = 5;

/// The flags of the special values: that of NaN and that of infinity.
pub const FLAGS_SPECIAL: u8 = 6;

/// What the bits of the flags of a number say.
pub proof fn lemma_flag_tests(f: u8)
    requires
        f == FLAGS_NO || f == FLAG_NEGATIVE || f == FLAG_NAN || f == FLAG_INFINITY || f
            == FLAGS_NEG_INFINITY,
    ensures
        f & FLAG_NEGATIVE != 0 <==> (f == FLAG_NEGATIVE || f == FLAGS_NEG_INFINITY),
        f & FLAG_INFINITY != 0 <==> (f == FLAG_INFINITY || f == FLAGS_NEG_INFINITY),
        f & FLAG_NAN != 0 <==> f == FLAG_NAN,
        f & FLAGS_SPECIAL != 0 <==> f >= 2,
        f == FLAGS_NO ==> f ^ FLAG_NEGATIVE == FLAG_NEGATIVE,
        f == FLAG_NEGATIVE ==> f ^ FLAG_NEGATIVE == FLAGS_NO,
        f == FLAG_INFINITY ==> f ^ FLAG_NEGATIVE == FLAGS_NEG_INFINITY,
        f == FLAGS_NEG_INFINITY ==> f ^ FLAG_NEGATIVE == FLAG_INFINITY,
{
    assert(f == 0 || f == 1 || f == 2 || f == 4 || f == 5 ==> {
        &&& (f & 1u8 != 0 <==> (f == 1 || f == 5))
        &&& (f & 4u8 != 0 <==> (f == 4 || f == 5))
        &&& (f & 2u8 != 0 <==> f == 2)
        &&& (f & 6u8 != 0 <==> f >= 2)
        &&& (f == 0 ==> f ^ 1u8 == 1)
        &&& (f == 1 ==> f ^ 1u8 == 0)
        &&& (f == 4 ==> f ^ 1u8 == 5)
        &&& (f == 5 ==> f ^ 1u8 == 4)
    }) by (bit_vector);
}

/// A fixed-size fixed-point number: `N` units of type `U`, of which the last
/// `SCALE` decimal places are the fraction.
#[derive(Clone, Copy, Debug)]
pub struct Fdec<U: NumberUnit, const N: usize, const SCALE: usize> {
    pub(crate) flags: u8,
    pub(crate) magnitude: [U; N],
}

impl<U: NumberUnit, const N: usize, const SCALE: usize> View for Fdec<U, N, SCALE> {
    type V = Value;

    closed spec fn view(&self) -> Value {
        if self.flags == FLAG_NAN {
            Value::Nan
        } else if self.flags == FLAG_INFINITY {
            Value::Infinity
        } else if self.flags == FLAGS_NEG_INFINITY {
            Value::NegInfinity
        } else {
            Value::Finite(signed(self.flags == FLAG_NEGATIVE, mag_value(self.magnitude@) as int))
        }
    }
}

impl<U: NumberUnit, const N: usize, const SCALE: usize> Fdec<U, N, SCALE> {
    /// Number of decimal places in numbers.
    pub fn scale() -> (r: usize)
        ensures
            r == SCALE,
    {
        SCALE
    }

    /// Number of units that are used to store numbers.
    pub fn length() -> (r: usize)
        ensures
            r == N,
    {
        N
    }

    /// The parameters for which the type is a numeric type: at least one
    /// unit, a length whose double fits `usize`, and a scale for which the
    /// magnitude holds the number one.
    pub open spec fn valid_params() -> bool {
        length_fits(N as nat) && pow10(SCALE as nat) < base_pow::<U>(N as nat)
    }

    /// The bound of the magnitudes: the radix to the power `N`.
    pub open spec fn limit() -> int {
        base_pow::<U>(N as nat) as int
    }

    /// The count that stands for the number one: ten to the scale.
    pub open spec fn one_units() -> int {
        pow10(SCALE as nat) as int
    }

    /// The flags as stored.
    pub closed spec fn flag_bits(self) -> u8 {
        self.flags
    }

    /// The magnitude as stored, the lowest unit first.
    pub closed spec fn units_seq(self) -> Seq<U> {
        self.magnitude@
    }

    /// What every number holds: the flags are those of one of the five
    /// kinds, a special value has a zero magnitude, and a negative number
    /// is not zero.
    pub closed spec fn wf(self) -> bool {
        &&& (self.flags == FLAGS_NO || self.flags == FLAG_NEGATIVE || self.flags == FLAG_NAN
            || self.flags == FLAG_INFINITY || self.flags == FLAGS_NEG_INFINITY)
        &&& (self.flags >= 2 ==> all_zero(self.magnitude@))
        &&& (self.flags == FLAG_NEGATIVE ==> mag_value(self.magnitude@) != 0)
    }

    /// The view and the validity of a number in terms of its fields.
    pub(crate) proof fn lemma_repr(self)
        ensures
            self.flag_bits() == self.flags,
            self.units_seq() == self.magnitude@,
            self.wf() <==> {
                &&& (self.flags == FLAGS_NO || self.flags == FLAG_NEGATIVE || self.flags
                    == FLAG_NAN || self.flags == FLAG_INFINITY || self.flags == FLAGS_NEG_INFINITY)
                &&& (self.flags >= 2 ==> all_zero(self.magnitude@))
                &&& (self.flags == FLAG_NEGATIVE ==> mag_value(self.magnitude@) != 0)
            },
            self@ == if self.flags == FLAG_NAN {
                Value::Nan
            } else if self.flags == FLAG_INFINITY {
                Value::Infinity
            } else if self.flags == FLAGS_NEG_INFINITY {
                Value::NegInfinity
            } else {
                Value::Finite(
                    signed(self.flags == FLAG_NEGATIVE, mag_value(self.magnitude@) as int),
                )
            },
    {
    }

    /// How the view reads the flags and the magnitude.
    pub proof fn lemma_view(self)
        requires
            self.wf(),
        ensures
            self.units_seq().len() == N,
            self@ is Nan <==> self.flag_bits() == FLAG_NAN,
            self@ is Infinity <==> self.flag_bits() == FLAG_INFINITY,
            self@ is NegInfinity <==> self.flag_bits() == (FLAG_INFINITY | FLAG_NEGATIVE),
            self@ is Finite <==> self.flag_bits() < 2,
            self@ is Finite ==> self@ == Value::Finite(
                signed(self.flag_bits() == FLAG_NEGATIVE, mag_value(self.units_seq()) as int),
            ),
            self@ is Finite ==> -Self::limit() < self@.units() < Self::limit(),
            self@ is Finite ==> (self@.units() < 0 <==> self.flag_bits() == FLAG_NEGATIVE),
            self@ is Finite ==> mag_value(self.units_seq()) == crate::value::abs_int(self@.units()),
            !(self@ is Finite) ==> mag_value(self.units_seq()) == 0,
    {
        assert(FLAG_INFINITY | FLAG_NEGATIVE == FLAGS_NEG_INFINITY) by (bit_vector)
            requires
                FLAG_INFINITY == 4u8,
                FLAG_NEGATIVE == 1u8,
                FLAGS_NEG_INFINITY == 5u8,
        ;
        lemma_mag_value_bound(self.magnitude@);
        lemma_mag_value_zero(self.magnitude@);
    }

    /// Two numbers that stand for the same value are the same.
    pub proof fn lemma_unique(self, other: Self)
        requires
            self.wf(),
            other.wf(),
            self@ == other@,
        ensures
            self == other,
    {
        lemma_mag_value_zero(self.magnitude@);
        lemma_mag_value_zero(other.magnitude@);
        lemma_mag_value_injective(self.magnitude@, other.magnitude@);
        assert(self.magnitude@ =~= other.magnitude@);
        assert(self.magnitude =~= other.magnitude);
    }

    /// Creates a number with the given magnitude (in little-endian units
    /// order), negative if `neg` is `true`. There is no negative zero.
    pub fn new(neg: bool, magnitude: [U; N]) -> (r: Self)
        requires
            neg ==> mag_value(magnitude@) != 0,
        ensures
            r.wf(),
            r@ == Value::Finite(signed(neg, mag_value(magnitude@) as int)),
            r.units_seq() == magnitude@,
    {
        Fdec { flags: if neg { FLAG_NEGATIVE } else { FLAGS_NO }, magnitude }
    }

    /// Creates a number from its units in little-endian order, negative if
    /// `neg` is `true`. There is no negative zero.
    pub fn from_le_units(neg: bool, units: [U; N]) -> (r: Self)
        requires
            neg ==> mag_value(units@) != 0,
        ensures
            r.wf(),
            r@ == Value::Finite(signed(neg, mag_value(units@) as int)),
            r.units_seq() == units@,
    {
        Self::new(neg, units)
    }

    /// Creates a number from its units in big-endian order, negative if
    /// `neg` is `true`. There is no negative zero.
    pub fn from_be_units(neg: bool, units: [U; N]) -> (r: Self)
        requires
            neg ==> mag_value(units@.reverse()) != 0,
        ensures
            r.wf(),
            r@ == Value::Finite(signed(neg, mag_value(units@.reverse()) as int)),
            r.units_seq() == units@.reverse(),
    {
        let mut magnitude = units;
        let mut i: usize = 0;
        while i < N
            invariant
                i <= N,
                forall|k: int| 0 <= k < i ==> magnitude@[k] == units@[N - 1 - k],
            decreases N - i,
        {
            magnitude[i] = units[N - 1 - i];
            i += 1;
        }
        proof {
            assert(magnitude@ =~= units@.reverse());
        }
        Self::new(neg, magnitude)
    }

    /// Whether the parameters of the type are those of a numeric type.
    pub fn has_valid_params() -> (r: bool)
        ensures
            r == Self::valid_params(),
    {
        if N < 1 || N > (usize::MAX - 1) / 2 {
            return false;
        }
        let u1: U = U::narrow(1);
        proof {
            lemma_base::<U>();
            vstd::arithmetic::div_mod::lemma_small_mod(1, base::<U>());
            assert(1 * pow10(SCALE as nat) == pow10(SCALE as nat));
        }
        let mut magnitude = crate::division::single_unit::<U, N>(u1);
        let overflow = Self::move_point_right(&mut magnitude, SCALE);
        !overflow
    }

    /// The number with the given magnitude and the sign `neg`, or zero if
    /// the magnitude is zero.
    pub(crate) fn with_sign(neg: bool, magnitude: [U; N]) -> (r: Self)
        ensures
            r.wf(),
            r@ == Value::Finite(signed(neg, mag_value(magnitude@) as int)),
    {
        let zero = is_magnitude_zero(&magnitude);
        Fdec { flags: if neg && !zero { FLAG_NEGATIVE } else { FLAGS_NO }, magnitude }
    }

    /// The magnitude of all zeros.
    pub(crate) fn zero_magnitude() -> (r: [U; N])
        ensures
            all_zero(r@),
            mag_value(r@) == 0,
    {
        let z = U::zero();
        let r: [U; N] = [z; N];
        proof {
            lemma_mag_value_zero(r@);
        }
        r
    }

    /// Returns the zero value.
    pub fn zero() -> (r: Self)
        ensures
            r.wf(),
            r@ == Value::Finite(0),
    {
        Fdec { flags: FLAGS_NO, magnitude: Self::zero_magnitude() }
    }

    /// Returns the value that represents NaN (Not a Number).
    pub fn nan() -> (r: Self)
        ensures
            r.wf(),
            r@ == Value::Nan,
    {
        Fdec { flags: FLAG_NAN, magnitude: Self::zero_magnitude() }
    }

    /// Returns the value that represents positive infinity.
    pub fn infinity() -> (r: Self)
        ensures
            r.wf(),
            r@ == Value::Infinity,
    {
        Fdec { flags: FLAG_INFINITY, magnitude: Self::zero_magnitude() }
    }

    /// Returns the value that represents negative infinity.
    pub fn neg_infinity() -> (r: Self)
        ensures
            r.wf(),
            r@ == Value::NegInfinity,
    {
        Fdec { flags: FLAGS_NEG_INFINITY, magnitude: Self::zero_magnitude() }
    }

    /// The infinity of the given sign.
    pub(crate) fn signed_inf(neg: bool) -> (r: Self)
        ensures
            r.wf(),
            r@ == signed_infinity(neg),
    {
        if neg {
            Self::neg_infinity()
        } else {
            Self::infinity()
        }
    }

    /// The magnitude whose units are all the highest unit.
    fn max_magnitude() -> (r: [U; N])
        ensures
            mag_value(r@) == base_pow::<U>(N as nat) - 1,
    {
        proof {
            lemma_base::<U>();
            vstd::arithmetic::div_mod::lemma_small_mod((base::<U>() - 1) as nat, base::<U>());
        }
        let top: U = U::narrow(U::radix() - 1);
        let r: [U; N] = [top; N];
        proof {
            Self::lemma_all_top(r@, N as int);
            assert(r@.take(N as int) =~= r@);
        }
        r
    }

    proof fn lemma_all_top(s: Seq<U>, k: int)
        requires
            0 <= k <= s.len(),
            forall|i: int| 0 <= i < s.len() ==> (#[trigger] s[i]).to_nat() == base::<U>() - 1,
        ensures
            mag_value(s.take(k)) == base_pow::<U>(k as nat) - 1,
        decreases k,
    {
        if k == 0 {
            assert(s.take(0) =~= Seq::<U>::empty());
            lemma_base_pow::<U>(0);
        } else {
            Self::lemma_all_top(s, k - 1);
            lemma_take_step(s, k - 1);
            lemma_base_pow::<U>((k - 1) as nat);
            let p = base_pow::<U>((k - 1) as nat) as int;
            let b = base::<U>() as int;
            assert((b - 1) * p == p * b - p) by (nonlinear_arith);
        }
    }

    /// Returns the largest normal value.
    pub fn max() -> (r: Self)
        requires
            Self::valid_params(),
        ensures
            r.wf(),
            r@ == Value::Finite(Self::limit() - 1),
    {
        Fdec { flags: FLAGS_NO, magnitude: Self::max_magnitude() }
    }

    /// Returns the smallest normal value.
    pub fn min() -> (r: Self)
        requires
            Self::valid_params(),
        ensures
            r.wf(),
            r@ == Value::Finite(1 - Self::limit()),
    {
        proof {
            lemma_base_pow_ge_base::<U>(N as nat);
        }
        Fdec { flags: FLAG_NEGATIVE, magnitude: Self::max_magnitude() }
    }

    /// Multiplies the magnitude by ten to the `n`. Returns `true` if there
    /// was overflow; the magnitude then holds no meaningful value.
    pub(crate) fn move_point_right(magnitude: &mut [U; N], n: usize) -> (overflow: bool)
        ensures
            overflow == (mag_value(old(magnitude)@) * pow10(n as nat) >= Self::limit()),
            !overflow ==> mag_value(final(magnitude)@) == mag_value(old(magnitude)@) * pow10(
                n as nat,
            ),
    {
        let ghost orig = mag_value(magnitude@) as int;
        let ten = U::ten();
        let mut i: usize = 0;
        proof {
            assert(orig * 1 == orig);
            lemma_mag_value_bound(magnitude@);
        }
        while i < n
            invariant
                i <= n,
                ten.to_nat() == 10,
                orig >= 0,
                orig == mag_value(old(magnitude)@),
                mag_value(magnitude@) == orig * pow10(i as nat),
                orig * pow10(i as nat) < Self::limit(),
            decreases n - i,
        {
            let ghost prev = mag_value(magnitude@) as int;
            let carry = multiply_by_unit(magnitude, ten);
            proof {
                let p = pow10(i as nat) as int;
                let lim = Self::limit();
                lemma_mag_value_bound(magnitude@);
                lemma_base_pow::<U>(N as nat);
                assert(orig * (10 * p) == (orig * p) * 10) by (nonlinear_arith);
                let c = carry.to_nat() as int;
                let mv = mag_value(magnitude@) as int;
                if c != 0 {
                    assert(prev * 10 >= lim) by (nonlinear_arith)
                        requires
                            mv + c * lim == prev * 10,
                            c >= 1,
                            mv >= 0,
                            lim > 0,
                    ;
                    lemma_pow10_adds((i + 1) as nat, (n - i - 1) as nat);
                    lemma_pow10_positive((n - i - 1) as nat);
                    let pr = pow10((n - i - 1) as nat) as int;
                    let p1 = pow10((i + 1) as nat) as int;
                    assert(p1 == 10 * p);
                    assert(((i + 1) as nat + (n - i - 1) as nat) as nat == n as nat);
                    assert(pow10(n as nat) == p1 * pr);
                    assert(orig * (p1 * pr) >= orig * p1) by (nonlinear_arith)
                        requires
                            orig >= 0,
                            p1 >= 0,
                            pr >= 1,
                    ;
                    assert(orig * pow10(n as nat) >= lim);
                } else {
                    assert(c * lim == 0) by (nonlinear_arith)
                        requires
                            c == 0,
                    ;
                }
            }
            if carry.widen() != 0 {
                return true;
            }
            i += 1;
        }
        false
    }

    /// The count `v` of units of the decimal place `scale`, with the sign
    /// `neg`, as a number; an infinity if it does not fit.
    pub(crate) fn from_unit(neg: bool, v: U, scale: usize) -> (r: Self)
        requires
            Self::valid_params(),
            scale <= SCALE,
        ensures
            r.wf(),
            r@ == bounded(
                signed(neg, (v.to_nat() * pow10((SCALE - scale) as nat)) as int),
                Self::limit(),
            ),
    {
        let mut magnitude = crate::division::single_unit::<U, N>(v);
        let overflow = Self::move_point_right(&mut magnitude, SCALE - scale);
        proof {
            lemma_pow10_positive((SCALE - scale) as nat);
            let p = pow10((SCALE - scale) as nat) as int;
            let x = v.to_nat() as int;
            assert(x * p >= 0) by (nonlinear_arith)
                requires
                    x >= 0,
                    p >= 0,
            ;
            lemma_base_pow::<U>(N as nat);
            if x == 0 {
                assert(x * p == 0) by (nonlinear_arith)
                    requires
                        x == 0,
                ;
            }
        }
        if overflow {
            Self::signed_inf(neg)
        } else {
            Self::with_sign(neg, magnitude)
        }
    }

    /// Returns the `1` value.
    pub fn one() -> (r: Self)
        requires
            Self::valid_params(),
        ensures
            r.wf(),
            r@ == Value::Finite(Self::one_units()),
    {
        proof {
            assert(1 * pow10(SCALE as nat) == pow10(SCALE as nat));
        }
        let u1: U = U::narrow(1);
        proof {
            lemma_base::<U>();
            vstd::arithmetic::div_mod::lemma_small_mod(1, base::<U>());
        }
        Self::from_unit(false, u1, 0)
    }

    /// Returns the smallest positive value.
    pub fn ulp() -> (r: Self)
        requires
            Self::valid_params(),
        ensures
            r.wf(),
            r@ == Value::Finite(1),
    {
        let u1: U = U::narrow(1);
        proof {
            lemma_base::<U>();
            vstd::arithmetic::div_mod::lemma_small_mod(1, base::<U>());
            assert(pow10(0) == 1);
            lemma_base_pow_ge_base::<U>(N as nat);
        }
        Self::from_unit(false, u1, SCALE)
    }

    /// Returns `true` if the number is negative (including -Infinity) and
    /// `false` if the number is zero or positive.
    pub fn is_sign_negative(&self) -> (r: bool)
        requires
            self.wf(),
        ensures
            r == self@.is_negative(),
    {
        proof {
            lemma_mag_value_zero(self.magnitude@);
            lemma_flag_tests(self.flags);
        }
        self.flags & FLAG_NEGATIVE != 0
    }

    /// Returns `true` if the number is zero or positive (including
    /// +Infinity) and `false` if the number is negative.
    pub fn is_sign_positive(&self) -> (r: bool)
        requires
            self.wf(),
        ensures
            r == !self@.is_negative(),
    {
        !self.is_sign_negative()
    }

    /// Returns `true` if this value is positive infinity or negative
    /// infinity and `false` otherwise.
    pub fn is_infinite(&self) -> (r: bool)
        requires
            self.wf(),
        ensures
            r == self@.is_infinite(),
    {
        proof {
            lemma_flag_tests(self.flags);
        }
        self.flags & FLAG_INFINITY != 0
    }

    /// Returns `true` if this value is NaN (Not a Number) and `false`
    /// otherwise.
    pub fn is_nan(&self) -> (r: bool)
        requires
            self.wf(),
        ensures
            r == (self@ is Nan),
    {
        proof {
            lemma_flag_tests(self.flags);
        }
        self.flags & FLAG_NAN != 0
    }

    /// Returns `true` if this values is NaN or ±Infinity.
    pub fn is_special(&self) -> (r: bool)
        requires
            self.wf(),
        ensures
            r == self@.is_special(),
    {
        proof {
            lemma_flag_tests(self.flags);
        }
        self.flags & FLAGS_SPECIAL != 0
    }

    /// Returns `true` if the number is zero.
    pub fn is_zero(&self) -> (r: bool)
        requires
            self.wf(),
        ensures
            r == self@.is_zero(),
    {
        if self.is_special() {
            false
        } else {
            is_magnitude_zero(&self.magnitude)
        }
    }

    /// The number with the sign flipped; NaN and zero stay.
    pub fn negate(self) -> (r: Self)
        requires
            self.wf(),
        ensures
            r.wf(),
            r@ == neg_value(self@),
    {
        proof {
            lemma_flag_tests(self.flags);
        }
        if !self.is_nan() && !self.is_zero() {
            Fdec { flags: self.flags ^ FLAG_NEGATIVE, magnitude: self.magnitude }
        } else {
            self
        }
    }

    /// Returns the absolute value of the number.
    pub fn abs(&self) -> (r: Self)
        requires
            self.wf(),
        ensures
            r.wf(),
            r@ == abs_value(self@),
    {
        if self.is_special() {
            if self.is_nan() {
                *self
            } else {
                Self::infinity()
            }
        } else if self.is_sign_positive() {
            *self
        } else {
            self.negate()
        }
    }
}

impl<U: NumberUnit, const N: usize, const SCALE: usize> Default for Fdec<U, N, SCALE> {
    /// The zero value.
    fn default() -> (r: Self)
        ensures
            r.wf(),
            r@ == Value::Finite(0),
    {
        Self::zero()
    }
}

/// The radix to a positive power is at least 256.
pub proof fn lemma_base_pow_ge_base<U: NumberUnit>(n: nat)
    requires
        n >= 1,
    ensures
        base_pow::<U>(n) >= 256,
{
    lemma_base::<U>();
    lemma_base_pow::<U>(1);
    crate::units::lemma_base_pow_monotonic::<U>(1, n);
}

/// The radix to any power is positive.
pub proof fn lemma_base_pow_positive<U: NumberUnit>(n: nat)
    ensures
        base_pow::<U>(n) > 0,
{
    lemma_base_pow::<U>(n);
}

} // verus!
