//! Shifts of a number by bits.
//!
//! A shift moves the units by the whole units of the distance, and then
//! shifts by the bits that are left: each unit takes the bits that its
//! neighbour loses. Unit by unit that is the product with, or the quotient
//! by, two to the power of those bits, the carry or the remainder being the
//! bits that cross to the next unit.

use vstd::prelude::*;
use vstd::arithmetic::power2::{
    pow2, lemma_pow2_adds, lemma_pow2_pos, lemma_pow2_unfold, lemma2_to64,
};
use vstd::std_specs::ops::{ShlSpecImpl, ShrSpecImpl};
use crate::units::{
    NumberUnit, PrimNumber, base, base_pow, mag_value, all_zero, lemma_base, lemma_base_pow,
    lemma_base_pow_adds, lemma_mag_value_bound, lemma_mag_value_zero,
};
use crate::magnitude::{
    lemma_mag_split, lemma_zero_above, lemma_high_zero, multiply_by_unit, divide_by_unit,
};
use crate::number::{Fdec, FLAG_NEGATIVE};
use crate::value::{signed, shl_value, shr_value};

verus! {

/// The radix to the power `n` is two to the power of the bits of `n` units.
pub proof fn lemma_base_pow_is_pow2<U: NumberUnit>(n: nat)
    ensures
        base_pow::<U>(n) == pow2(U::bit_width() * n),
    decreases n,
{
    lemma_base_pow::<U>(n);
    if n == 0 {
        assert(U::bit_width() * 0 == 0);
        lemma2_to64();
    } else {
        lemma_base_pow_is_pow2::<U>((n - 1) as nat);
        lemma_base_pow::<U>((n - 1) as nat);
        lemma_pow2_adds(U::bit_width() * ((n - 1) as nat), U::bit_width());
        assert(U::bit_width() * ((n - 1) as nat) + U::bit_width() == U::bit_width() * n)
            by (nonlinear_arith)
            requires
                n >= 1,
        ;
    }
}

/// Two to a power grows with the power.
pub proof fn lemma_pow2_monotonic(a: nat, b: nat)
    requires
        a <= b,
    ensures
        pow2(a) <= pow2(b),
{
    lemma_pow2_adds(a, (b - a) as nat);
    lemma_pow2_pos(a);
    lemma_pow2_pos((b - a) as nat);
    let x = pow2(a) as int;
    let y = pow2((b - a) as nat) as int;
    assert(x <= x * y) by (nonlinear_arith)
        requires
            x >= 0,
            y >= 1,
    ;
}

/// The unit two to the power `s`, for `s` below the width of a unit.
pub fn pow2_unit<U: NumberUnit>(s: usize) -> (r: U)
    requires
        s < U::bit_width(),
    ensures
        r.to_nat() == pow2(s as nat),
        r.to_nat() >= 1,
{
    let mut f: u128 = 1;
    let mut i: usize = 0;
    proof {
        lemma2_to64();
        lemma_base::<U>();
        U::lemma_unit();
    }
    while i < s
        invariant
            i <= s,
            s < U::bit_width(),
            U::bit_width() <= 64,
            f == pow2(i as nat),
            f < 0x1_0000_0000_0000_0000,
        decreases s - i,
    {
        proof {
            lemma_pow2_unfold((i + 1) as nat);
            lemma_pow2_monotonic((i + 1) as nat, 63);
            lemma2_to64();
            vstd::arithmetic::power2::lemma2_to64_rest();
        }
        f = f * 2;
        i += 1;
    }
    proof {
        lemma_pow2_monotonic(s as nat, (U::bit_width() - 1) as nat);
        lemma_pow2_unfold(U::bit_width());
        lemma_pow2_pos(s as nat);
        vstd::arithmetic::div_mod::lemma_small_mod(f as nat, base::<U>());
    }
    U::narrow(f)
}

impl<U: NumberUnit, const N: usize, const SCALE: usize> Fdec<U, N, SCALE> {
    /// The magnitude moved down by `full` units: its value over the radix
    /// to the `full`.
    fn units_down(src: &[U; N], full: usize) -> (mag: [U; N])
        requires
            full < N,
        ensures
            mag_value(mag@) == mag_value(src@) / base_pow::<U>(full as nat),
    {
        let mut mag = Self::zero_magnitude();
        let mut i: usize = 0;
        while i < N - full
            invariant
                i <= N - full,
                full < N,
                forall|k: int| 0 <= k < i ==> mag@[k] == src@[k + full],
                forall|k: int| i <= k < N ==> (#[trigger] mag@[k]).to_nat() == 0,
            decreases N - full - i,
        {
            mag[i] = src[i + full];
            i += 1;
        }
        proof {
            lemma_zero_above(mag@, N - full);
            assert(mag@.take(N - full) =~= src@.skip(full as int));
            lemma_mag_split(src@, full as int);
            lemma_mag_value_bound(src@.take(full as int));
            lemma_base_pow::<U>(full as nat);
            let p = base_pow::<U>(full as nat) as int;
            let hi = mag_value(src@.skip(full as int)) as int;
            let lo = mag_value(src@.take(full as int)) as int;
            assert(p * hi == hi * p) by (nonlinear_arith);
            vstd::arithmetic::div_mod::lemma_fundamental_div_mod_converse(
                mag_value(src@) as int,
                p,
                hi,
                lo,
            );
        }
        mag
    }

    /// The magnitude moved up by `full` units, where its highest `full`
    /// units are zero: its value times the radix to the `full`.
    fn units_up(src: &[U; N], full: usize) -> (mag: [U; N])
        requires
            full < N,
            forall|k: int| N - full <= k < N ==> (#[trigger] src@[k]).to_nat() == 0,
        ensures
            mag_value(mag@) == mag_value(src@) * base_pow::<U>(full as nat),
    {
        let mut mag = Self::zero_magnitude();
        let mut i: usize = 0;
        while i < N - full
            invariant
                i <= N - full,
                full < N,
                forall|k: int| full <= k < i + full ==> mag@[k] == src@[k - full],
                forall|k: int| 0 <= k < full ==> (#[trigger] mag@[k]).to_nat() == 0,
            decreases N - full - i,
        {
            mag[i + full] = src[i];
            i += 1;
        }
        proof {
            lemma_zero_above(src@, N - full);
            lemma_mag_split(mag@, full as int);
            assert(mag@.skip(full as int) =~= src@.take(N - full));
            assert(all_zero(mag@.take(full as int))) by {
                let t = mag@.take(full as int);
                assert forall|k: int| 0 <= k < t.len() implies (#[trigger] t[k]).to_nat() == 0 by {
                    assert(t[k] == mag@[k]);
                }
            }
            lemma_mag_value_zero(mag@.take(full as int));
            let p = base_pow::<U>(full as nat) as int;
            let v = mag_value(src@) as int;
            assert(p * v == v * p) by (nonlinear_arith);
        }
        mag
    }
}

impl<U: NumberUnit, const N: usize, const SCALE: usize> ShrSpecImpl<usize> for Fdec<U, N, SCALE> {
    open spec fn obeys_shr_spec() -> bool {
        true
    }

    open spec fn shr_req(self, rhs: usize) -> bool {
        self.wf()
    }

    open spec fn shr_spec(self, rhs: usize) -> Self {
        choose|x: Self| x.wf() && x@ == shr_value(self@, rhs as nat)
    }
}

impl<U: NumberUnit, const N: usize, const SCALE: usize> core::ops::Shr<usize> for Fdec<U, N, SCALE> {
    type Output = Self;

    /// Shifts the magnitude right by `rhs` bits. The result is exact and
    /// never infinite; a zero result is positive.
    fn shr(self, rhs: usize) -> (r: Self)
        ensures
            r.wf(),
            r@ == shr_value(self@, rhs as nat),
    {
        proof {
            self.lemma_repr();
            self.lemma_view();
            lemma2_to64();
            U::lemma_unit();
            U::lemma_width();
        }
        let ghost v = mag_value(self.magnitude@);
        let r = if self.is_special() || rhs == 0 {
            proof {
                assert(v as int / 1 == v);
            }
            self
        } else {
            let bits: usize = U::bits();
            let full_units: usize = rhs / bits;
            let s: usize = rhs % bits;
            proof {
                lemma_base_pow_is_pow2::<U>(full_units as nat);
                lemma_base_pow_is_pow2::<U>(N as nat);
                lemma_pow2_adds(U::bit_width() * (full_units as nat), s as nat);
                lemma_pow2_pos(rhs as nat);
                lemma_pow2_pos(s as nat);
                lemma_base_pow::<U>(full_units as nat);
                assert(U::bit_width() * (full_units as nat) + s == rhs) by {
                    vstd::arithmetic::div_mod::lemma_fundamental_div_mod(rhs as int, bits as int);
                }
                lemma_mag_value_bound(self.magnitude@);
            }
            if full_units >= N {
                proof {
                    assert(U::bit_width() * (N as nat) <= rhs) by (nonlinear_arith)
                        requires
                            U::bit_width() * (full_units as nat) + s == rhs,
                            full_units >= N,
                            s >= 0,
                    ;
                    lemma_pow2_monotonic(U::bit_width() * (N as nat), rhs as nat);
                    vstd::arithmetic::div_mod::lemma_basic_div(v as int, pow2(rhs as nat) as int);
                }
                Self::zero()
            } else {
                let mut mag = Self::units_down(&self.magnitude, full_units);
                let f: U = pow2_unit(s);
                let _ = divide_by_unit(&mut mag, f);
                proof {
                    vstd::arithmetic::div_mod::lemma_div_denominator(
                        v as int,
                        base_pow::<U>(full_units as nat) as int,
                        pow2(s as nat) as int,
                    );
                }
                Self::with_sign(self.flags == FLAG_NEGATIVE, mag)
            }
        };
        proof {
            r.lemma_unique(choose|x: Self| x.wf() && x@ == shr_value(self@, rhs as nat));
        }
        r
    }
}

impl<U: NumberUnit, const N: usize, const SCALE: usize> ShlSpecImpl<usize> for Fdec<U, N, SCALE> {
    open spec fn obeys_shl_spec() -> bool {
        true
    }

    open spec fn shl_req(self, rhs: usize) -> bool {
        self.wf()
    }

    open spec fn shl_spec(self, rhs: usize) -> Self {
        choose|x: Self| x.wf() && x@ == shl_value(self@, rhs as nat, Self::limit())
    }
}

impl<U: NumberUnit, const N: usize, const SCALE: usize> core::ops::Shl<usize> for Fdec<U, N, SCALE> {
    type Output = Self;

    /// Shifts the magnitude left by `rhs` bits; the result is the infinity
    /// of the number's sign if a bit that is set leaves the magnitude.
    fn shl(self, rhs: usize) -> (r: Self)
        ensures
            r.wf(),
            r@ == shl_value(self@, rhs as nat, Self::limit()),
    {
        proof {
            self.lemma_repr();
            self.lemma_view();
            lemma2_to64();
            U::lemma_unit();
            U::lemma_width();
            lemma_base_pow::<U>(N as nat);
        }
        let ghost v = mag_value(self.magnitude@) as int;
        let neg = self.flags == FLAG_NEGATIVE;
        let r = if self.is_special() || rhs == 0 || self.is_zero() {
            proof {
                assert(self@.units() * 1 == self@.units());
                assert(0 * pow2(rhs as nat) == 0);
                lemma_mag_value_bound(self.magnitude@);
            }
            self
        } else {
            let bits: usize = U::bits();
            let full_units: usize = rhs / bits;
            let s: usize = rhs % bits;
            let ghost p2 = pow2(rhs as nat) as int;
            let ghost pf = base_pow::<U>(full_units as nat) as int;
            let ghost ps = pow2(s as nat) as int;
            let ghost lim = Self::limit();
            proof {
                lemma_base_pow_is_pow2::<U>(full_units as nat);
                lemma_base_pow_is_pow2::<U>(N as nat);
                lemma_pow2_adds(U::bit_width() * (full_units as nat), s as nat);
                lemma_pow2_pos(rhs as nat);
                lemma_pow2_pos(s as nat);
                lemma_base_pow::<U>(full_units as nat);
                assert(U::bit_width() * (full_units as nat) + s == rhs) by {
                    vstd::arithmetic::div_mod::lemma_fundamental_div_mod(rhs as int, bits as int);
                }
                lemma_mag_value_bound(self.magnitude@);
                assert(p2 == pf * ps);
                // the sign of the product is the sign of the number
                let m = self@.units();
                assert(m * p2 == signed(neg, v * p2)) by (nonlinear_arith)
                    requires
                        m == signed(neg, v),
                ;
                assert(v * p2 >= 1) by (nonlinear_arith)
                    requires
                        v >= 1,
                        p2 >= 1,
                ;
            }
            if full_units >= N {
                proof {
                    assert(U::bit_width() * (N as nat) <= rhs) by (nonlinear_arith)
                        requires
                            U::bit_width() * (full_units as nat) + s == rhs,
                            full_units >= N,
                            s >= 0,
                    ;
                    lemma_pow2_monotonic(U::bit_width() * (N as nat), rhs as nat);
                    assert(v * p2 >= lim) by (nonlinear_arith)
                        requires
                            v >= 1,
                            p2 >= lim,
                            lim >= 0,
                    ;
                }
                Self::signed_inf(neg)
            } else {
                // Is a unit that leaves the magnitude set?
                let mut i: usize = N - full_units;
                let mut lost: bool = false;
                while i < N
                    invariant
                        N - full_units <= i <= N,
                        full_units < N,
                        !lost ==> forall|k: int|
                            N - full_units <= k < i ==> (#[trigger] self.magnitude@[k]).to_nat()
                                == 0,
                        lost ==> exists|k: int|
                            N - full_units <= k < N && (#[trigger] self.magnitude@[k]).to_nat()
                                != 0,
                    decreases N - i,
                {
                    if self.magnitude[i].widen() != 0 {
                        lost = true;
                    }
                    i += 1;
                }
                if lost {
                    proof {
                        // the value is at least the radix to the N - full
                        if v < base_pow::<U>((N - full_units) as nat) {
                            lemma_high_zero(self.magnitude@, N - full_units);
                        }
                        lemma_base_pow_adds::<U>((N - full_units) as nat, full_units as nat);
                        let ph = base_pow::<U>((N - full_units) as nat) as int;
                        assert(v * p2 >= lim) by (nonlinear_arith)
                            requires
                                v >= ph,
                                lim == ph * pf,
                                p2 == pf * ps,
                                ps >= 1,
                                pf >= 1,
                                ph >= 0,
                        ;
                    }
                    Self::signed_inf(neg)
                } else {
                    let mut mag = Self::units_up(&self.magnitude, full_units);
                    let f: U = pow2_unit(s);
                    let carry = multiply_by_unit(&mut mag, f);
                    proof {
                        lemma_mag_value_bound(mag@);
                        let c = carry.to_nat() as int;
                        let mv = mag_value(mag@) as int;
                        assert(v * p2 == (v * pf) * ps) by (nonlinear_arith)
                            requires
                                p2 == pf * ps,
                        ;
                        if c != 0 {
                            assert(v * p2 >= lim) by (nonlinear_arith)
                                requires
                                    mv + c * lim == v * p2,
                                    c >= 1,
                                    mv >= 0,
                                    lim > 0,
                            ;
                        } else {
                            assert(c * lim == 0) by (nonlinear_arith)
                                requires
                                    c == 0,
                            ;
                        }
                    }
                    if carry.widen() != 0 {
                        Self::signed_inf(neg)
                    } else {
                        Self::with_sign(neg, mag)
                    }
                }
            }
        };
        proof {
            r.lemma_unique(
                choose|x: Self| x.wf() && x@ == shl_value(self@, rhs as nat, Self::limit()),
            );
        }
        r
    }
}

impl<U: NumberUnit, const N: usize, const SCALE: usize> Fdec<U, N, SCALE> {
    /// Replaces the number by itself shifted left by `rhs` bits.
    pub fn shl_assign(&mut self, rhs: usize)
        requires
            old(self).wf(),
        ensures
            final(self).wf(),
            final(self)@ == shl_value(old(self)@, rhs as nat, Self::limit()),
    {
        let res = *self << rhs;
        *self = res;
    }

    /// Replaces the number by itself shifted right by `rhs` bits.
    pub fn shr_assign(&mut self, rhs: usize)
        requires
            old(self).wf(),
        ensures
            final(self).wf(),
            final(self)@ == shr_value(old(self)@, rhs as nat),
    {
        let res = *self >> rhs;
        *self = res;
    }
}

} // verus!
