//! Magnitudes of double length, which hold a product of two magnitudes and
//! the dividend of a division.

use vstd::prelude::*;
use crate::units::{
    NumberUnit, PrimNumber, base, base_pow, mag_value, weight_of, lemma_base, lemma_base_pow,
    lemma_base_pow_adds, lemma_unit_bound, lemma_mag_value_bound,
};
use crate::magnitude::{lemma_take_step, lemma_mag_split, lemma_update_step, lemma_skip_head};

verus! {

/// A little-endian magnitude of `2 * N + 1` units: two magnitudes of length
/// `N` side by side and one unit above them.
#[derive(Clone, Copy)]
pub struct Wide<U: NumberUnit, const N: usize> {
    pub lo: [U; N],
    pub hi: [U; N],
    pub top: U,
}

/// The lengths `N` for which the indices of a double magnitude fit `usize`.
pub open spec fn length_fits(n: nat) -> bool {
    1 <= n && 2 * n + 1 <= usize::MAX
}

impl<U: NumberUnit, const N: usize> View for Wide<U, N> {
    type V = Seq<U>;

    open spec fn view(&self) -> Seq<U> {
        Seq::new(
            (2 * N + 1) as nat,
            |i: int|
                if i < N {
                    self.lo@[i]
                } else if i < 2 * N {
                    self.hi@[i - N]
                } else {
                    self.top
                },
        )
    }
}

impl<U: NumberUnit, const N: usize> Wide<U, N> {
    /// The double magnitude of value zero.
    pub fn zero() -> (r: Self)
        ensures
            forall|i: int| 0 <= i < 2 * N + 1 ==> (#[trigger] r@[i]).to_nat() == 0,
            mag_value(r@) == 0,
    {
        let z = U::zero();
        let r = Wide { lo: [z; N], hi: [z; N], top: z };
        proof {
            assert forall|i: int| 0 <= i < 2 * N + 1 implies (#[trigger] r@[i]).to_nat() == 0 by {
                if i < N {
                    assert(r.lo@[i] == z);
                } else if i < 2 * N {
                    assert(r.hi@[i - N] == z);
                }
            }
            crate::units::lemma_mag_value_zero(r@);
        }
        r
    }

    /// The double magnitude whose low half is `lo` and whose other units are
    /// zero.
    pub fn from_low(lo: &[U; N]) -> (r: Self)
        ensures
            mag_value(r@) == mag_value(lo@),
            r@.take(N as int) == lo@,
            forall|i: int| N <= i < 2 * N + 1 ==> (#[trigger] r@[i]).to_nat() == 0,
    {
        let z = U::zero();
        let r = Wide { lo: *lo, hi: [z; N], top: z };
        proof {
            assert(r@.take(N as int) =~= lo@);
            assert forall|i: int| N <= i < 2 * N + 1 implies (#[trigger] r@[i]).to_nat() == 0 by {
                if i < 2 * N {
                    assert(r.hi@[i - N] == z);
                }
            }
            lemma_mag_split(r@, N as int);
            crate::units::lemma_mag_value_zero(r@.skip(N as int));
            assert(crate::units::all_zero(r@.skip(N as int))) by {
                let s = r@.skip(N as int);
                assert forall|i: int| 0 <= i < s.len() implies (#[trigger] s[i]).to_nat() == 0 by {
                    assert(s[i] == r@[i + N]);
                }
            }
            assert(base_pow::<U>(N as nat) * 0 == 0);
        }
        r
    }

    /// The unit at index `i`.
    pub fn get(&self, i: usize) -> (r: U)
        requires
            i < 2 * N + 1,
        ensures
            r == self@[i as int],
    {
        if i < N {
            self.lo[i]
        } else if i - N < N {
            self.hi[i - N]
        } else {
            self.top
        }
    }

    /// Puts `v` at index `i`.
    pub fn set(&mut self, i: usize, v: U)
        requires
            i < 2 * N + 1,
        ensures
            final(self)@ == old(self)@.update(i as int, v),
    {
        if i < N {
            self.lo[i] = v;
        } else if i - N < N {
            self.hi[i - N] = v;
        } else {
            self.top = v;
        }
        assert(self@ =~= old(self)@.update(i as int, v));
    }

    /// The low half.
    pub fn low(&self) -> (r: [U; N])
        ensures
            r@ == self@.take(N as int),
    {
        assert(self.lo@ =~= self@.take(N as int));
        self.lo
    }

    /// Returns the number of the significant units.
    pub fn weight(&self) -> (r: usize)
        requires
            length_fits(N as nat),
        ensures
            r == weight_of(self@),
            r <= 2 * N + 1,
    {
        let mut i: usize = 2 * N + 1;
        assert(self@.take(i as int) =~= self@);
        while i > 0
            invariant
                i <= 2 * N + 1,
                weight_of(self@) == weight_of(self@.take(i as int)),
            decreases i,
        {
            proof {
                let s = self@.take(i as int);
                assert(s.last() == self@[i - 1]);
                assert(s.drop_last() =~= self@.take(i - 1));
            }
            if self.get(i - 1).widen() != 0 {
                return i;
            }
            i -= 1;
        }
        0
    }

    /// Multiplies the magnitude by the unit `v`; returns the carry out of the
    /// highest unit.
    pub fn multiply_by_unit(&mut self, v: U) -> (carry: U)
        requires
            length_fits(N as nat),
        ensures
            mag_value(final(self)@) + carry.to_nat() * base_pow::<U>((2 * N + 1) as nat)
                == mag_value(old(self)@) * v.to_nat(),
    {
        let ghost orig = self@;
        let b: u128 = U::radix();
        let mul: u128 = v.widen();
        let mut carry: u128 = 0;
        let mut i: usize = 0;
        let len: usize = 2 * N + 1;
        proof {
            lemma_base::<U>();
            lemma_base_pow::<U>(0);
            lemma_unit_bound(v);
            assert(self@.take(0) =~= Seq::<U>::empty());
            assert(mag_value(Seq::<U>::empty()) == 0);
        }
        while i < len
            invariant
                i <= len,
                len == 2 * N + 1,
                b == base::<U>(),
                mul == v.to_nat(),
                mul < b,
                256 <= b <= 0x1_0000_0000_0000_0000,
                carry < b,
                orig.len() == len,
                self@.len() == len,
                self@.skip(i as int) == orig.skip(i as int),
                mag_value(self@.take(i as int)) + carry * base_pow::<U>(i as nat) == mag_value(
                    orig.take(i as int),
                ) * mul,
            decreases len - i,
        {
            proof {
                lemma_skip_head(self@, orig, i as int);
                lemma_unit_bound(self@[i as int]);
            }
            let u: u128 = self.get(i).widen();
            assert(carry + u * mul < b * b && u * mul < b * b && b * b
                <= 0x1_0000_0000_0000_0000_0000_0000_0000_0000) by (nonlinear_arith)
                requires
                    carry < b,
                    u < b,
                    mul < b,
                    b <= 0x1_0000_0000_0000_0000,
            ;
            let m: u128 = carry + u * mul;
            let lo: U = U::narrow(m % b);
            let ghost prev = self@;
            self.set(i, lo);
            proof {
                let p = base_pow::<U>(i as nat);
                lemma_base_pow::<U>(i as nat);
                vstd::arithmetic::div_mod::lemma_small_mod((m % b) as nat, base::<U>());
                vstd::arithmetic::div_mod::lemma_fundamental_div_mod(m as int, b as int);
                lemma_update_step(prev, i as int, lo);
                lemma_take_step(orig, i as int);
                let c2 = (m / b) as int;
                let l = (m % b) as int;
                assert(c2 < b) by (nonlinear_arith)
                    requires
                        m == b * c2 + l,
                        m < b * b,
                        l >= 0,
                        b > 0,
                ;
                let mo = mag_value(orig.take(i as int));
                assert(l * p + c2 * (p * b) == carry * p + (u * p) * mul) by (nonlinear_arith)
                    requires
                        carry + u * mul == b * c2 + l,
                ;
                assert((mo + u * p) * mul == mo * mul + (u * p) * mul) by (nonlinear_arith);
            }
            carry = m / b;
            i += 1;
        }
        proof {
            assert(self@.take(len as int) =~= self@);
            assert(orig.take(len as int) =~= orig);
            vstd::arithmetic::div_mod::lemma_small_mod(carry as nat, base::<U>());
        }
        U::narrow(carry)
    }

    /// Divides the magnitude by the unit `d`; returns the remainder.
    pub fn divide_by_unit(&mut self, d: U) -> (rem: U)
        requires
            length_fits(N as nat),
            d.to_nat() != 0,
        ensures
            mag_value(final(self)@) == mag_value(old(self)@) / d.to_nat(),
            rem.to_nat() == mag_value(old(self)@) % d.to_nat(),
    {
        let ghost orig = self@;
        let mut rem = U::zero();
        let len: usize = 2 * N + 1;
        let mut i: usize = len;
        proof {
            assert(orig.skip(i as int) =~= Seq::<U>::empty());
            assert(mag_value(Seq::<U>::empty()) == 0);
            lemma_base::<U>();
        }
        while i > 0
            invariant
                i <= len,
                len == 2 * N + 1,
                orig.len() == len,
                self@.len() == len,
                d.to_nat() != 0,
                rem.to_nat() < d.to_nat(),
                self@.take(i as int) == orig.take(i as int),
                mag_value(orig.skip(i as int)) == mag_value(self@.skip(i as int)) * d.to_nat()
                    + rem.to_nat(),
            decreases i,
        {
            let x = self.get(i - 1);
            let (w, r) = crate::units::div_wide(rem, x, d);
            let ghost prev = self@;
            self.set(i - 1, w);
            proof {
                crate::magnitude::lemma_short_division_step(orig, prev, i as int, rem, d, w, r);
            }
            rem = r;
            i -= 1;
        }
        proof {
            assert(orig.skip(0) =~= orig);
            assert(self@.skip(0) =~= self@);
            vstd::arithmetic::div_mod::lemma_fundamental_div_mod_converse(
                mag_value(orig) as int,
                d.to_nat() as int,
                mag_value(self@) as int,
                rem.to_nat() as int,
            );
        }
        rem
    }

    /// Adds the unit `u`, at the place of index `k`, to the magnitude.
    pub fn add_unit_at(&mut self, k: usize, u: U)
        requires
            length_fits(N as nat),
            k < 2 * N + 1,
            mag_value(old(self)@) + u.to_nat() * base_pow::<U>(k as nat) < base_pow::<U>(
                (2 * N + 1) as nat,
            ),
        ensures
            mag_value(final(self)@) == mag_value(old(self)@) + u.to_nat() * base_pow::<U>(k as nat),
    {
        let ghost orig = self@;
        let b: u128 = U::radix();
        let mut carry: u128 = u.widen();
        let mut i: usize = k;
        let len: usize = 2 * N + 1;
        proof {
            lemma_base::<U>();
            lemma_unit_bound(u);
        }
        while i < len && carry != 0
            invariant
                k <= i <= len,
                len == 2 * N + 1,
                b == base::<U>(),
                256 <= b <= 0x1_0000_0000_0000_0000,
                carry < b,
                orig.len() == len,
                self@.len() == len,
                self@.skip(i as int) == orig.skip(i as int),
                mag_value(self@.take(i as int)) + carry * base_pow::<U>(i as nat) == mag_value(
                    orig.take(i as int),
                ) + u.to_nat() * base_pow::<U>(k as nat),
            decreases len - i,
        {
            proof {
                lemma_skip_head(self@, orig, i as int);
                lemma_unit_bound(self@[i as int]);
            }
            let d: u128 = self.get(i).widen();
            let m: u128 = carry + d;
            let lo: U = U::narrow(m % b);
            let ghost prev = self@;
            self.set(i, lo);
            proof {
                let p = base_pow::<U>(i as nat);
                lemma_base_pow::<U>(i as nat);
                vstd::arithmetic::div_mod::lemma_small_mod((m % b) as nat, base::<U>());
                vstd::arithmetic::div_mod::lemma_fundamental_div_mod(m as int, b as int);
                lemma_update_step(prev, i as int, lo);
                lemma_take_step(orig, i as int);
                let c2 = (m / b) as int;
                let l = (m % b) as int;
                assert(c2 <= 1) by (nonlinear_arith)
                    requires
                        m == b * c2 + l,
                        m < 2 * b,
                        l >= 0,
                        b > 0,
                ;
                assert(l * p + c2 * (p * b) == carry * p + d * p) by (nonlinear_arith)
                    requires
                        carry + d == b * c2 + l,
                ;
            }
            carry = m / b;
            i += 1;
        }
        proof {
            lemma_mag_split(self@, i as int);
            lemma_mag_split(orig, i as int);
            let p = base_pow::<U>(i as nat);
            lemma_base_pow::<U>(i as nat);
            if carry != 0 {
                assert(i == len);
                assert(self@.skip(i as int) =~= Seq::<U>::empty());
                assert(mag_value(Seq::<U>::empty()) == 0);
                assert(carry * p >= p) by (nonlinear_arith)
                    requires
                        carry >= 1,
                        p > 0,
                ;
                assert(p * 0 == 0);
            } else {
                assert(carry * p == 0) by (nonlinear_arith)
                    requires
                        carry == 0,
                ;
            }
        }
    }
}

/// The partial sums of a schoolbook product stay below the radix to the
/// power `2 * N`.
proof fn lemma_partial_product_bound<U: NumberUnit>(a: Seq<U>, b: Seq<U>, i: int, j: int)
    requires
        a.len() == b.len(),
        0 <= i < a.len(),
        0 <= j < b.len(),
    ensures
        mag_value(a.take(i)) * mag_value(b) + a[i].to_nat() * base_pow::<U>(i as nat) * mag_value(
            b.take(j + 1),
        ) < base_pow::<U>((2 * a.len()) as nat),
        mag_value(b.take(j + 1)) == mag_value(b.take(j)) + b[j].to_nat() * base_pow::<U>(j as nat),
        base_pow::<U>((2 * a.len()) as nat) < base_pow::<U>((2 * a.len() + 1) as nat),
{
    let n = a.len();
    lemma_take_step(a, i);
    lemma_take_step(b, j);
    lemma_mag_split(b, j + 1);
    lemma_mag_split(a, i + 1);
    lemma_mag_value_bound(a);
    lemma_mag_value_bound(b);
    lemma_base_pow_adds::<U>(n, n);
    lemma_base_pow::<U>(2 * n);
    lemma_base_pow::<U>(n);
    lemma_base_pow::<U>((j + 1) as nat);
    lemma_base_pow::<U>((i + 1) as nat);
    lemma_base::<U>();
    let ai = mag_value(a.take(i));
    let ai1 = mag_value(a.take(i + 1));
    let bv = mag_value(b);
    let bj1 = mag_value(b.take(j + 1));
    let x = a[i].to_nat() * base_pow::<U>(i as nat);
    let pn = base_pow::<U>(n);
    let ra = base_pow::<U>((i + 1) as nat) * mag_value(a.skip(i + 1));
    let rb = base_pow::<U>((j + 1) as nat) * mag_value(b.skip(j + 1));
    assert(ra >= 0 && rb >= 0) by (nonlinear_arith)
        requires
            ra == base_pow::<U>((i + 1) as nat) * mag_value(a.skip(i + 1)),
            rb == base_pow::<U>((j + 1) as nat) * mag_value(b.skip(j + 1)),
    ;
    assert(ai * bv + x * bj1 < pn * pn) by (nonlinear_arith)
        requires
            ai1 == ai + x,
            bj1 <= bv,
            ai1 < pn,
            bv < pn,
            ai >= 0,
            x >= 0,
            bj1 >= 0,
    ;
    let p2 = base_pow::<U>(2 * n);
    assert(p2 < p2 * base::<U>()) by (nonlinear_arith)
        requires
            p2 > 0,
            base::<U>() >= 256,
    ;
}

/// Calculates `a * b`.
pub fn multiply<U: NumberUnit, const N: usize>(a: &[U; N], b: &[U; N]) -> (r: Wide<U, N>)
    requires
        length_fits(N as nat),
    ensures
        mag_value(r@) == mag_value(a@) * mag_value(b@),
        mag_value(r@) < base_pow::<U>((2 * N) as nat),
{
    let mut dest: Wide<U, N> = Wide::zero();
    let radix: u128 = U::radix();
    let mut i: usize = 0;
    proof {
        lemma_base::<U>();
        assert(a@.take(0) =~= Seq::<U>::empty());
        assert(mag_value(Seq::<U>::empty()) == 0);
        assert(0 * mag_value(b@) == 0);
    }
    while i < N
        invariant
            i <= N,
            length_fits(N as nat),
            radix == base::<U>(),
            256 <= radix <= 0x1_0000_0000_0000_0000,
            mag_value(dest@) == mag_value(a@.take(i as int)) * mag_value(b@),
        decreases N - i,
    {
        let ad: u128 = a[i].widen();
        let mut j: usize = 0;
        proof {
            assert(b@.take(0) =~= Seq::<U>::empty());
            assert(mag_value(Seq::<U>::empty()) == 0);
            assert(a@[i as int].to_nat() * base_pow::<U>(i as nat) * 0 == 0);
            lemma_unit_bound(a@[i as int]);
        }
        while j < N
            invariant
                j <= N,
                i < N,
                length_fits(N as nat),
                radix == base::<U>(),
                256 <= radix <= 0x1_0000_0000_0000_0000,
                ad == a@[i as int].to_nat(),
                ad < radix,
                mag_value(dest@) == mag_value(a@.take(i as int)) * mag_value(b@)
                    + a@[i as int].to_nat() * base_pow::<U>(i as nat) * mag_value(
                    b@.take(j as int),
                ),
            decreases N - j,
        {
            proof {
                lemma_unit_bound(b@[j as int]);
            }
            let bd: u128 = b[j].widen();
            assert(ad * bd < radix * radix && radix * radix
                <= 0x1_0000_0000_0000_0000_0000_0000_0000_0000) by (nonlinear_arith)
                requires
                    ad < radix,
                    bd < radix,
                    radix <= 0x1_0000_0000_0000_0000,
            ;
            let t: u128 = ad * bd;
            let t_lo: U = U::narrow(t % radix);
            let t_hi: U = U::narrow(t / radix);
            proof {
                vstd::arithmetic::div_mod::lemma_fundamental_div_mod(t as int, radix as int);
                let q = (t / radix) as int;
                let l = (t % radix) as int;
                assert(q < radix) by (nonlinear_arith)
                    requires
                        t == radix * q + l,
                        t < radix * radix,
                        l >= 0,
                        radix > 0,
                ;
                vstd::arithmetic::div_mod::lemma_small_mod(l as nat, base::<U>());
                vstd::arithmetic::div_mod::lemma_small_mod(q as nat, base::<U>());
                lemma_partial_product_bound(a@, b@, i as int, j as int);
                lemma_base_pow_adds::<U>(i as nat, j as nat);
                lemma_base_pow::<U>((i + j) as nat);
                let pi = base_pow::<U>(i as nat);
                let pj = base_pow::<U>(j as nat);
                let pij = base_pow::<U>((i + j) as nat);
                let bj = mag_value(b@.take(j as int));
                // the two halves of the partial product at their places
                assert(l * pij + q * (pij * radix) == ad * pi * (bd * pj)) by (nonlinear_arith)
                    requires
                        ad * bd == radix * q + l,
                        pij == pi * pj,
                ;
                assert(ad * pi * (bj + bd * pj) == ad * pi * bj + ad * pi * (bd * pj))
                    by (nonlinear_arith);
                assert(q * (pij * radix) >= 0) by (nonlinear_arith)
                    requires
                        q >= 0,
                        pij >= 0,
                        radix >= 0,
                ;
            }
            dest.add_unit_at(i + j, t_lo);
            dest.add_unit_at(i + j + 1, t_hi);
            j += 1;
        }
        proof {
            assert(b@.take(N as int) =~= b@);
            lemma_take_step(a@, i as int);
            let ai = mag_value(a@.take(i as int));
            let x = a@[i as int].to_nat() * base_pow::<U>(i as nat);
            let bv = mag_value(b@);
            assert((ai + x) * bv == ai * bv + x * bv) by (nonlinear_arith);
        }
        i += 1;
    }
    proof {
        assert(a@.take(N as int) =~= a@);
        lemma_mag_value_bound(a@);
        lemma_mag_value_bound(b@);
        lemma_base_pow_adds::<U>(N as nat, N as nat);
        let pn = base_pow::<U>(N as nat);
        assert(mag_value(a@) * mag_value(b@) < pn * pn) by (nonlinear_arith)
            requires
                mag_value(a@) < pn,
                mag_value(b@) < pn,
        ;
    }
    dest
}

} // verus!
