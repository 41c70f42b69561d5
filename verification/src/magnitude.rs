//! Arithmetic on magnitudes: little-endian arrays of units of a fixed length.

use vstd::prelude::*;
use crate::units::{
    NumberUnit, PrimNumber, base, base_pow, mag_value, lemma_base, lemma_base_pow,
    lemma_base_pow_adds, lemma_unit_bound, lemma_mag_value_bound, lemma_mag_value_low,
};

verus! {

/// How one magnitude stands to another.
#[derive(Clone, Copy, Debug, PartialEq, Eq, Structural)]
pub enum MagnitudeOrder {
    Less,
    Equal,
    Greater,
}

/// The value of the first `i + 1` units is that of the first `i` plus the
/// unit at `i` at its place.
pub proof fn lemma_take_step<U: NumberUnit>(s: Seq<U>, i: int)
    requires
        0 <= i < s.len(),
    ensures
        mag_value(s.take(i + 1)) == mag_value(s.take(i)) + s[i].to_nat() * base_pow::<U>(i as nat),
{
    let t = s.take(i + 1);
    assert(t.drop_last() =~= s.take(i));
    assert(t.last() == s[i]);
}

/// A magnitude is its low `k` units plus the rest at its place.
pub proof fn lemma_mag_split<U: NumberUnit>(s: Seq<U>, k: int)
    requires
        0 <= k <= s.len(),
    ensures
        mag_value(s) == mag_value(s.take(k)) + base_pow::<U>(k as nat) * mag_value(s.skip(k)),
    decreases s.len(),
{
    if k == s.len() {
        assert(s.take(k) =~= s);
        assert(s.skip(k) =~= Seq::<U>::empty());
        assert(base_pow::<U>(k as nat) * 0 == 0);
    } else {
        let t = s.drop_last();
        let n = (s.len() - 1) as nat;
        lemma_mag_split(t, k);
        assert(t.take(k) =~= s.take(k));
        assert(s.skip(k).drop_last() =~= t.skip(k));
        assert(s.skip(k).last() == s.last());
        lemma_base_pow_adds::<U>(k as nat, (n - k) as nat);
        let pk = base_pow::<U>(k as nat);
        let pr = base_pow::<U>((n - k) as nat);
        let d = s.last().to_nat();
        let m = mag_value(t.skip(k));
        assert(mag_value(s.skip(k)) == m + d * pr);
        assert(pk * (m + d * pr) == pk * m + d * (pk * pr)) by (nonlinear_arith);
    }
}

/// Two magnitudes of one length with one value are the same sequence.
pub proof fn lemma_mag_value_injective<U: NumberUnit>(a: Seq<U>, b: Seq<U>)
    requires
        a.len() == b.len(),
        mag_value(a) == mag_value(b),
    ensures
        a == b,
    decreases a.len(),
{
    if a.len() > 0 {
        lemma_base::<U>();
        lemma_mag_value_low(a);
        lemma_mag_value_low(b);
        lemma_unit_bound(a[0]);
        lemma_unit_bound(b[0]);
        let bb = base::<U>() as int;
        let x = a[0].to_nat() as int;
        let y = b[0].to_nat() as int;
        let p = mag_value(a.skip(1)) as int;
        let q = mag_value(b.skip(1)) as int;
        assert(x == y && p == q) by (nonlinear_arith)
            requires
                x + bb * p == y + bb * q,
                0 <= x < bb,
                0 <= y < bb,
                0 <= p,
                0 <= q,
        ;
        a[0].lemma_injective(b[0]);
        lemma_mag_value_injective(a.skip(1), b.skip(1));
        assert forall|i: int| 0 <= i < a.len() implies a[i] == b[i] by {
            if i > 0 {
                assert(a.skip(1)[i - 1] == a[i]);
                assert(b.skip(1)[i - 1] == b[i]);
            }
        }
        assert(a =~= b);
    } else {
        assert(a =~= b);
    }
}

/// Where two magnitudes agree above index `i` and differ at `i`, the unit at
/// `i` decides which is greater.
pub proof fn lemma_high_unit_decides<U: NumberUnit>(a: Seq<U>, b: Seq<U>, i: int)
    requires
        a.len() == b.len(),
        0 <= i < a.len(),
        a.skip(i + 1) == b.skip(i + 1),
        a[i].to_nat() < b[i].to_nat(),
    ensures
        mag_value(a) < mag_value(b),
{
    lemma_mag_split(a, i + 1);
    lemma_mag_split(b, i + 1);
    lemma_take_step(a, i);
    lemma_take_step(b, i);
    lemma_mag_value_bound(a.take(i));
    lemma_base_pow::<U>(i as nat);
    let p = base_pow::<U>(i as nat);
    let x = a[i].to_nat();
    let y = b[i].to_nat();
    assert(x * p + p <= y * p) by (nonlinear_arith)
        requires
            x < y,
            p > 0,
    ;
}

/// Compares two magnitudes as numbers.
pub fn compare_magnitudes<U: NumberUnit, const N: usize>(a: &[U; N], b: &[U; N]) -> (r:
    MagnitudeOrder)
    ensures
        r == MagnitudeOrder::Less <==> mag_value(a@) < mag_value(b@),
        r == MagnitudeOrder::Equal <==> mag_value(a@) == mag_value(b@),
        r == MagnitudeOrder::Greater <==> mag_value(a@) > mag_value(b@),
{
    let mut i: usize = N;
    assert(a@.skip(N as int) =~= b@.skip(N as int));
    while i > 0
        invariant
            i <= N,
            a@.skip(i as int) == b@.skip(i as int),
        decreases i,
    {
        let x: u128 = a[i - 1].widen();
        let y: u128 = b[i - 1].widen();
        if x > y {
            proof {
                lemma_high_unit_decides(b@, a@, i - 1);
            }
            return MagnitudeOrder::Greater;
        } else if x < y {
            proof {
                lemma_high_unit_decides(a@, b@, i - 1);
            }
            return MagnitudeOrder::Less;
        }
        proof {
            a[i - 1].lemma_injective(b[i - 1]);
            let sa = a@.skip(i - 1);
            let sb = b@.skip(i - 1);
            assert forall|k: int| 0 <= k < sa.len() implies sa[k] == sb[k] by {
                if k > 0 {
                    assert(a@.skip(i as int)[k - 1] == a@[i - 1 + k]);
                    assert(b@.skip(i as int)[k - 1] == b@[i - 1 + k]);
                }
            }
            assert(sa =~= sb);
        }
        i -= 1;
    }
    proof {
        assert(a@.skip(0) =~= a@);
        assert(b@.skip(0) =~= b@);
    }
    MagnitudeOrder::Equal
}

/// Adds `rhs` to `dest`; returns the carry out of the highest unit.
pub fn add_magnitude<U: NumberUnit, const N: usize>(dest: &mut [U; N], rhs: &[U; N]) -> (carry: U)
    ensures
        mag_value(final(dest)@) + carry.to_nat() * base_pow::<U>(N as nat) == mag_value(old(dest)@)
            + mag_value(rhs@),
        carry.to_nat() <= 1,
{
    let ghost orig = dest@;
    let b: u128 = U::radix();
    let mut carry: u128 = 0;
    let mut i: usize = 0;
    proof {
        lemma_base::<U>();
        lemma_base_pow::<U>(0);
        assert(dest@.take(0) =~= Seq::<U>::empty());
        assert(rhs@.take(0) =~= Seq::<U>::empty());
        assert(mag_value(Seq::<U>::empty()) == 0);
    }
    while i < N
        invariant
            i <= N,
            b == base::<U>(),
            256 <= b <= 0x1_0000_0000_0000_0000,
            carry <= 1,
            orig.len() == N,
            dest@.skip(i as int) == orig.skip(i as int),
            mag_value(dest@.take(i as int)) + carry * base_pow::<U>(i as nat) == mag_value(
                orig.take(i as int),
            ) + mag_value(rhs@.take(i as int)),
        decreases N - i,
    {
        let d: u128 = dest[i].widen();
        let r: u128 = rhs[i].widen();
        proof {
            lemma_unit_bound(dest[i as int]);
            lemma_unit_bound(rhs[i as int]);
            assert(dest@[i as int] == orig[i as int]) by {
                assert(dest@.skip(i as int)[0] == orig.skip(i as int)[0]);
            }
        }
        let m: u128 = carry + d + r;
        let lo: U = U::narrow(m % b);
        let ghost prev = dest@;
        dest[i] = lo;
        proof {
            let p = base_pow::<U>(i as nat);
            lemma_base_pow::<U>(i as nat);
            vstd::arithmetic::div_mod::lemma_small_mod((m % b) as nat, base::<U>());
            vstd::arithmetic::div_mod::lemma_fundamental_div_mod(m as int, b as int);
            lemma_take_step(dest@, i as int);
            lemma_take_step(orig, i as int);
            lemma_take_step(rhs@, i as int);
            assert(dest@.take(i as int) =~= prev.take(i as int));
            let sd = dest@.skip(i + 1);
            let so = orig.skip(i + 1);
            assert forall|k: int| 0 <= k < sd.len() implies sd[k] == so[k] by {
                assert(prev.skip(i as int)[k + 1] == orig.skip(i as int)[k + 1]);
            }
            assert(sd =~= so);
            let c2 = (m / b) as int;
            let l = (m % b) as int;
            assert(c2 <= 1) by (nonlinear_arith)
                requires
                    m == b * c2 + l,
                    m < 2 * b,
                    l >= 0,
                    b > 0,
            ;
            assert((l + c2 * b) * p == l * p + c2 * (p * b)) by (nonlinear_arith);
            assert((carry + d + r) * p == carry * p + d * p + r * p) by (nonlinear_arith);
        }
        carry = m / b;
        i += 1;
    }
    proof {
        assert(dest@.take(N as int) =~= dest@);
        assert(orig.take(N as int) =~= orig);
        assert(rhs@.take(N as int) =~= rhs@);
        vstd::arithmetic::div_mod::lemma_small_mod(carry as nat, base::<U>());
    }
    U::narrow(carry)
}

/// What one step of a loop that rewrites a magnitude from the low end does:
/// the units below `i` and above it stay, and the value of the low `i + 1`
/// units is that of the low `i` plus the new unit at its place.
pub proof fn lemma_update_step<U: NumberUnit>(prev: Seq<U>, i: int, v: U)
    requires
        0 <= i < prev.len(),
    ensures
        prev.update(i, v).take(i) == prev.take(i),
        prev.update(i, v).skip(i + 1) == prev.skip(i + 1),
        mag_value(prev.update(i, v).take(i + 1)) == mag_value(prev.take(i)) + v.to_nat()
            * base_pow::<U>(i as nat),
{
    let next = prev.update(i, v);
    assert(next.take(i) =~= prev.take(i));
    assert(next.skip(i + 1) =~= prev.skip(i + 1));
    lemma_take_step(next, i);
}

/// The unit at `i` of a sequence whose tail from `i` is that of another.
pub proof fn lemma_skip_head<U: NumberUnit>(a: Seq<U>, b: Seq<U>, i: int)
    requires
        a.len() == b.len(),
        0 <= i < a.len(),
        a.skip(i) == b.skip(i),
    ensures
        a[i] == b[i],
        a.skip(i + 1) == b.skip(i + 1),
{
    assert(a.skip(i)[0] == b.skip(i)[0]);
    let sa = a.skip(i + 1);
    let sb = b.skip(i + 1);
    assert forall|k: int| 0 <= k < sa.len() implies sa[k] == sb[k] by {
        assert(a.skip(i)[k + 1] == b.skip(i)[k + 1]);
    }
    assert(sa =~= sb);
}

/// Subtracts `rhs` from `src`, which must not be the smaller one.
pub fn sub_from_greater<U: NumberUnit, const N: usize>(src: &mut [U; N], rhs: &[U; N])
    requires
        mag_value(old(src)@) >= mag_value(rhs@),
    ensures
        mag_value(final(src)@) == mag_value(old(src)@) - mag_value(rhs@),
{
    let ghost orig = src@;
    let b: u128 = U::radix();
    let mut borrow: u128 = 0;
    let mut i: usize = 0;
    proof {
        lemma_base::<U>();
        lemma_base_pow::<U>(0);
        assert(src@.take(0) =~= Seq::<U>::empty());
        assert(rhs@.take(0) =~= Seq::<U>::empty());
        assert(mag_value(Seq::<U>::empty()) == 0);
    }
    while i < N
        invariant
            i <= N,
            b == base::<U>(),
            256 <= b <= 0x1_0000_0000_0000_0000,
            borrow <= 1,
            orig.len() == N,
            src@.skip(i as int) == orig.skip(i as int),
            mag_value(src@.take(i as int)) + mag_value(rhs@.take(i as int)) == mag_value(
                orig.take(i as int),
            ) + borrow * base_pow::<U>(i as nat),
        decreases N - i,
    {
        proof {
            lemma_skip_head(src@, orig, i as int);
            lemma_unit_bound(src[i as int]);
            lemma_unit_bound(rhs[i as int]);
        }
        let s: u128 = src[i].widen();
        let r: u128 = rhs[i].widen();
        let m: u128 = b + s - r - borrow;
        let lo: U = U::narrow(m % b);
        let ghost prev = src@;
        src[i] = lo;
        proof {
            let p = base_pow::<U>(i as nat);
            lemma_base_pow::<U>(i as nat);
            vstd::arithmetic::div_mod::lemma_small_mod((m % b) as nat, base::<U>());
            vstd::arithmetic::div_mod::lemma_fundamental_div_mod(m as int, b as int);
            lemma_update_step(prev, i as int, lo);
            lemma_take_step(orig, i as int);
            lemma_take_step(rhs@, i as int);
            let c2 = (m / b) as int;
            let l = (m % b) as int;
            assert(c2 <= 1) by (nonlinear_arith)
                requires
                    m == b * c2 + l,
                    m < 2 * b,
                    l >= 0,
                    b > 0,
            ;
            assert((l + c2 * b) * p == l * p + c2 * (p * b)) by (nonlinear_arith);
            assert((b + s - r - borrow) * p == p * b + s * p - r * p - borrow * p)
                by (nonlinear_arith);
            assert((1 - c2) * (p * b) == p * b - c2 * (p * b)) by (nonlinear_arith);
        }
        borrow = 1 - m / b;
        i += 1;
    }
    proof {
        assert(src@.take(N as int) =~= src@);
        assert(orig.take(N as int) =~= orig);
        assert(rhs@.take(N as int) =~= rhs@);
        lemma_mag_value_bound(src@);
        let p = base_pow::<U>(N as nat);
        assert(borrow == 0) by (nonlinear_arith)
            requires
                borrow <= 1,
                mag_value(src@) + mag_value(rhs@) == mag_value(orig) + borrow * p,
                mag_value(src@) < p,
                mag_value(orig) >= mag_value(rhs@),
        ;
    }
}

/// Multiplies the magnitude by the unit `v`; returns the carry out of the
/// highest unit.
pub fn multiply_by_unit<U: NumberUnit, const N: usize>(mag: &mut [U; N], v: U) -> (carry: U)
    ensures
        mag_value(final(mag)@) + carry.to_nat() * base_pow::<U>(N as nat) == mag_value(old(mag)@)
            * v.to_nat(),
{
    let ghost orig = mag@;
    let b: u128 = U::radix();
    let mul: u128 = v.widen();
    let mut carry: u128 = 0;
    let mut i: usize = 0;
    proof {
        lemma_base::<U>();
        lemma_base_pow::<U>(0);
        lemma_unit_bound(v);
        assert(mag@.take(0) =~= Seq::<U>::empty());
        assert(mag_value(Seq::<U>::empty()) == 0);
    }
    while i < N
        invariant
            i <= N,
            b == base::<U>(),
            mul == v.to_nat(),
            mul < b,
            256 <= b <= 0x1_0000_0000_0000_0000,
            carry < b,
            orig.len() == N,
            mag@.skip(i as int) == orig.skip(i as int),
            mag_value(mag@.take(i as int)) + carry * base_pow::<U>(i as nat) == mag_value(
                orig.take(i as int),
            ) * mul,
        decreases N - i,
    {
        proof {
            lemma_skip_head(mag@, orig, i as int);
            lemma_unit_bound(mag[i as int]);
        }
        let u: u128 = mag[i].widen();
        assert(carry + u * mul < b * b && u * mul < b * b && b * b
            <= 0x1_0000_0000_0000_0000_0000_0000_0000_0000) by (nonlinear_arith)
            requires
                carry < b,
                u < b,
                mul < b,
                b <= 0x1_0000_0000_0000_0000,
        ;
        let m: u128 = carry + u * mul;
        let lo: U = U::narrow(m % b);
        let ghost prev = mag@;
        mag[i] = lo;
        proof {
            let p = base_pow::<U>(i as nat);
            lemma_base_pow::<U>(i as nat);
            vstd::arithmetic::div_mod::lemma_small_mod((m % b) as nat, base::<U>());
            vstd::arithmetic::div_mod::lemma_fundamental_div_mod(m as int, b as int);
            lemma_update_step(prev, i as int, lo);
            lemma_take_step(orig, i as int);
            let c2 = (m / b) as int;
            let l = (m % b) as int;
            assert(c2 < b) by (nonlinear_arith)
                requires
                    m == b * c2 + l,
                    m < b * b,
                    l >= 0,
                    b > 0,
            ;
            assert((l + c2 * b) * p == l * p + c2 * (p * b)) by (nonlinear_arith);
            assert((carry + u * mul) * p == carry * p + (u * p) * mul) by (nonlinear_arith);
            let mo = mag_value(orig.take(i as int));
            assert((mo + u * p) * mul == mo * mul + (u * p) * mul) by (nonlinear_arith);
        }
        carry = m / b;
        i += 1;
    }
    proof {
        assert(mag@.take(N as int) =~= mag@);
        assert(orig.take(N as int) =~= orig);
        vstd::arithmetic::div_mod::lemma_small_mod(carry as nat, base::<U>());
    }
    U::narrow(carry)
}

/// Adds the unit `u` to the magnitude; returns the carry out of the highest
/// unit.
pub fn add_unit<U: NumberUnit, const N: usize>(mag: &mut [U; N], u: U) -> (carry: U)
    ensures
        mag_value(final(mag)@) + carry.to_nat() * base_pow::<U>(N as nat) == mag_value(old(mag)@)
            + u.to_nat(),
{
    let ghost orig = mag@;
    let b: u128 = U::radix();
    let mut carry: u128 = u.widen();
    let mut i: usize = 0;
    proof {
        lemma_base::<U>();
        lemma_base_pow::<U>(0);
        lemma_unit_bound(u);
        assert(mag@.take(0) =~= Seq::<U>::empty());
        assert(mag_value(Seq::<U>::empty()) == 0);
    }
    while i < N
        invariant
            i <= N,
            b == base::<U>(),
            256 <= b <= 0x1_0000_0000_0000_0000,
            carry < b,
            orig.len() == N,
            mag@.skip(i as int) == orig.skip(i as int),
            mag_value(mag@.take(i as int)) + carry * base_pow::<U>(i as nat) == mag_value(
                orig.take(i as int),
            ) + u.to_nat(),
        decreases N - i,
    {
        proof {
            lemma_skip_head(mag@, orig, i as int);
            lemma_unit_bound(mag[i as int]);
        }
        let d: u128 = mag[i].widen();
        let m: u128 = carry + d;
        let lo: U = U::narrow(m % b);
        let ghost prev = mag@;
        mag[i] = lo;
        proof {
            let p = base_pow::<U>(i as nat);
            lemma_base_pow::<U>(i as nat);
            vstd::arithmetic::div_mod::lemma_small_mod((m % b) as nat, base::<U>());
            vstd::arithmetic::div_mod::lemma_fundamental_div_mod(m as int, b as int);
            lemma_update_step(prev, i as int, lo);
            lemma_take_step(orig, i as int);
            let c2 = (m / b) as int;
            let l = (m % b) as int;
            assert(c2 <= 1) by (nonlinear_arith)
                requires
                    m == b * c2 + l,
                    m < 2 * b,
                    l >= 0,
                    b > 0,
            ;
            assert(l * p + c2 * (p * b) == carry * p + d * p) by (nonlinear_arith)
                requires
                    carry + d == b * c2 + l,
            ;
        }
        carry = m / b;
        i += 1;
    }
    proof {
        assert(mag@.take(N as int) =~= mag@);
        assert(orig.take(N as int) =~= orig);
        vstd::arithmetic::div_mod::lemma_small_mod(carry as nat, base::<U>());
    }
    U::narrow(carry)
}

/// Replacing the unit at `k` changes the value by the difference of the two
/// units at that place.
pub proof fn lemma_set_unit_value<U: NumberUnit>(s: Seq<U>, k: int, v: U)
    requires
        0 <= k < s.len(),
    ensures
        mag_value(s.update(k, v)) + s[k].to_nat() * base_pow::<U>(k as nat) == mag_value(s)
            + v.to_nat() * base_pow::<U>(k as nat),
{
    let t = s.update(k, v);
    lemma_mag_split(s, k);
    lemma_mag_split(t, k);
    assert(t.take(k) =~= s.take(k));
    lemma_mag_value_low(s.skip(k));
    lemma_mag_value_low(t.skip(k));
    assert(t.skip(k).skip(1) =~= s.skip(k).skip(1));
    let p = base_pow::<U>(k as nat);
    let r = mag_value(s.skip(k).skip(1));
    let b = base::<U>();
    let x = s[k].to_nat();
    let y = v.to_nat();
    assert(p * (x + b * r) + y * p == p * (y + b * r) + x * p) by (nonlinear_arith);
}

/// A magnitude whose value is below the radix to the `k` has only zeros from
/// index `k` on, and the value of its low `k` units.
pub proof fn lemma_high_zero<U: NumberUnit>(s: Seq<U>, k: int)
    requires
        0 <= k <= s.len(),
        mag_value(s) < base_pow::<U>(k as nat),
    ensures
        mag_value(s.take(k)) == mag_value(s),
        forall|i: int| k <= i < s.len() ==> (#[trigger] s[i]).to_nat() == 0,
        crate::units::weight_of(s) <= k,
{
    lemma_mag_split(s, k);
    let p = base_pow::<U>(k as nat);
    let h = mag_value(s.skip(k));
    lemma_base_pow::<U>(k as nat);
    assert(h == 0) by (nonlinear_arith)
        requires
            p * h < p,
            p > 0,
            h >= 0,
    ;
    assert(p * 0 == 0);
    crate::units::lemma_mag_value_zero(s.skip(k));
    assert forall|i: int| k <= i < s.len() implies (#[trigger] s[i]).to_nat() == 0 by {
        assert(s.skip(k)[i - k] == s[i]);
    }
    crate::units::lemma_weight(s);
    let w = crate::units::weight_of(s);
    if w > k {
        assert(s[w - 1].to_nat() == 0);
    }
}

/// A magnitude with only zeros from index `k` on has the value of its low
/// `k` units, which is below the radix to the `k`.
pub proof fn lemma_zero_above<U: NumberUnit>(s: Seq<U>, k: int)
    requires
        0 <= k <= s.len(),
        forall|i: int| k <= i < s.len() ==> (#[trigger] s[i]).to_nat() == 0,
    ensures
        mag_value(s.take(k)) == mag_value(s),
        mag_value(s) < base_pow::<U>(k as nat),
{
    lemma_mag_split(s, k);
    let h = s.skip(k);
    assert(crate::units::all_zero(h)) by {
        assert forall|i: int| 0 <= i < h.len() implies (#[trigger] h[i]).to_nat() == 0 by {
            assert(h[i] == s[i + k]);
        }
    }
    crate::units::lemma_mag_value_zero(h);
    assert(base_pow::<U>(k as nat) * 0 == 0);
    lemma_mag_value_bound(s.take(k));
}

/// Divides the magnitude by the unit `d`; returns the remainder.
pub fn divide_by_unit<U: NumberUnit, const N: usize>(mag: &mut [U; N], d: U) -> (rem: U)
    requires
        d.to_nat() != 0,
    ensures
        mag_value(final(mag)@) == mag_value(old(mag)@) / d.to_nat(),
        rem.to_nat() == mag_value(old(mag)@) % d.to_nat(),
{
    let ghost orig = mag@;
    let mut rem = U::zero();
    let mut i: usize = N;
    proof {
        assert(orig.skip(i as int) =~= Seq::<U>::empty());
        assert(mag_value(Seq::<U>::empty()) == 0);
        lemma_base::<U>();
    }
    while i > 0
        invariant
            i <= N,
            orig.len() == N,
            d.to_nat() != 0,
            rem.to_nat() < d.to_nat(),
            mag@.take(i as int) == orig.take(i as int),
            mag_value(orig.skip(i as int)) == mag_value(mag@.skip(i as int)) * d.to_nat()
                + rem.to_nat(),
        decreases i,
    {
        let x = mag[i - 1];
        let (w, r) = crate::units::div_wide(rem, x, d);
        let ghost prev = mag@;
        mag[i - 1] = w;
        proof {
            lemma_short_division_step(orig, prev, i as int, rem, d, w, r);
        }
        rem = r;
        i -= 1;
    }
    proof {
        assert(orig.skip(0) =~= orig);
        assert(mag@.skip(0) =~= mag@);
        vstd::arithmetic::div_mod::lemma_fundamental_div_mod_converse(
            mag_value(orig) as int,
            d.to_nat() as int,
            mag_value(mag@) as int,
            rem.to_nat() as int,
        );
    }
    rem
}

/// One step of a short division that runs from the high end: the unit at
/// `i - 1` is replaced by the quotient `w` of the running remainder and that
/// unit by `d`, and `r` is the new remainder.
pub proof fn lemma_short_division_step<U: NumberUnit>(
    orig: Seq<U>,
    prev: Seq<U>,
    i: int,
    rem: U,
    d: U,
    w: U,
    r: U,
)
    requires
        orig.len() == prev.len(),
        0 < i <= orig.len(),
        d.to_nat() != 0,
        prev.take(i) == orig.take(i),
        mag_value(orig.skip(i)) == mag_value(prev.skip(i)) * d.to_nat() + rem.to_nat(),
        w.to_nat() == (rem.to_nat() * base::<U>() + prev[i - 1].to_nat()) / d.to_nat(),
        r.to_nat() == (rem.to_nat() * base::<U>() + prev[i - 1].to_nat()) % d.to_nat(),
    ensures
        r.to_nat() < d.to_nat(),
        prev.update(i - 1, w).take(i - 1) == orig.take(i - 1),
        mag_value(orig.skip(i - 1)) == mag_value(prev.update(i - 1, w).skip(i - 1)) * d.to_nat()
            + r.to_nat(),
{
    let bb = base::<U>();
    let x = prev[i - 1];
    let so = orig.skip(i - 1);
    let sd0 = prev.skip(i);
    assert(x == orig[i - 1]) by {
        let tp = prev.take(i);
        let to = orig.take(i);
        assert(tp[i - 1] == prev[i - 1]);
        assert(to[i - 1] == orig[i - 1]);
    }
    lemma_mag_value_low(so);
    assert(so.skip(1) =~= orig.skip(i));
    assert(so[0] == x);
    let y = rem.to_nat() * bb + x.to_nat();
    vstd::arithmetic::div_mod::lemma_fundamental_div_mod(y as int, d.to_nat() as int);
    vstd::arithmetic::div_mod::lemma_mod_bound(y as int, d.to_nat() as int);
    let sd1 = prev.update(i - 1, w).skip(i - 1);
    lemma_mag_value_low(sd1);
    assert(sd1.skip(1) =~= sd0);
    assert(sd1[0] == w);
    let md = mag_value(sd0);
    let dn = d.to_nat();
    assert(x.to_nat() + bb * (md * dn + rem.to_nat()) == (w.to_nat() + bb * md) * dn + r.to_nat())
        by (nonlinear_arith)
        requires
            rem.to_nat() * bb + x.to_nat() == dn * w.to_nat() + r.to_nat(),
    ;
    assert(prev.update(i - 1, w).take(i - 1) =~= orig.take(i - 1));
}

} // verus!
