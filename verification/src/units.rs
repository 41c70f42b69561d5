//! Units: the unsigned integers a magnitude is made of, and the operations
//! on sequences of them that need no fixed length.

use vstd::prelude::*;
use vstd::arithmetic::power::{pow, lemma_pow0, lemma_pow1, lemma_pow_adds, lemma_pow_positive};
use vstd::arithmetic::power2::{pow2, lemma2_to64, lemma2_to64_rest, lemma_pow2_adds};

verus! {

/// Ten to the power `n`.
pub open spec fn pow10(n: nat) -> nat
    decreases n,
{
    if n == 0 {
        1
    } else {
        10 * pow10((n - 1) as nat)
    }
}

/// Two to the power 128.
pub proof fn lemma_pow2_128()
    ensures
        pow2(128) == 0x1_0000_0000_0000_0000_0000_0000_0000_0000,
{
    lemma2_to64();
    lemma_pow2_adds(64, 64);
}

/// The powers of ten that the units hold, and those next to them.
pub proof fn lemma_pow10_values()
    ensures
        pow10(0) == 1,
        pow10(1) == 10,
        pow10(2) == 100,
        pow10(3) == 1000,
        pow10(4) == 10000,
        pow10(5) == 100000,
        pow10(9) == 1000000000,
        pow10(10) == 10000000000,
        pow10(19) == 10000000000000000000,
        pow10(20) == 100000000000000000000,
{
    reveal_with_fuel(pow10, 21);
}

/// A power of ten is positive.
pub proof fn lemma_pow10_positive(n: nat)
    ensures
        pow10(n) > 0,
    decreases n,
{
    if n > 0 {
        lemma_pow10_positive((n - 1) as nat);
    }
}

/// Ten to a sum is the product of the powers.
pub proof fn lemma_pow10_adds(a: nat, b: nat)
    ensures
        pow10(a + b) == pow10(a) * pow10(b),
    decreases a,
{
    if a == 0 {
        assert(pow10(0) == 1);
    } else {
        lemma_pow10_adds((a - 1) as nat, b);
        assert(pow10(a + b) == 10 * pow10((a - 1 + b) as nat));
        assert(10 * (pow10((a - 1) as nat) * pow10(b)) == (10 * pow10((a - 1) as nat)) * pow10(b))
            by (nonlinear_arith);
    }
}

/// A primitive unsigned integer that can serve as a unit or as a double unit.
pub trait PrimNumber: Copy + Sized {
    /// Width of the type in bits.
    spec fn bit_width() -> nat;

    /// The number that a value of the type stands for.
    spec fn to_nat(self) -> nat;

    /// The width is one of the machine widths.
    proof fn lemma_width()
        ensures
            Self::bit_width() == 8 || Self::bit_width() == 16 || Self::bit_width() == 32
                || Self::bit_width() == 64 || Self::bit_width() == 128,
    ;

    /// Every value is below two to the width.
    proof fn lemma_range(self)
        ensures
            self.to_nat() < pow2(Self::bit_width()),
    ;

    /// Distinct values stand for distinct numbers.
    proof fn lemma_injective(self, other: Self)
        requires
            self.to_nat() == other.to_nat(),
        ensures
            self == other,
    ;

    /// Width of the type in bits.
    fn bits() -> (r: usize)
        ensures
            r == Self::bit_width(),
    ;

    /// The value zero.
    fn zero() -> (r: Self)
        ensures
            r.to_nat() == 0,
    ;

    /// The value ten.
    fn ten() -> (r: Self)
        ensures
            r.to_nat() == 10,
    ;

    /// The value as a `u128`, which holds every value of every width.
    fn widen(self) -> (r: u128)
        ensures
            r == self.to_nat(),
    ;

    /// The low bits of `v` that fit the type.
    fn narrow(v: u128) -> (r: Self)
        ensures
            r.to_nat() == v as nat % pow2(Self::bit_width()),
    ;
}

/// The radix of a magnitude whose units have type `U`: two to the unit's
/// width.
pub open spec fn base<U: PrimNumber>() -> nat {
    pow2(U::bit_width())
}

/// A unit of a magnitude: a primitive with a type of twice its width, and the
/// largest power of ten that it holds.
pub trait NumberUnit: PrimNumber {
    /// The type of twice the width.
    type BigUnit: PrimNumber;

    /// Number of decimal digits that one unit is sure to hold.
    spec fn dec_power() -> nat;

    /// A unit has 64 bits at most and its double unit twice its width; the
    /// number of decimal digits is that of the largest power of ten that a
    /// unit holds.
    proof fn lemma_unit()
        ensures
            Self::bit_width() <= 64,
            <Self::BigUnit as PrimNumber>::bit_width() == 2 * Self::bit_width(),
            1 <= Self::dec_power() <= 19,
            pow10(Self::dec_power()) < base::<Self>(),
            pow10(Self::dec_power() + 1) >= base::<Self>(),
    ;

    /// The radix, two to the unit's width.
    fn radix() -> (r: u128)
        ensures
            r == base::<Self>(),
    ;

    /// The largest power of ten that fits a unit.
    fn unit_base() -> (r: Self)
        ensures
            r.to_nat() == pow10(Self::dec_power()),
    ;

    /// The exponent of `unit_base`.
    fn unit_base_power() -> (r: usize)
        ensures
            r == Self::dec_power(),
    ;

    /// The high half of a double unit.
    fn hi(bu: Self::BigUnit) -> (r: Self)
        ensures
            r.to_nat() == bu.to_nat() / base::<Self>(),
    ;

    /// The low half of a double unit.
    fn lo(bu: Self::BigUnit) -> (r: Self)
        ensures
            r.to_nat() == bu.to_nat() % base::<Self>(),
    ;
}

impl PrimNumber for u8 {
    open spec fn bit_width() -> nat {
        8
    }

    open spec fn to_nat(self) -> nat {
        self as nat
    }

    proof fn lemma_width() {
    }

    proof fn lemma_range(self) {
        lemma2_to64();
        lemma2_to64_rest();
    }

    proof fn lemma_injective(self, other: Self) {
    }

    fn bits() -> (r: usize) {
        8
    }

    fn zero() -> (r: Self) {
        0
    }

    fn ten() -> (r: Self) {
        10
    }

    fn widen(self) -> (r: u128) {
        self as u128
    }

    fn narrow(v: u128) -> (r: Self) {
        proof {
            lemma2_to64();
            lemma2_to64_rest();
        }
        (v % 256) as u8
    }
}

impl PrimNumber for u16 {
    open spec fn bit_width() -> nat {
        16
    }

    open spec fn to_nat(self) -> nat {
        self as nat
    }

    proof fn lemma_width() {
    }

    proof fn lemma_range(self) {
        lemma2_to64();
        lemma2_to64_rest();
    }

    proof fn lemma_injective(self, other: Self) {
    }

    fn bits() -> (r: usize) {
        16
    }

    fn zero() -> (r: Self) {
        0
    }

    fn ten() -> (r: Self) {
        10
    }

    fn widen(self) -> (r: u128) {
        self as u128
    }

    fn narrow(v: u128) -> (r: Self) {
        proof {
            lemma2_to64();
            lemma2_to64_rest();
        }
        (v % 65536) as u16
    }
}

impl PrimNumber for u32 {
    open spec fn bit_width() -> nat {
        32
    }

    open spec fn to_nat(self) -> nat {
        self as nat
    }

    proof fn lemma_width() {
    }

    proof fn lemma_range(self) {
        lemma2_to64();
        lemma2_to64_rest();
    }

    proof fn lemma_injective(self, other: Self) {
    }

    fn bits() -> (r: usize) {
        32
    }

    fn zero() -> (r: Self) {
        0
    }

    fn ten() -> (r: Self) {
        10
    }

    fn widen(self) -> (r: u128) {
        self as u128
    }

    fn narrow(v: u128) -> (r: Self) {
        proof {
            lemma2_to64();
            lemma2_to64_rest();
        }
        (v % 4294967296) as u32
    }
}

impl PrimNumber for u64 {
    open spec fn bit_width() -> nat {
        64
    }

    open spec fn to_nat(self) -> nat {
        self as nat
    }

    proof fn lemma_width() {
    }

    proof fn lemma_range(self) {
        lemma2_to64();
        lemma2_to64_rest();
    }

    proof fn lemma_injective(self, other: Self) {
    }

    fn bits() -> (r: usize) {
        64
    }

    fn zero() -> (r: Self) {
        0
    }

    fn ten() -> (r: Self) {
        10
    }

    fn widen(self) -> (r: u128) {
        self as u128
    }

    fn narrow(v: u128) -> (r: Self) {
        proof {
            lemma2_to64();
            lemma2_to64_rest();
        }
        (v % 18446744073709551616) as u64
    }
}

impl PrimNumber for u128 {
    open spec fn bit_width() -> nat {
        128
    }

    open spec fn to_nat(self) -> nat {
        self as nat
    }

    proof fn lemma_width() {
    }

    proof fn lemma_range(self) {
        lemma_pow2_128();
    }

    proof fn lemma_injective(self, other: Self) {
    }

    fn bits() -> (r: usize) {
        128
    }

    fn zero() -> (r: Self) {
        0
    }

    fn ten() -> (r: Self) {
        10
    }

    fn widen(self) -> (r: u128) {
        self as u128
    }

    fn narrow(v: u128) -> (r: Self) {
        proof {
            lemma_pow2_128();
            vstd::arithmetic::div_mod::lemma_small_mod(v as nat, pow2(128));
        }
        v
    }
}

impl NumberUnit for u8 {
    type BigUnit = u16;

    open spec fn dec_power() -> nat {
        2
    }

    proof fn lemma_unit() {
        lemma2_to64();
        lemma2_to64_rest();
        lemma_pow10_values();
    }

    fn radix() -> (r: u128) {
        proof {
            lemma2_to64();
            lemma2_to64_rest();
        }
        256
    }

    fn unit_base() -> (r: Self) {
        proof {
            lemma_pow10_values();
        }
        100
    }

    fn unit_base_power() -> (r: usize) {
        2
    }

    fn hi(bu: Self::BigUnit) -> (r: Self) {
        proof {
            lemma2_to64();
            lemma2_to64_rest();
            lemma_pow2_128();
        }
        (bu / 256) as u8
    }

    fn lo(bu: Self::BigUnit) -> (r: Self) {
        proof {
            lemma2_to64();
            lemma2_to64_rest();
        }
        (bu % 256) as u8
    }
}

impl NumberUnit for u16 {
    type BigUnit = u32;

    open spec fn dec_power() -> nat {
        4
    }

    proof fn lemma_unit() {
        lemma2_to64();
        lemma2_to64_rest();
        lemma_pow10_values();
    }

    fn radix() -> (r: u128) {
        proof {
            lemma2_to64();
            lemma2_to64_rest();
        }
        65536
    }

    fn unit_base() -> (r: Self) {
        proof {
            lemma_pow10_values();
        }
        10000
    }

    fn unit_base_power() -> (r: usize) {
        4
    }

    fn hi(bu: Self::BigUnit) -> (r: Self) {
        proof {
            lemma2_to64();
            lemma2_to64_rest();
            lemma_pow2_128();
        }
        (bu / 65536) as u16
    }

    fn lo(bu: Self::BigUnit) -> (r: Self) {
        proof {
            lemma2_to64();
            lemma2_to64_rest();
        }
        (bu % 65536) as u16
    }
}

impl NumberUnit for u32 {
    type BigUnit = u64;

    open spec fn dec_power() -> nat {
        9
    }

    proof fn lemma_unit() {
        lemma2_to64();
        lemma2_to64_rest();
        lemma_pow10_values();
    }

    fn radix() -> (r: u128) {
        proof {
            lemma2_to64();
            lemma2_to64_rest();
        }
        4294967296
    }

    fn unit_base() -> (r: Self) {
        proof {
            lemma_pow10_values();
        }
        1000000000
    }

    fn unit_base_power() -> (r: usize) {
        9
    }

    fn hi(bu: Self::BigUnit) -> (r: Self) {
        proof {
            lemma2_to64();
            lemma2_to64_rest();
            lemma_pow2_128();
        }
        (bu / 4294967296) as u32
    }

    fn lo(bu: Self::BigUnit) -> (r: Self) {
        proof {
            lemma2_to64();
            lemma2_to64_rest();
        }
        (bu % 4294967296) as u32
    }
}

impl NumberUnit for u64 {
    type BigUnit = u128;

    open spec fn dec_power() -> nat {
        19
    }

    proof fn lemma_unit() {
        lemma2_to64();
        lemma2_to64_rest();
        lemma_pow10_values();
    }

    fn radix() -> (r: u128) {
        proof {
            lemma2_to64();
            lemma2_to64_rest();
        }
        18446744073709551616
    }

    fn unit_base() -> (r: Self) {
        proof {
            lemma_pow10_values();
        }
        10000000000000000000
    }

    fn unit_base_power() -> (r: usize) {
        19
    }

    fn hi(bu: Self::BigUnit) -> (r: Self) {
        proof {
            lemma2_to64();
            lemma2_to64_rest();
            lemma_pow2_128();
        }
        (bu / 18446744073709551616) as u64
    }

    fn lo(bu: Self::BigUnit) -> (r: Self) {
        proof {
            lemma2_to64();
            lemma2_to64_rest();
        }
        (bu % 18446744073709551616) as u64
    }
}

/// The radix of `U` is at least 256, and a double unit holds its square.
pub proof fn lemma_base<U: NumberUnit>()
    ensures
        256 <= base::<U>() <= 0x1_0000_0000_0000_0000,
        base::<U>() * base::<U>() == base::<U::BigUnit>(),
        base::<U>() * base::<U>() <= 0x1_0000_0000_0000_0000_0000_0000_0000_0000,
{
    U::lemma_unit();
    U::lemma_width();
    lemma2_to64();
    lemma2_to64_rest();
    lemma_pow2_128();
    lemma_pow2_adds(U::bit_width(), U::bit_width());
}

/// A unit is below the radix.
pub proof fn lemma_unit_bound<U: NumberUnit>(u: U)
    ensures
        u.to_nat() < base::<U>(),
{
    u.lemma_range();
}

/// The radix to the power `n`.
pub open spec fn base_pow<U: PrimNumber>(n: nat) -> nat {
    pow(base::<U>() as int, n) as nat
}

/// The number that a little-endian sequence of units stands for.
pub open spec fn mag_value<U: PrimNumber>(s: Seq<U>) -> nat
    decreases s.len(),
{
    if s.len() == 0 {
        0
    } else {
        mag_value(s.drop_last()) + s.last().to_nat() * base_pow::<U>((s.len() - 1) as nat)
    }
}

/// Number of significant units: the index of the highest unit that is not
/// zero, plus one.
pub open spec fn weight_of<U: PrimNumber>(s: Seq<U>) -> nat
    decreases s.len(),
{
    if s.len() == 0 {
        0
    } else if s.last().to_nat() != 0 {
        s.len()
    } else {
        weight_of(s.drop_last())
    }
}

/// All units of the sequence are zero.
pub open spec fn all_zero<U: PrimNumber>(s: Seq<U>) -> bool {
    forall|i: int| 0 <= i < s.len() ==> (#[trigger] s[i]).to_nat() == 0
}

/// The powers of the radix are positive; the powers 0 and 1, and the step
/// from one power to the next.
pub proof fn lemma_base_pow<U: NumberUnit>(n: nat)
    ensures
        base_pow::<U>(n) > 0,
        base_pow::<U>(0) == 1,
        base_pow::<U>(1) == base::<U>(),
        base_pow::<U>(n + 1) == base_pow::<U>(n) * base::<U>(),
{
    lemma_base::<U>();
    let b = base::<U>() as int;
    lemma_pow_positive(b, n);
    lemma_pow_positive(b, n + 1);
    lemma_pow0(b);
    lemma_pow1(b);
    lemma_pow_adds(b, n, 1);
}

/// The radix to a sum is the product of the powers.
pub proof fn lemma_base_pow_adds<U: NumberUnit>(a: nat, b: nat)
    ensures
        base_pow::<U>(a + b) == base_pow::<U>(a) * base_pow::<U>(b),
{
    lemma_base::<U>();
    let x = base::<U>() as int;
    lemma_pow_positive(x, a);
    lemma_pow_positive(x, b);
    lemma_pow_positive(x, a + b);
    lemma_pow_adds(x, a, b);
}

/// The powers of the radix grow with the exponent.
pub proof fn lemma_base_pow_monotonic<U: NumberUnit>(a: nat, b: nat)
    requires
        a <= b,
    ensures
        base_pow::<U>(a) <= base_pow::<U>(b),
{
    lemma_base::<U>();
    let x = base::<U>() as int;
    lemma_pow_positive(x, a);
    lemma_pow_positive(x, b);
    vstd::arithmetic::power::lemma_pow_increases(x as nat, a, b);
}

/// A sequence of `n` units stands for a number below the radix to the `n`.
pub proof fn lemma_mag_value_bound<U: NumberUnit>(s: Seq<U>)
    ensures
        mag_value(s) < base_pow::<U>(s.len()),
    decreases s.len(),
{
    if s.len() == 0 {
        lemma_base_pow::<U>(0);
    } else {
        let n = (s.len() - 1) as nat;
        lemma_mag_value_bound(s.drop_last());
        lemma_unit_bound(s.last());
        lemma_base_pow::<U>(n);
        let d = s.last().to_nat();
        let p = base_pow::<U>(n);
        let b = base::<U>();
        assert(d * p + p <= b * p) by (nonlinear_arith)
            requires
                d < b,
                p > 0,
        ;
        assert(p * b == b * p) by (nonlinear_arith);
    }
}

/// The value of a sequence, unit by unit from the low end.
pub proof fn lemma_mag_value_low<U: NumberUnit>(s: Seq<U>)
    requires
        s.len() > 0,
    ensures
        mag_value(s) == s[0].to_nat() + base::<U>() * mag_value(s.skip(1)),
    decreases s.len(),
{
    lemma_base_pow::<U>(0);
    if s.len() == 1 {
        assert(s.drop_last() =~= Seq::<U>::empty());
        assert(s.skip(1) =~= Seq::<U>::empty());
        assert(mag_value(s.drop_last()) == 0);
        assert(mag_value(s.skip(1)) == 0);
        assert(s.last() == s[0]);
    } else {
        let n = (s.len() - 1) as nat;
        let t = s.drop_last();
        lemma_mag_value_low(t);
        assert(t.skip(1) =~= s.skip(1).drop_last());
        assert(s.skip(1).last() == s.last());
        assert(t[0] == s[0]);
        lemma_base_pow::<U>((n - 1) as nat);
        let b = base::<U>();
        let p = base_pow::<U>((n - 1) as nat);
        let d = s.last().to_nat();
        let m = mag_value(t.skip(1));
        assert(mag_value(s.skip(1)) == m + d * p);
        assert(b * (m + d * p) == b * m + d * (p * b)) by (nonlinear_arith);
    }
}

/// A sequence of zeros stands for zero, and only such a sequence does.
pub proof fn lemma_mag_value_zero<U: NumberUnit>(s: Seq<U>)
    ensures
        all_zero(s) <==> mag_value(s) == 0,
        all_zero(s) <==> weight_of(s) == 0,
    decreases s.len(),
{
    if s.len() > 0 {
        let t = s.drop_last();
        lemma_mag_value_zero(t);
        lemma_base_pow::<U>((s.len() - 1) as nat);
        let d = s.last().to_nat();
        let p = base_pow::<U>((s.len() - 1) as nat);
        assert(d != 0 ==> d * p > 0) by (nonlinear_arith)
            requires
                p > 0,
        ;
        assert(d == 0 ==> d * p == 0) by (nonlinear_arith);
        if all_zero(s) {
            assert(s[s.len() - 1].to_nat() == 0);
            assert forall|i: int| 0 <= i < t.len() implies (#[trigger] t[i]).to_nat() == 0 by {
                assert(t[i] == s[i]);
            }
        }
        if all_zero(t) && d == 0 {
            assert forall|i: int| 0 <= i < s.len() implies (#[trigger] s[i]).to_nat() == 0 by {
                if i < t.len() {
                    assert(t[i] == s[i]);
                }
            }
        }
    }
}

/// What the weight says of a sequence: the units from the weight on are zero,
/// the one below it is not, and the value lies between the two powers of the
/// radix.
pub proof fn lemma_weight<U: NumberUnit>(s: Seq<U>)
    ensures
        weight_of(s) <= s.len(),
        forall|i: int| weight_of(s) <= i < s.len() ==> (#[trigger] s[i]).to_nat() == 0,
        weight_of(s) > 0 ==> s[weight_of(s) - 1].to_nat() != 0,
        mag_value(s) == mag_value(s.take(weight_of(s) as int)),
        mag_value(s) < base_pow::<U>(weight_of(s)),
        weight_of(s) > 0 ==> mag_value(s) >= base_pow::<U>((weight_of(s) - 1) as nat),
    decreases s.len(),
{
    if s.len() == 0 {
        assert(s.take(0) =~= s);
        lemma_base_pow::<U>(0);
    } else if s.last().to_nat() != 0 {
        assert(s.take(s.len() as int) =~= s);
        lemma_mag_value_bound(s);
        let p = base_pow::<U>((s.len() - 1) as nat);
        let d = s.last().to_nat();
        lemma_base_pow::<U>((s.len() - 1) as nat);
        assert(d * p >= p) by (nonlinear_arith)
            requires
                d >= 1,
                p > 0,
        ;
    } else {
        let t = s.drop_last();
        lemma_weight(t);
        let w = weight_of(t);
        assert(s.take(w as int) =~= t.take(w as int));
        assert(s.last().to_nat() * base_pow::<U>((s.len() - 1) as nat) == 0) by (nonlinear_arith)
            requires
                s.last().to_nat() == 0,
        ;
        assert forall|i: int| w <= i < s.len() implies (#[trigger] s[i]).to_nat() == 0 by {
            if i < t.len() {
                assert(t[i] == s[i]);
            }
        }
        if w > 0 {
            assert(t[w - 1] == s[w - 1]);
        }
    }
}

/// Checks if all the units in the given magnitude are zeros.
pub fn is_magnitude_zero<U: NumberUnit, const N: usize>(magnitude: &[U; N]) -> (r: bool)
    ensures
        r == all_zero(magnitude@),
        r == (mag_value(magnitude@) == 0),
{
    proof {
        lemma_mag_value_zero(magnitude@);
    }
    let mut i: usize = 0;
    while i < N
        invariant
            i <= N,
            all_zero(magnitude@) <==> mag_value(magnitude@) == 0,
            forall|k: int| 0 <= k < i ==> (#[trigger] magnitude@[k]).to_nat() == 0,
        decreases N - i,
    {
        if magnitude[i].widen() != 0 {
            assert(magnitude@[i as int].to_nat() != 0);
            return false;
        }
        i += 1;
    }
    true
}

/// Returns the number of the significant units in the slice.
pub fn weight<U: NumberUnit>(mag: &[U]) -> (r: usize)
    ensures
        r == weight_of(mag@),
{
    let mut i: usize = mag.len();
    assert(mag@.take(i as int) =~= mag@);
    while i > 0
        invariant
            i <= mag.len(),
            weight_of(mag@) == weight_of(mag@.take(i as int)),
        decreases i,
    {
        proof {
            let s = mag@.take(i as int);
            assert(s.last() == mag@[i - 1]);
            assert(s.drop_last() =~= mag@.take(i - 1));
        }
        if mag[i - 1].widen() != 0 {
            return i;
        }
        i -= 1;
    }
    proof {
        assert(mag@.take(mag.len() as int) =~= mag@);
    }
    0
}

/// Removes the zero units at the high end.
pub fn normalize_digits<U: NumberUnit>(m: &mut Vec<U>)
    ensures
        final(m)@ == old(m)@.take(weight_of(old(m)@) as int),
        mag_value(final(m)@) == mag_value(old(m)@),
{
    proof {
        lemma_weight(m@);
        assert(m@.take(m@.len() as int) =~= m@);
    }
    while m.len() > 0 && m[m.len() - 1].widen() == 0
        invariant
            m@.len() <= old(m)@.len(),
            m@ == old(m)@.take(m@.len() as int),
            weight_of(m@) == weight_of(old(m)@),
        decreases m.len(),
    {
        proof {
            assert(m@.drop_last() =~= old(m)@.take(m@.len() - 1));
        }
        m.pop();
    }
    proof {
        lemma_weight(m@);
    }
}

/// Creates a big unit from two parts.
pub fn big_unit<U: NumberUnit>(hi: U, lo: U) -> (r: U::BigUnit)
    ensures
        r.to_nat() == hi.to_nat() * base::<U>() + lo.to_nat(),
{
    proof {
        lemma_base::<U>();
        lemma_unit_bound(hi);
        lemma_unit_bound(lo);
        let b = base::<U>();
        assert(hi.to_nat() * b + lo.to_nat() < b * b) by (nonlinear_arith)
            requires
                hi.to_nat() < b,
                lo.to_nat() < b,
        ;
        vstd::arithmetic::div_mod::lemma_small_mod(
            hi.to_nat() * b + lo.to_nat(),
            base::<U::BigUnit>(),
        );
    }
    let v: u128 = hi.widen() * U::radix() + lo.widen();
    <U::BigUnit as PrimNumber>::narrow(v)
}

/// Divides the two-unit number `hi`, `lo` by `divisor`; returns the quotient
/// and the remainder.
pub fn div_wide<U: NumberUnit>(hi: U, lo: U, divisor: U) -> (r: (U, U))
    requires
        hi.to_nat() < divisor.to_nat(),
    ensures
        r.0.to_nat() == (hi.to_nat() * base::<U>() + lo.to_nat()) / divisor.to_nat(),
        r.1.to_nat() == (hi.to_nat() * base::<U>() + lo.to_nat()) % divisor.to_nat(),
{
    proof {
        lemma_base::<U>();
        lemma_unit_bound(hi);
        lemma_unit_bound(lo);
        lemma_unit_bound(divisor);
    }
    let b: u128 = U::radix();
    let d: u128 = divisor.widen();
    let h: u128 = hi.widen();
    let l: u128 = lo.widen();
    assert(h * b + l < d * b) by (nonlinear_arith)
        requires
            h < d,
            l < b,
    ;
    assert(d * b < b * b) by (nonlinear_arith)
        requires
            d < b,
            b > 0,
    ;
    let val: u128 = h * b + l;
    let q: u128 = val / d;
    let m: u128 = val % d;
    proof {
        vstd::arithmetic::div_mod::lemma_fundamental_div_mod(val as int, d as int);
        assert(q < b) by (nonlinear_arith)
            requires
                val == d * q + m,
                val < d * b,
                d > 0,
                m >= 0,
        ;
        vstd::arithmetic::div_mod::lemma_small_mod(q as nat, base::<U>());
        vstd::arithmetic::div_mod::lemma_small_mod(m as nat, base::<U>());
    }
    (U::narrow(q), U::narrow(m))
}

/// Divides the magnitude `digits` by the unit `b`; returns the quotient,
/// without zero units at its high end, and the remainder.
pub fn div_rem_digit<U: NumberUnit>(digits: Vec<U>, b: U) -> (r: (Vec<U>, U))
    requires
        b.to_nat() != 0,
    ensures
        mag_value(r.0@) == mag_value(digits@) / b.to_nat(),
        r.1.to_nat() == mag_value(digits@) % b.to_nat(),
        r.0@.len() == weight_of(r.0@),
        r.0@.len() <= digits@.len(),
{
    let mut digits = digits;
    let ghost orig = digits@;
    let mut rem = U::zero();
    let mut i: usize = digits.len();
    proof {
        assert(orig.skip(i as int) =~= Seq::<U>::empty());
        assert(digits@.skip(i as int) =~= Seq::<U>::empty());
        assert(mag_value(Seq::<U>::empty()) == 0);
        lemma_base::<U>();
    }
    while i > 0
        invariant
            i <= digits@.len(),
            digits@.len() == orig.len(),
            b.to_nat() != 0,
            rem.to_nat() < b.to_nat(),
            digits@.take(i as int) == orig.take(i as int),
            mag_value(orig.skip(i as int)) == mag_value(digits@.skip(i as int)) * b.to_nat()
                + rem.to_nat(),
        decreases i,
    {
        let d = digits[i - 1];
        let (w, r) = div_wide(rem, d, b);
        proof {
            let bb = base::<U>();
            let so = orig.skip(i - 1);
            let sd0 = digits@.skip(i as int);
            assert(d == orig[i - 1]) by {
                assert(digits@.take(i as int)[i - 1] == orig.take(i as int)[i - 1]);
            }
            lemma_mag_value_low(so);
            assert(so.skip(1) =~= orig.skip(i as int));
            assert(so[0] == d);
            let x = rem.to_nat() * bb + d.to_nat();
            vstd::arithmetic::div_mod::lemma_fundamental_div_mod(x as int, b.to_nat() as int);
            vstd::arithmetic::div_mod::lemma_mod_bound(x as int, b.to_nat() as int);
            let sd1 = digits@.update(i - 1, w).skip(i - 1);
            lemma_mag_value_low(sd1);
            assert(sd1.skip(1) =~= sd0);
            assert(sd1[0] == w);
            let md = mag_value(sd0);
            let bn = b.to_nat();
            assert(mag_value(so) == d.to_nat() + bb * (md * bn + rem.to_nat()));
            assert(d.to_nat() + bb * (md * bn + rem.to_nat()) == (w.to_nat() + bb * md) * bn
                + r.to_nat()) by (nonlinear_arith)
                requires
                    rem.to_nat() * bb + d.to_nat() == bn * w.to_nat() + r.to_nat(),
            ;
            assert(digits@.update(i - 1, w).take(i - 1) =~= orig.take(i - 1));
        }
        digits.set(i - 1, w);
        rem = r;
        i -= 1;
    }
    proof {
        assert(orig.skip(0) =~= orig);
        assert(digits@.skip(0) =~= digits@);
        let q = mag_value(digits@);
        let bn = b.to_nat();
        vstd::arithmetic::div_mod::lemma_fundamental_div_mod_converse(
            mag_value(orig) as int,
            bn as int,
            q as int,
            rem.to_nat() as int,
        );
    }
    let ghost full = digits@;
    normalize_digits(&mut digits);
    proof {
        lemma_take_weight::<U>(full, digits@);
    }
    (digits, rem)
}

/// A sequence cut at its weight has its length as weight.
pub proof fn lemma_take_weight<U: NumberUnit>(s: Seq<U>, t: Seq<U>)
    requires
        t == s.take(weight_of(s) as int),
    ensures
        t.len() == weight_of(t),
        t.len() <= s.len(),
{
    lemma_weight(s);
    let w = weight_of(s);
    if w > 0 {
        assert(t.last() == s[w - 1]);
    }
}

} // verus!
