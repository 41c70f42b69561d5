//! Numbers to decimal notation.

use vstd::prelude::*;
use vstd::arithmetic::div_mod::{
    lemma_fundamental_div_mod, lemma_fundamental_div_mod_converse, lemma_mod_bound,
    lemma_div_denominator, lemma_mod_multiples_vanish, lemma_basic_div,
};
use crate::number::Fdec;
use crate::value::Value;
use crate::parse::{CHAR_ZERO, CHAR_POINT, CHAR_MINUS, lemma_pow10_monotonic};
use crate::units::{
    NumberUnit, PrimNumber, base, mag_value, weight_of, pow10, div_rem_digit, normalize_digits,
    lemma_base, lemma_pow10_adds, lemma_pow10_positive, lemma_pow10_values, lemma_weight,
    lemma_take_weight, lemma_unit_bound,
};

verus! {

/// The decimal digit of `n` at the place `i`, the lowest place being 0.
pub open spec fn dec_digit(n: nat, i: nat) -> nat {
    (n / pow10(i)) % 10
}

/// The number of decimal digits of `n`; zero has none.
pub open spec fn dec_len(n: nat) -> nat
    decreases n,
{
    if n == 0 {
        0
    } else {
        1 + dec_len(n / 10)
    }
}

/// A quotient by ten to the `a` and then by ten to the `b` is the quotient
/// by ten to the `a + b`.
pub proof fn lemma_pow10_div(n: nat, a: nat, b: nat)
    ensures
        (n / pow10(a)) / pow10(b) == n / pow10(a + b),
{
    lemma_pow10_positive(a);
    lemma_pow10_positive(b);
    lemma_pow10_adds(a, b);
    lemma_div_denominator(n as int, pow10(a) as int, pow10(b) as int);
}

/// The digits of a number below the place `p` are those of its remainder by
/// ten to the `p`.
pub proof fn lemma_digit_of_remainder(v: nat, p: nat, t: nat)
    requires
        t < p,
    ensures
        dec_digit(v % pow10(p), t) == dec_digit(v, t),
{
    lemma_pow10_positive(p);
    lemma_pow10_positive(t);
    lemma_pow10_adds(t, (p - t) as nat);
    lemma_pow10_adds(1, (p - t - 1) as nat);
    lemma_pow10_values();
    let a = pow10(t) as int;
    let c = pow10((p - t - 1) as nat) as int;
    let pp = pow10(p) as int;
    assert(pow10((p - t) as nat) == 10 * c);
    assert(pp == a * (10 * c));
    let k = v as int / pp;
    let r = v as int % pp;
    lemma_fundamental_div_mod(v as int, pp);
    lemma_mod_bound(v as int, pp);
    lemma_fundamental_div_mod(r, a);
    lemma_mod_bound(r, a);
    let ra = r / a;
    let rm = r % a;
    assert(v == a * (k * c * 10 + ra) + rm) by (nonlinear_arith)
        requires
            v == pp * k + r,
            pp == a * (10 * c),
            r == a * ra + rm,
    ;
    lemma_fundamental_div_mod_converse(v as int, a, k * c * 10 + ra, rm);
    lemma_mod_multiples_vanish(k * c, ra, 10);
    assert(10 * (k * c) + ra == k * c * 10 + ra) by (nonlinear_arith);
}

/// What the number of digits says: the quotient by ten to it is zero, and
/// the one by ten to one less is not.
pub proof fn lemma_dec_len(n: nat)
    ensures
        n / pow10(dec_len(n)) == 0,
        n > 0 ==> dec_len(n) > 0 && n / pow10((dec_len(n) - 1) as nat) != 0,
        n < pow10(dec_len(n)),
        n > 0 ==> n >= pow10((dec_len(n) - 1) as nat),
    decreases n,
{
    lemma_pow10_values();
    if n == 0 {
    } else {
        let m = n / 10;
        lemma_dec_len(m);
        let l = dec_len(m);
        lemma_pow10_div(n, 1, l);
        lemma_pow10_positive(l);
        lemma_pow10_positive(l + 1);
        lemma_fundamental_div_mod(n as int, 10);
        if m > 0 {
            lemma_pow10_div(n, 1, (l - 1) as nat);
        } else {
            assert(n / 1 == n);
        }
        // bounds
        lemma_fundamental_div_mod(n as int, pow10(l + 1) as int);
        lemma_mod_bound(n as int, pow10(l + 1) as int);
        if n >= pow10(l + 1) {
            vstd::arithmetic::div_mod::lemma_div_non_zero(n as int, pow10(l + 1) as int);
        }
        let pl = pow10(l) as int;
        if m > 0 {
            let pm = pow10((l - 1) as nat) as int;
            assert(pl == 10 * pm);
            assert(n >= pl);
        }
    }
}

/// The number of digits is the only `l` for which the quotient by ten to
/// the `l` is zero and the one by ten to one less is not.
pub proof fn lemma_dec_len_unique(n: nat, l: nat)
    requires
        n / pow10(l) == 0,
        l > 0,
        n / pow10((l - 1) as nat) != 0,
    ensures
        dec_len(n) == l,
{
    lemma_dec_len(n);
    lemma_pow10_positive(l);
    lemma_pow10_positive((l - 1) as nat);
    let d = dec_len(n);
    // n < 10^l and n >= 10^(l-1)
    lemma_fundamental_div_mod(n as int, pow10(l) as int);
    lemma_mod_bound(n as int, pow10(l) as int);
    assert(pow10(l) * 0 == 0);
    assert(n < pow10(l));
    if n < pow10((l - 1) as nat) {
        vstd::arithmetic::div_mod::lemma_basic_div(n as int, pow10((l - 1) as nat) as int);
    }
    assert(n >= pow10((l - 1) as nat));
    if d < l {
        crate::parse::lemma_pow10_monotonic(d, (l - 1) as nat);
    } else if d > l {
        crate::parse::lemma_pow10_monotonic(l, (d - 1) as nat);
    }
}

/// The decimal digits of the magnitude `digits`, as numbers from 0 to 9, the
/// lowest first; one zero for a magnitude of zero.
pub fn to_digits<U: NumberUnit>(digits: Vec<U>) -> (res: Vec<u8>)
    ensures
        res@.len() == if mag_value(digits@) == 0 {
            1
        } else {
            dec_len(mag_value(digits@))
        },
        forall|i: int| 0 <= i < res@.len() ==> (#[trigger] res@[i]) == dec_digit(
            mag_value(digits@),
            i as nat,
        ),
{
    let ghost n0 = mag_value(digits@);
    let mut digits = digits;
    let ghost full = digits@;
    normalize_digits(&mut digits);
    proof {
        lemma_take_weight::<U>(full, digits@);
        lemma_pow10_values();
        U::lemma_unit();
        lemma_base::<U>();
    }
    if digits.len() == 0 {
        proof {
            assert(mag_value(digits@) == 0);
            assert(0nat / 1 == 0);
        }
        let mut res: Vec<u8> = Vec::new();
        res.push(0);
        return res;
    }
    let power: usize = U::unit_base_power();
    let unit_base: U = U::unit_base();
    let mut res: Vec<u8> = Vec::new();
    let ghost mut done: nat = 0;
    proof {
        assert(n0 / 1 == n0);
    }
    while digits.len() > 1
        invariant
            digits@.len() >= 1,
            digits@.len() == weight_of(digits@),
            power == U::dec_power(),
            1 <= power <= 19,
            unit_base.to_nat() == pow10(power as nat),
            pow10(power as nat) < base::<U>(),
            res@.len() == done,
            mag_value(digits@) == n0 / pow10(done),
            forall|i: int| 0 <= i < res@.len() ==> (#[trigger] res@[i]) == dec_digit(n0, i as nat),
        decreases mag_value(digits@),
    {
        let ghost v = mag_value(digits@);
        let ghost len_before = digits@.len();
        proof {
            lemma_pow10_positive(power as nat);
            lemma_weight(digits@);
            crate::units::lemma_base_pow::<U>(1);
            crate::units::lemma_base_pow_monotonic::<U>(1, (digits@.len() - 1) as nat);
        }
        let (q, r) = div_rem_digit(digits, unit_base);
        let mut rr: u128 = r.widen();
        let mut t: usize = 0;
        proof {
            assert(rr as nat / 1 == rr as nat);
            lemma_mod_bound(v as int, pow10(power as nat) as int);
        }
        while t < power
            invariant
                t <= power,
                power == U::dec_power(),
                1 <= power <= 19,
                r.to_nat() == v % pow10(power as nat),
                v == n0 / pow10(done),
                rr == r.to_nat() / pow10(t as nat),
                res@.len() == done + t,
                forall|i: int|
                    0 <= i < res@.len() ==> (#[trigger] res@[i]) == dec_digit(n0, i as nat),
            decreases power - t,
        {
            proof {
                lemma_digit_of_remainder(v, power as nat, t as nat);
                lemma_pow10_div(n0, done, t as nat);
                lemma_pow10_div(r.to_nat(), t as nat, 1);
                lemma_pow10_values();
            }
            res.push((rr % 10) as u8);
            rr = rr / 10;
            t += 1;
        }
        proof {
            lemma_pow10_div(n0, done, power as nat);
            done = done + power as nat;
            // the quotient is not zero, so it keeps a unit
            let pb = pow10(power as nat) as int;
            let qv = v as int / pb;
            lemma_fundamental_div_mod(v as int, pb);
            assert(qv >= 1) by (nonlinear_arith)
                requires
                    v == pb * qv + v as int % pb,
                    v as int % pb < pb,
                    v >= base::<U>(),
                    pb < base::<U>(),
            ;
            assert(qv < v) by (nonlinear_arith)
                requires
                    v == pb * qv + v as int % pb,
                    v as int % pb >= 0,
                    qv >= 1,
                    pb >= 10,
            ;
            crate::units::lemma_mag_value_zero(q@);
            assert(q@.len() >= 1) by {
                if q@.len() == 0 {
                    assert(mag_value(q@) == 0);
                }
            }
        }
        digits = q;
    }
    let mut rr: u128 = digits[0].widen();
    let ghost v = mag_value(digits@);
    let mut t: usize = 0;
    proof {
        crate::magnitude::lemma_take_step(digits@, 0);
        assert(digits@.take(1) =~= digits@);
        assert(digits@.take(0) =~= Seq::<U>::empty());
        assert(mag_value(Seq::<U>::empty()) == 0);
        crate::units::lemma_base_pow::<U>(0);
        assert(digits@[0].to_nat() * 1 == digits@[0].to_nat());
        assert(rr as nat / 1 == rr as nat);
        lemma_unit_bound(digits@[0]);
        lemma_weight(digits@);
    }
    while rr != 0
        invariant
            v == n0 / pow10(done),
            v > 0,
            v < 0x1_0000_0000_0000_0000_0000,
            rr == v / pow10(t as nat),
            t <= 39,
            rr <= u128::MAX,
            t > 0 ==> v / pow10((t - 1) as nat) != 0,
            res@.len() == done + t,
            forall|i: int| 0 <= i < res@.len() ==> (#[trigger] res@[i]) == dec_digit(n0, i as nat),
        decreases rr,
    {
        proof {
            lemma_pow10_div(n0, done, t as nat);
            lemma_pow10_div(v, t as nat, 1);
            lemma_pow10_values();
            lemma_digit_bound_39(v, t as nat);
        }
        res.push((rr % 10) as u8);
        rr = rr / 10;
        t += 1;
    }
    proof {
        lemma_pow10_div(n0, done, t as nat);
        if t > 0 {
            lemma_pow10_div(n0, done, (t - 1) as nat);
        }
        lemma_dec_len_unique(n0, (done + t) as nat);
        lemma_pow10_positive(done);
        if n0 == 0 {
            lemma_basic_div(0, pow10(done) as int);
        }
    }
    res
}

/// A number below two to the 128 that has a digit at the place `t` has
/// fewer than 39 places below it.
pub proof fn lemma_digit_bound_39(v: nat, t: nat)
    requires
        v <= u128::MAX,
        v / pow10(t) != 0,
    ensures
        t <= 38,
{
    if t >= 39 {
        crate::parse::lemma_pow10_monotonic(39, t);
        lemma_pow10_adds(19, 20);
        lemma_pow10_values();
        assert(pow10(39) == 10000000000000000000 * 100000000000000000000);
        lemma_basic_div(v as int, pow10(t) as int);
    }
}

/// The number of zero digits at the low end of `n`, `scale` at most.
pub open spec fn low_zeros(n: nat, scale: nat) -> nat
    decreases scale,
{
    if scale == 0 || n % 10 != 0 {
        0
    } else {
        1 + low_zeros(n / 10, (scale - 1) as nat)
    }
}

/// The characters that the notation of a number is made of: the digits,
/// the point, the sign, and the letters of `NaN` and `Infinity`.
pub open spec fn is_notation_char(b: u8) -> bool {
    b == 45 || b == 46 || 48 <= b <= 57 || b == 73 || b == 78 || b == 97 || b == 102 || b == 105
        || b == 110 || b == 116 || b == 121
}

/// The character of the digit `d`.
pub open spec fn digit_char(d: nat) -> u8 {
    (CHAR_ZERO + d) as u8
}

/// The decimal digits of `n` from the place `from` down to the place `to`,
/// the highest first.
pub open spec fn digits_text(n: nat, from: nat, to: nat) -> Seq<u8> {
    Seq::new((from - to) as nat, |k: int| digit_char(dec_digit(n, (from - 1 - k) as nat)))
}

/// The notation of the count `n`, which is not zero, at `scale` decimal
/// places: the digits of the whole part, of which there is at least one;
/// then, unless the fraction is zero, a point and the digits of the
/// fraction without the zeros at its end.
pub open spec fn finite_text(n: nat, scale: nat) -> Seq<u8> {
    let len = dec_len(n);
    let width = if len > scale {
        len
    } else {
        scale + 1
    };
    let lz = low_zeros(n, scale);
    if lz == scale {
        digits_text(n, width, scale)
    } else {
        digits_text(n, width, scale) + seq![CHAR_POINT] + digits_text(n, scale, lz)
    }
}

/// The notation of NaN: `NaN`.
pub open spec fn nan_text() -> Seq<u8> {
    seq![78u8, 97u8, 78u8]
}

/// The notation of infinity: `Infinity`.
pub open spec fn infinity_text() -> Seq<u8> {
    seq![73u8, 110u8, 102u8, 105u8, 110u8, 105u8, 116u8, 121u8]
}

/// The notation of a value at `scale` decimal places: `NaN`, `Infinity`,
/// `-Infinity`, `0`, or the notation of the count after its sign.
pub open spec fn format_text(v: Value, scale: nat) -> Seq<u8> {
    match v {
        Value::Nan => nan_text(),
        Value::Infinity => infinity_text(),
        Value::NegInfinity => seq![CHAR_MINUS] + infinity_text(),
        Value::Finite(m) => if m == 0 {
            seq![CHAR_ZERO]
        } else if m < 0 {
            seq![CHAR_MINUS] + finite_text((-m) as nat, scale)
        } else {
            finite_text(m as nat, scale)
        },
    }
}

/// The digit at a place is the digit of the tenth at the place below.
pub proof fn lemma_digit_shift(n: nat, i: nat)
    ensures
        dec_digit(n, i + 1) == dec_digit(n / 10, i),
        dec_digit(n, 0) == n % 10,
        dec_digit(n, i) < 10,
{
    lemma_pow10_values();
    lemma_pow10_div(n, 1, i);
    assert(n / 1 == n);
}

/// The low zeros are counted by `c` if the digits below `c` are zero and
/// the digit at `c` is not, or `c` is the scale.
pub proof fn lemma_low_zeros(n: nat, scale: nat, c: nat)
    requires
        c <= scale,
        forall|i: nat| i < c ==> dec_digit(n, i) == 0,
        c < scale ==> dec_digit(n, c) != 0,
    ensures
        low_zeros(n, scale) == c,
    decreases scale,
{
    lemma_digit_shift(n, 0);
    if scale == 0 {
    } else if c == 0 {
    } else {
        assert(dec_digit(n, 0) == 0);
        let m = n / 10;
        assert forall|i: nat| i < (c - 1) as nat implies #[trigger] dec_digit(m, i) == 0 by {
            lemma_digit_shift(n, i);
            assert(dec_digit(n, i + 1) == 0);
        }
        lemma_digit_shift(n, (c - 1) as nat);
        lemma_low_zeros(n / 10, (scale - 1) as nat, (c - 1) as nat);
    }
}

/// The digits at and above the number of digits are zero.
pub proof fn lemma_high_digit(n: nat, i: nat)
    requires
        i >= dec_len(n),
    ensures
        dec_digit(n, i) == 0,
{
    lemma_dec_len(n);
    lemma_pow10_monotonic(dec_len(n), i);
    lemma_pow10_positive(i);
    lemma_basic_div(n as int, pow10(i) as int);
}

/// Appends the digits of the places from `from` down to `to` to `out`, the
/// highest first.
fn push_digits(out: &mut Vec<u8>, digits: &Vec<u8>, from: usize, to: usize, Ghost(n): Ghost<nat>)
    requires
        to <= from,
        digits@.len() == if n == 0 {
            1
        } else {
            dec_len(n)
        },
        forall|i: int| 0 <= i < digits@.len() ==> (#[trigger] digits@[i]) == dec_digit(n, i as nat),
    ensures
        final(out)@ == old(out)@ + digits_text(n, from as nat, to as nat),
        forall|i: int|
            old(out)@.len() <= i < final(out)@.len() ==> CHAR_ZERO <= #[trigger] final(out)@[i]
                <= 57,
{
    let ghost start = out@;
    let len = digits.len();
    let mut i: usize = from;
    proof {
        assert(digits_text(n, from as nat, to as nat).take(0) =~= Seq::<u8>::empty());
        assert(start + Seq::<u8>::empty() =~= start);
    }
    while i > to
        invariant
            to <= i <= from,
            len == digits@.len(),
            digits@.len() == if n == 0 {
                1
            } else {
                dec_len(n)
            },
            forall|k: int|
                0 <= k < digits@.len() ==> (#[trigger] digits@[k]) == dec_digit(n, k as nat),
            out@ == start + digits_text(n, from as nat, to as nat).take(from - i),
            forall|k: int| start.len() <= k < out@.len() ==> CHAR_ZERO <= #[trigger] out@[k] <= 57,
        decreases i,
    {
        i -= 1;
        let d: u8 = if i < len {
            digits[i]
        } else {
            0
        };
        proof {
            lemma_digit_shift(n, i as nat);
            if i >= len {
                if n == 0 {
                    lemma_pow10_positive(i as nat);
                    lemma_basic_div(0, pow10(i as nat) as int);
                } else {
                    lemma_high_digit(n, i as nat);
                }
            }
            let full = digits_text(n, from as nat, to as nat);
            assert(full.take(from - i) =~= full.take(from - i - 1).push(full[from - i - 1]));
        }
        let ghost before = out@;
        out.push(CHAR_ZERO + d);
        proof {
            let full = digits_text(n, from as nat, to as nat);
            assert(out@ =~= start + full.take(from - i));
        }
    }
    proof {
        let full = digits_text(n, from as nat, to as nat);
        assert(full.take(from - to) =~= full);
    }
}

impl<U: NumberUnit, const N: usize, const SCALE: usize> Fdec<U, N, SCALE> {
    /// The number in decimal notation, as the bytes of the text.
    pub fn to_text(&self) -> (r: Vec<u8>)
        requires
            self.wf(),
            SCALE < usize::MAX,
        ensures
            r@ == format_text(self@, SCALE as nat),
            forall|i: int| 0 <= i < r@.len() ==> is_notation_char(#[trigger] r@[i]),
    {
        proof {
            self.lemma_repr();
            self.lemma_view();
        }
        let mut out: Vec<u8> = Vec::new();
        if self.is_special() {
            if self.is_nan() {
                out.push(78);
                out.push(97);
                out.push(78);
                proof {
                    assert(out@ =~= nan_text());
                }
                return out;
            }
            if self.is_sign_negative() {
                out.push(CHAR_MINUS);
            }
            let ghost sign = out@;
            out.push(73);
            out.push(110);
            out.push(102);
            out.push(105);
            out.push(110);
            out.push(105);
            out.push(116);
            out.push(121);
            proof {
                assert(out@ =~= sign + infinity_text());
                assert(Seq::<u8>::empty() + infinity_text() =~= infinity_text());
            }
            return out;
        }
        if self.is_zero() {
            out.push(CHAR_ZERO);
            proof {
                assert(out@ =~= seq![CHAR_ZERO]);
            }
            return out;
        }
        if self.is_sign_negative() {
            out.push(CHAR_MINUS);
        }
        let ghost sign = out@;
        let ghost n = mag_value(self.magnitude@);
        // Get digits to display
        let mut magn: Vec<U> = Vec::new();
        let mut k: usize = 0;
        while k < N
            invariant
                k <= N,
                magn@ == self.magnitude@.take(k as int),
            decreases N - k,
        {
            magn.push(self.magnitude[k]);
            proof {
                assert(magn@ =~= self.magnitude@.take(k + 1));
            }
            k += 1;
        }
        proof {
            assert(self.magnitude@.take(N as int) =~= self.magnitude@);
        }
        let digits = to_digits(magn);
        let len = digits.len();
        // Remove trailing zeros from the fraction part
        let mut lz: usize = 0;
        proof {
            lemma_dec_len(n);
            lemma_pow10_positive((len - 1) as nat);
        }
        while lz < SCALE && lz < len && digits[lz] == 0
            invariant
                lz <= SCALE,
                lz <= len,
                len == digits@.len(),
                forall|i: int| 0 <= i < lz ==> (#[trigger] digits@[i]) == 0,
            decreases SCALE - lz,
        {
            lz += 1;
        }
        proof {
            // the highest digit is not zero, so the zeros end below it
            let top = (len - 1) as nat;
            assert(digits@[len - 1] == dec_digit(n, top));
            lemma_fundamental_div_mod(n as int, pow10(top) as int);
            lemma_pow10_div(n, top, 1);
            lemma_pow10_values();
            lemma_fundamental_div_mod((n / pow10(top)) as int, 10);
            assert(dec_digit(n, top) != 0);
            assert(lz < len);
            assert forall|i: nat| i < lz as nat implies dec_digit(n, i) == 0 by {
                assert(digits@[i as int] == 0);
            }
            if lz < SCALE {
                assert(digits@[lz as int] == dec_digit(n, lz as nat));
            }
            lemma_low_zeros(n, SCALE as nat, lz as nat);
        }
        // The whole part, then the point and the fraction
        let width: usize = if len > SCALE {
            len
        } else {
            SCALE + 1
        };
        push_digits(&mut out, &digits, width, SCALE, Ghost(n));
        if lz < SCALE {
            out.push(CHAR_POINT);
            push_digits(&mut out, &digits, SCALE, lz, Ghost(n));
            proof {
                assert(out@ =~= sign + (digits_text(n, width as nat, SCALE as nat) + seq![
                    CHAR_POINT,
                ] + digits_text(n, SCALE as nat, lz as nat)));
            }
        }
        proof {
            let text = finite_text(n, SCALE as nat);
            assert(Seq::<u8>::empty() + text =~= text);
        }
        out
    }
}

} // verus!
