//! Laws of the arithmetic, of the byte encoding and of the notation.

use vstd::prelude::*;
use vstd::arithmetic::power2::pow2;
use crate::units::{
    NumberUnit, PrimNumber, base_pow, mag_value, pow10, lemma_base_pow, lemma_unit_bound,
    lemma_pow10_positive,
};
use crate::number::Fdec;
use crate::value::{Value, add_value, sub_value, mul_value};
use crate::bytes::{
    FromBytesError, unit_byte, unit_width, encode_le, encode_be, decode_le, decode_be,
    bytes_value, lemma_flags, lemma_bytes_concat, lemma_unit_bytes_value, lemma_unit_width,
};
use crate::shift::lemma_base_pow_is_pow2;
use crate::parse::{
    ParseNumberError, CHAR_ZERO, CHAR_POINT, CHAR_MINUS, is_digit, all_digits, digits_value,
    body_of, valid_body, kept_fraction, body_count, parse_text, lemma_point_at,
    lemma_pow10_monotonic,
};
use crate::format::{
    dec_digit, dec_len, low_zeros, digit_char, digits_text, finite_text, format_text,
    lemma_pow10_div, lemma_dec_len, lemma_digit_shift,
};

verus! {

/// Adding a number and then subtracting it gives the first number back,
/// where both are finite and so is their sum.
pub proof fn lemma_add_then_sub<U: NumberUnit, const N: usize, const SCALE: usize>(
    a: Fdec<U, N, SCALE>,
    b: Fdec<U, N, SCALE>,
)
    requires
        a.wf(),
        b.wf(),
        a@ is Finite,
        b@ is Finite,
        add_value(a@, b@, Fdec::<U, N, SCALE>::limit()) is Finite,
    ensures
        sub_value(
            add_value(a@, b@, Fdec::<U, N, SCALE>::limit()),
            b@,
            Fdec::<U, N, SCALE>::limit(),
        ) == a@,
{
    a.lemma_view();
    b.lemma_view();
}

/// One is the identity of the product of finite numbers.
pub proof fn lemma_mul_one<U: NumberUnit, const N: usize, const SCALE: usize>(v: Fdec<U, N, SCALE>)
    requires
        Fdec::<U, N, SCALE>::valid_params(),
        v.wf(),
        v@ is Finite,
    ensures
        mul_value(
            v@,
            Value::Finite(Fdec::<U, N, SCALE>::one_units()),
            Fdec::<U, N, SCALE>::limit(),
            Fdec::<U, N, SCALE>::one_units(),
        ) == v@,
{
    v.lemma_view();
    let x = v@.units();
    let one = Fdec::<U, N, SCALE>::one_units();
    lemma_pow10_positive(SCALE as nat);
    if x >= 0 {
        vstd::arithmetic::div_mod::lemma_div_multiples_vanish(x, one);
    } else {
        vstd::arithmetic::div_mod::lemma_div_multiples_vanish(-x, one);
        assert(-(x * one) == (-x) * one) by (nonlinear_arith);
        assert(x * one < 0) by (nonlinear_arith)
            requires
                x < 0,
                one > 0,
        ;
    }
    assert(x * one >= 0 <==> x >= 0) by (nonlinear_arith)
        requires
            one > 0,
    ;
}

/// The product of a finite number and zero is zero, and the product of an
/// infinity and zero is NaN.
pub proof fn lemma_mul_zero<U: NumberUnit, const N: usize, const SCALE: usize>(v: Fdec<U, N, SCALE>)
    requires
        Fdec::<U, N, SCALE>::valid_params(),
        v.wf(),
    ensures
        v@ is Finite ==> mul_value(
            v@,
            Value::Finite(0),
            Fdec::<U, N, SCALE>::limit(),
            Fdec::<U, N, SCALE>::one_units(),
        ) == Value::Finite(0),
        v@.is_infinite() ==> mul_value(
            v@,
            Value::Finite(0),
            Fdec::<U, N, SCALE>::limit(),
            Fdec::<U, N, SCALE>::one_units(),
        ) == Value::Nan,
{
    v.lemma_view();
    let x = v@.units();
    let one = Fdec::<U, N, SCALE>::one_units();
    lemma_pow10_positive(SCALE as nat);
    lemma_base_pow::<U>(N as nat);
    assert(x * 0 == 0);
    vstd::arithmetic::div_mod::lemma_basic_div(0, one);
}

/// The sum and the product do not depend on the order of the operands,
/// whatever the operands are.
pub proof fn lemma_commutative<U: NumberUnit, const N: usize, const SCALE: usize>(
    a: Fdec<U, N, SCALE>,
    b: Fdec<U, N, SCALE>,
)
    requires
        a.wf(),
        b.wf(),
    ensures
        add_value(a@, b@, Fdec::<U, N, SCALE>::limit()) == add_value(
            b@,
            a@,
            Fdec::<U, N, SCALE>::limit(),
        ),
        mul_value(
            a@,
            b@,
            Fdec::<U, N, SCALE>::limit(),
            Fdec::<U, N, SCALE>::one_units(),
        ) == mul_value(b@, a@, Fdec::<U, N, SCALE>::limit(), Fdec::<U, N, SCALE>::one_units()),
{
    let x = a@.units();
    let y = b@.units();
    assert(x * y == y * x) by (nonlinear_arith);
}

/// One unit in the last place beyond the largest number is infinity, one
/// below the smallest is negative infinity, and twice the largest number
/// is infinity.
pub proof fn lemma_boundary_overflow<U: NumberUnit, const N: usize, const SCALE: usize>()
    requires
        Fdec::<U, N, SCALE>::valid_params(),
    ensures
        add_value(
            Value::Finite(Fdec::<U, N, SCALE>::limit() - 1),
            Value::Finite(1),
            Fdec::<U, N, SCALE>::limit(),
        ) == Value::Infinity,
        sub_value(
            Value::Finite(1 - Fdec::<U, N, SCALE>::limit()),
            Value::Finite(1),
            Fdec::<U, N, SCALE>::limit(),
        ) == Value::NegInfinity,
        mul_value(
            Value::Finite(Fdec::<U, N, SCALE>::limit() - 1),
            Fdec::<U, N, SCALE>::scaled_value(2, 0),
            Fdec::<U, N, SCALE>::limit(),
            Fdec::<U, N, SCALE>::one_units(),
        ) == Value::Infinity,
{
    let lim = Fdec::<U, N, SCALE>::limit();
    let one = Fdec::<U, N, SCALE>::one_units();
    lemma_pow10_positive(SCALE as nat);
    crate::number::lemma_base_pow_ge_base::<U>(N as nat);
    let two = 2 * pow10((SCALE - 0) as nat);
    if two < lim {
        vstd::arithmetic::div_mod::lemma_div_multiples_vanish(2 * (lim - 1), one);
        assert((lim - 1) * (2 * one) == (2 * (lim - 1)) * one) by (nonlinear_arith);
        assert((lim - 1) * (2 * one) >= 0) by (nonlinear_arith)
            requires
                lim >= 1,
                one >= 1,
        ;
    }
}

/// The bytes of the units of a magnitude stand for the value of the
/// magnitude.
pub proof fn lemma_magnitude_bytes<U: NumberUnit>(flags: u8, mag: Seq<U>)
    ensures
        bytes_value(encode_le(flags, mag).drop_last()) == mag_value(mag),
    decreases mag.len(),
{
    lemma_unit_width::<U>();
    let w = unit_width::<U>();
    let all = encode_le(flags, mag).drop_last();
    if mag.len() == 0 {
        assert(all =~= Seq::<u8>::empty());
    } else {
        let head = mag.drop_last();
        let last = mag.last();
        let n = (mag.len() - 1) as nat;
        lemma_magnitude_bytes(flags, head);
        let low = encode_le(flags, head).drop_last();
        let high = Seq::new(w, |k: int| unit_byte(last.to_nat(), k as nat));
        assert(n * w + w == mag.len() * w) by (nonlinear_arith)
            requires
                n + 1 == mag.len(),
        ;
        assert forall|j: int| 0 <= j < all.len() implies all[j] == (low + high)[j] by {
            if j < n * w {
                vstd::arithmetic::div_mod::lemma_fundamental_div_mod(j, w as int);
                vstd::arithmetic::div_mod::lemma_mod_bound(j, w as int);
                let q = j / (w as int);
                assert(q < n) by (nonlinear_arith)
                    requires
                        j == w * q + j % (w as int),
                        j % (w as int) >= 0,
                        j < n * w,
                        w >= 1,
                ;
                vstd::arithmetic::div_mod::lemma_div_pos_is_pos(j, w as int);
                assert(head[q] == mag[q]);
            } else {
                let k = j - n * w;
                vstd::arithmetic::div_mod::lemma_fundamental_div_mod_converse(
                    j,
                    w as int,
                    n as int,
                    k,
                );
            }
        }
        assert(all =~= low + high);
        lemma_bytes_concat(low, high);
        lemma_unit_bytes_value(last.to_nat(), w);
        lemma_unit_bound(last);
        vstd::arithmetic::div_mod::lemma_small_mod(last.to_nat(), pow2(8 * w));
        lemma_base_pow_is_pow2::<U>(n);
        assert(U::bit_width() * n == 8 * (n * w)) by (nonlinear_arith)
            requires
                8 * w == U::bit_width(),
        ;
        let p = base_pow::<U>(n) as int;
        let x = last.to_nat() as int;
        assert(p * x == x * p) by (nonlinear_arith);
    }
}

/// The little-endian bytes of a number stand for the number.
pub proof fn lemma_le_round_trip<U: NumberUnit, const N: usize, const SCALE: usize>(
    v: Fdec<U, N, SCALE>,
)
    requires
        v.wf(),
    ensures
        decode_le(encode_le(v.flag_bits(), v.units_seq())) == Ok::<Value, FromBytesError>(v@),
{
    v.lemma_view();
    v.lemma_repr();
    let f = v.flag_bits();
    lemma_flags(f);
    lemma_magnitude_bytes(f, v.units_seq());
    let bytes = encode_le(f, v.units_seq());
    assert(bytes.last() == f);
}

/// The big-endian bytes of a number stand for the number.
pub proof fn lemma_be_round_trip<U: NumberUnit, const N: usize, const SCALE: usize>(
    v: Fdec<U, N, SCALE>,
)
    requires
        v.wf(),
    ensures
        decode_be(encode_be(v.flag_bits(), v.units_seq())) == Ok::<Value, FromBytesError>(v@),
{
    lemma_le_round_trip(v);
    let le = encode_le(v.flag_bits(), v.units_seq());
    assert(le.reverse().reverse() =~= le);
}

/// The digits from the place `from` down to the place `to` stand for the
/// quotient by ten to the `to`, without what is at the place `from` and
/// above.
pub proof fn lemma_digits_text_value(n: nat, from: nat, to: nat)
    requires
        to <= from,
    ensures
        all_digits(digits_text(n, from, to)),
        digits_value(digits_text(n, from, to)) == (n / pow10(to)) % pow10((from - to) as nat),
    decreases from - to,
{
    let dt = digits_text(n, from, to);
    crate::units::lemma_pow10_values();
    assert forall|i: int| 0 <= i < dt.len() implies is_digit(#[trigger] dt[i]) by {
        lemma_digit_shift(n, (from - 1 - i) as nat);
    }
    if from == to {
        assert((n / pow10(to)) % 1 == 0);
    } else {
        lemma_digits_text_value(n, from, to + 1);
        assert(dt.drop_last() =~= digits_text(n, from, to + 1));
        lemma_digit_shift(n, to);
        assert(dt.last() == digit_char(dec_digit(n, to)));
        let x = n / pow10(to);
        let z = pow10((from - to - 1) as nat);
        lemma_pow10_div(n, to, 1);
        lemma_pow10_positive((from - to - 1) as nat);
        lemma_pow10_positive(to);
        vstd::arithmetic::div_mod::lemma_div_pos_is_pos(n as int, pow10(to) as int);
        vstd::arithmetic::div_mod::lemma_mod_breakdown(x as int, 10, z as int);
        assert(pow10((from - to) as nat) == 10 * z);
        let hi = ((x / 10) % z) as int;
        assert(hi * 10 == 10 * hi);
    }
}

/// A number is a multiple of ten to the number of its low zeros, which is
/// the scale at most.
pub proof fn lemma_low_zeros_divide(n: nat, scale: nat)
    ensures
        low_zeros(n, scale) <= scale,
        n % pow10(low_zeros(n, scale)) == 0,
    decreases scale,
{
    crate::units::lemma_pow10_values();
    if scale == 0 || n % 10 != 0 {
        assert(n % 1 == 0);
    } else {
        lemma_low_zeros_divide(n / 10, (scale - 1) as nat);
        let z = pow10(low_zeros(n / 10, (scale - 1) as nat));
        lemma_pow10_positive(low_zeros(n / 10, (scale - 1) as nat));
        vstd::arithmetic::div_mod::lemma_mod_breakdown(n as int, 10, z as int);
        assert(10 * 0 == 0);
    }
}

/// The quotient of a number below ten to the `w` by ten to the `k` is
/// below ten to the `w - k`.
pub proof fn lemma_quotient_below(n: nat, w: nat, k: nat)
    requires
        k <= w,
        n < pow10(w),
    ensures
        n / pow10(k) < pow10((w - k) as nat),
        (n / pow10(k)) % pow10((w - k) as nat) == n / pow10(k),
{
    lemma_pow10_positive(k);
    lemma_pow10_positive((w - k) as nat);
    crate::units::lemma_pow10_adds(k, (w - k) as nat);
    let q = (n / pow10(k)) as int;
    let pk = pow10(k) as int;
    let pr = pow10((w - k) as nat) as int;
    vstd::arithmetic::div_mod::lemma_fundamental_div_mod(n as int, pk);
    vstd::arithmetic::div_mod::lemma_mod_bound(n as int, pk);
    assert(q < pr) by (nonlinear_arith)
        requires
            n == pk * q + n as int % pk,
            n as int % pk >= 0,
            n < pk * pr,
            pk > 0,
    ;
    vstd::arithmetic::div_mod::lemma_div_pos_is_pos(n as int, pk);
    vstd::arithmetic::div_mod::lemma_small_mod(q as nat, pr as nat);
}

/// The notation of a count that is not zero keeps the grammar, begins with
/// a digit, and stands for the count.
pub proof fn lemma_finite_text_parses(n: nat, scale: nat)
    requires
        n > 0,
    ensures
        finite_text(n, scale).len() > 0,
        is_digit(finite_text(n, scale)[0]),
        valid_body(finite_text(n, scale)),
        body_count(finite_text(n, scale), scale) == n,
{
    let len = dec_len(n);
    let width = if len > scale {
        len
    } else {
        scale + 1
    };
    let lz = low_zeros(n, scale);
    let b = finite_text(n, scale);
    let whole = digits_text(n, width, scale);
    lemma_low_zeros_divide(n, scale);
    lemma_dec_len(n);
    lemma_pow10_monotonic(len, width);
    lemma_digits_text_value(n, width, scale);
    lemma_digits_text_value(n, width, lz);
    lemma_digits_text_value(n, scale, lz);
    lemma_quotient_below(n, width, lz);
    lemma_pow10_positive(lz);
    vstd::arithmetic::div_mod::lemma_fundamental_div_mod(n as int, pow10(lz) as int);
    let q = (n / pow10(lz)) as int;
    assert(q * pow10(lz) == pow10(lz) * q) by (nonlinear_arith);
    assert(is_digit(whole[0]));
    if lz == scale {
        assert(b == whole);
        assert forall|i: int| 0 <= i < b.len() implies #[trigger] b[i] != CHAR_POINT by {
            assert(is_digit(b[i]));
        }
        lemma_point_at(b, b.len() as int);
        assert(b.take(b.len() as int) =~= b);
        assert(b + Seq::<u8>::empty() =~= b);
        assert(kept_fraction(b, scale) =~= Seq::<u8>::empty());
    } else {
        let frac = digits_text(n, scale, lz);
        let p = whole.len() as int;
        assert(b =~= whole + seq![CHAR_POINT] + frac);
        assert forall|i: int| 0 <= i < p implies #[trigger] b[i] != CHAR_POINT by {
            assert(b[i] == whole[i]);
            assert(is_digit(whole[i]));
        }
        assert(b[p] == CHAR_POINT);
        lemma_point_at(b, p);
        assert(b.take(p) =~= whole);
        assert(b.skip(p + 1) =~= frac);
        assert(kept_fraction(b, scale) =~= frac);
        assert(whole + frac =~= digits_text(n, width, lz));
        assert((scale - (scale - lz)) as nat == lz);
    }
}

/// The notation of a finite number stands for the number.
pub proof fn lemma_text_round_trip<U: NumberUnit, const N: usize, const SCALE: usize>(
    v: Fdec<U, N, SCALE>,
)
    requires
        v.wf(),
        v@ is Finite,
    ensures
        parse_text(format_text(v@, SCALE as nat), SCALE as nat, Fdec::<U, N, SCALE>::limit())
            == Ok::<Value, ParseNumberError>(v@),
{
    v.lemma_view();
    let m = v@.units();
    let s = format_text(v@, SCALE as nat);
    let scale = SCALE as nat;
    if m == 0 {
        let b = seq![CHAR_ZERO];
        assert(s =~= b);
        assert(body_of(s) =~= b);
        lemma_point_at(b, 1);
        assert(b.take(1) =~= b);
        assert(kept_fraction(b, scale) =~= Seq::<u8>::empty());
        assert(b + Seq::<u8>::empty() =~= b);
        assert(b.drop_last() =~= Seq::<u8>::empty());
        assert(digits_value(Seq::<u8>::empty()) == 0);
        assert(b.last() == CHAR_ZERO);
        assert(digits_value(b) == 0);
        assert(0 * pow10(scale) == 0);
        crate::number::lemma_base_pow_positive::<U>(N as nat);
    } else if m < 0 {
        let n = (-m) as nat;
        lemma_finite_text_parses(n, scale);
        assert(s =~= seq![CHAR_MINUS] + finite_text(n, scale));
        assert(body_of(s) =~= finite_text(n, scale));
    } else {
        let n = m as nat;
        lemma_finite_text_parses(n, scale);
        assert(body_of(s) =~= finite_text(n, scale));
    }
}

} // verus!
