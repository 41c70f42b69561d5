//! Numbers from decimal notation: an optional sign, digits, and at most one
//! decimal point.

use vstd::prelude::*;
use vstd::slice::slice_subrange;
use crate::units::{
    NumberUnit, PrimNumber, base, mag_value, pow10, is_magnitude_zero, lemma_base, lemma_base_pow,
    lemma_pow10_adds, lemma_pow10_positive, lemma_mag_value_bound,
};
use crate::magnitude::{multiply_by_unit, add_unit};
use crate::number::Fdec;
use crate::value::{Value, signed, signed_infinity, add_value};

verus! {

/// Represents errors that can be produced when strings are parsed to numbers.
#[derive(PartialEq, Eq, Debug, Clone, Copy, Structural)]
pub enum ParseNumberError {
    /// String has invalid format and cannot be parsed.
    InvalidFormat,
    /// String represents a value that doesn't fit into the numeric type.
    Overflow,
}

/// The character `0`.
pub const CHAR_ZERO: u8 = 48;

/// The character `9`.
pub const CHAR_NINE: u8 = 57;

/// The decimal point.
pub const CHAR_POINT: u8 = 46;

/// The sign `+`.
pub const CHAR_PLUS: u8 = 43;

/// The sign `-`.
pub const CHAR_MINUS: u8 = 45;

/// The character is a decimal digit.
pub open spec fn is_digit(b: u8) -> bool {
    CHAR_ZERO <= b <= CHAR_NINE
}

/// All the characters are decimal digits.
pub open spec fn all_digits(s: Seq<u8>) -> bool {
    forall|i: int| 0 <= i < s.len() ==> is_digit(#[trigger] s[i])
}

/// The number that a sequence of digits stands for.
pub open spec fn digits_value(s: Seq<u8>) -> nat
    decreases s.len(),
{
    if s.len() == 0 {
        0
    } else {
        digits_value(s.drop_last()) * 10 + (s.last() - CHAR_ZERO) as nat
    }
}

/// The text begins with a sign.
pub open spec fn has_sign(s: Seq<u8>) -> bool {
    s.len() > 0 && (s[0] == CHAR_PLUS || s[0] == CHAR_MINUS)
}

/// The text without its sign.
pub open spec fn body_of(s: Seq<u8>) -> Seq<u8> {
    if has_sign(s) {
        s.skip(1)
    } else {
        s
    }
}

/// The index of the first decimal point, or the length if there is none.
pub open spec fn point_index(b: Seq<u8>) -> int
    decreases b.len(),
{
    if b.len() == 0 {
        0
    } else if b[0] == CHAR_POINT {
        0
    } else {
        1 + point_index(b.skip(1))
    }
}

/// The grammar of a number without its sign: digits with at most one point,
/// and at least one character besides a point.
pub open spec fn valid_body(b: Seq<u8>) -> bool {
    let p = point_index(b);
    &&& b.len() > 0
    &&& !(b.len() == 1 && b[0] == CHAR_POINT)
    &&& all_digits(b.take(p))
    &&& (p < b.len() ==> all_digits(b.skip(p + 1)))
}

/// The digits after the point, cut to `scale` of them.
pub open spec fn kept_fraction(b: Seq<u8>, scale: nat) -> Seq<u8> {
    let p = point_index(b);
    if p >= b.len() {
        Seq::<u8>::empty()
    } else if b.len() - p - 1 <= scale {
        b.skip(p + 1)
    } else {
        b.subrange(p + 1, p + 1 + scale)
    }
}

/// The count of units in the last place that an unsigned text stands for at
/// `scale` decimal places: the digits beyond the scale are dropped.
pub open spec fn body_count(b: Seq<u8>, scale: nat) -> nat {
    let kept = kept_fraction(b, scale);
    digits_value(b.take(point_index(b)) + kept) * pow10((scale - kept.len()) as nat)
}

/// What a text stands for at `scale` decimal places, where magnitudes end
/// below `limit`.
pub open spec fn parse_text(s: Seq<u8>, scale: nat, limit: int) -> Result<Value, ParseNumberError> {
    let b = body_of(s);
    if !valid_body(b) {
        Err(ParseNumberError::InvalidFormat)
    } else if body_count(b, scale) >= limit {
        Err(ParseNumberError::Overflow)
    } else {
        Ok(Value::Finite(signed(s[0] == CHAR_MINUS, body_count(b, scale) as int)))
    }
}

/// The first point is within the text or at its end; no point stands before
/// it, and a point stands there unless the text ends.
pub proof fn lemma_point_index(b: Seq<u8>)
    ensures
        0 <= point_index(b) <= b.len(),
        forall|i: int| 0 <= i < point_index(b) ==> #[trigger] b[i] != CHAR_POINT,
        point_index(b) < b.len() ==> b[point_index(b)] == CHAR_POINT,
    decreases b.len(),
{
    if b.len() > 0 && b[0] != CHAR_POINT {
        let t = b.skip(1);
        lemma_point_index(t);
        assert forall|i: int| 0 <= i < point_index(b) implies #[trigger] b[i] != CHAR_POINT by {
            if i > 0 {
                assert(t[i - 1] == b[i]);
            }
        }
    }
}

/// The first point of a text is at `p` if a point is there, or the text
/// ends there, and no point stands before.
pub proof fn lemma_point_at(b: Seq<u8>, p: int)
    requires
        0 <= p <= b.len(),
        forall|i: int| 0 <= i < p ==> #[trigger] b[i] != CHAR_POINT,
        p < b.len() ==> b[p] == CHAR_POINT,
    ensures
        point_index(b) == p,
{
    lemma_point_index(b);
    let q = point_index(b);
    if q < p {
        assert(b[q] != CHAR_POINT);
    }
}

/// The value of digits after more digits.
pub proof fn lemma_digits_concat(a: Seq<u8>, b: Seq<u8>)
    ensures
        digits_value(a + b) == digits_value(a) * pow10(b.len()) + digits_value(b),
    decreases b.len(),
{
    if b.len() == 0 {
        assert(a + b =~= a);
        assert(pow10(0) == 1);
        assert(digits_value(b) == 0);
        assert(digits_value(a) * 1 == digits_value(a));
    } else {
        lemma_digits_concat(a, b.drop_last());
        assert(pow10(b.len()) == 10 * pow10((b.len() - 1) as nat));
        assert((a + b).drop_last() =~= a + b.drop_last());
        assert((a + b).last() == b.last());
        let x = digits_value(a) as int;
        let p = pow10((b.len() - 1) as nat) as int;
        let y = digits_value(b.drop_last()) as int;
        assert((x * p + y) * 10 == x * (10 * p) + y * 10) by (nonlinear_arith);
    }
}

/// Zeros stand for zero.
pub proof fn lemma_zeros_value(s: Seq<u8>)
    requires
        forall|i: int| 0 <= i < s.len() ==> #[trigger] s[i] == CHAR_ZERO,
    ensures
        digits_value(s) == 0,
    decreases s.len(),
{
    if s.len() > 0 {
        lemma_zeros_value(s.drop_last());
    }
}

/// What a text with `z` leading zeros stands for: the point falls out where
/// only zeros follow it, and zeros at the end of the fraction fall out.
///
/// `p` is the index of the point or the length, and `e` the end of what is
/// kept: the integer part, and the fraction up to its last digit, within the
/// scale, that is not zero.
pub proof fn lemma_trimmed_count(b: Seq<u8>, scale: nat, z: int, p: int, e: int)
    requires
        0 <= z <= p <= b.len(),
        point_index(b) == p,
        forall|i: int| 0 <= i < z ==> #[trigger] b[i] == CHAR_ZERO,
        p == b.len() ==> e == p,
        p < b.len() ==> (e == p || p + 1 < e <= p + 1 + kept_fraction(b, scale).len()),
        forall|i: int|
            p < e <= i < p + 1 + kept_fraction(b, scale).len() ==> #[trigger] b[i] == CHAR_ZERO,
        e == p ==> forall|i: int|
            p < i < p + 1 + kept_fraction(b, scale).len() ==> #[trigger] b[i] == CHAR_ZERO,
    ensures
        e == p ==> body_count(b, scale) == digits_value(b.subrange(z, p)) * pow10(scale),
        e > p ==> body_count(b, scale) == digits_value(b.subrange(z, p) + b.subrange(p + 1, e))
            * pow10((scale - (e - p - 1)) as nat),
{
    let kept = kept_fraction(b, scale);
    let k = kept.len() as int;
    let int_part = b.take(p);
    let zeros = b.take(z);
    let core = b.subrange(z, p);
    assert(int_part =~= zeros + core);
    lemma_zeros_value(zeros);
    assert(forall|i: int| 0 <= i < k ==> kept[i] == b[p + 1 + i]);
    if e == p {
        // the kept fraction is all zeros
        lemma_zeros_value(kept);
        lemma_digits_concat(int_part, kept);
        lemma_digits_concat(zeros, core);
        lemma_pow10_adds(k as nat, (scale - k) as nat);
        let x = digits_value(core) as int;
        let pk = pow10(k as nat) as int;
        let pr = pow10((scale - k) as nat) as int;
        assert((x * pk) * pr == x * (pk * pr)) by (nonlinear_arith);
        assert(0 * pow10(core.len()) == 0);
    } else {
        let t = e - p - 1;
        let front = b.subrange(p + 1, e);
        let back = b.subrange(e, p + 1 + k);
        assert(kept =~= front + back);
        assert forall|i: int| 0 <= i < back.len() implies #[trigger] back[i] == CHAR_ZERO by {
            assert(back[i] == b[e + i]);
        }
        lemma_zeros_value(back);
        assert(int_part + kept =~= (zeros + (core + front)) + back);
        lemma_digits_concat(zeros + (core + front), back);
        lemma_digits_concat(zeros, core + front);
        lemma_pow10_adds((k - t) as nat, (scale - k) as nat);
        let x = digits_value(core + front) as int;
        let pk = pow10((k - t) as nat) as int;
        let pr = pow10((scale - k) as nat) as int;
        assert((x * pk) * pr == x * (pk * pr)) by (nonlinear_arith);
        assert(0 * pow10((core + front).len()) == 0);
        assert(((k - t) as nat + (scale - k) as nat) as nat == (scale - t) as nat);
    }
}

/// Basic information about the string to be parsed
pub struct StrInfo<'a> {
    str: &'a [u8],  // String without leading or trailing zeros
    neg: bool,  // Indicates that the number is negative
    point: Option<usize>,  // Position of the decimal point
}

impl<'a> StrInfo<'a> {
    /// The text, without leading zeros and without zeros at the end of the
    /// fraction.
    pub closed spec fn text(&self) -> Seq<u8> {
        self.str@
    }

    /// The text had the sign `-`.
    pub closed spec fn negative(&self) -> bool {
        self.neg
    }

    /// The index of the decimal point in the text, if it has one.
    pub closed spec fn point_at(&self) -> Option<usize> {
        self.point
    }

    /// Puts the three parts together.
    pub fn new(str: &'a [u8], neg: bool, point: Option<usize>) -> (r: StrInfo<'a>)
        ensures
            r.text() == str@,
            r.negative() == neg,
            r.point_at() == point,
    {
        StrInfo { str, neg, point }
    }

    /// The text without leading or trailing zeros.
    pub fn str(&'a self) -> (r: &'a [u8])
        ensures
            r@ == self.text(),
    {
        self.str
    }

    /// Indicates that the number is negative.
    pub fn neg(&self) -> (r: bool)
        ensures
            r == self.negative(),
    {
        self.neg
    }

    /// Position of the decimal point.
    pub fn point(&self) -> (r: Option<usize>)
        ensures
            r == self.point_at(),
    {
        self.point
    }

    /// The digit at index `k`, the point not counted.
    pub fn digit_at(&self, k: usize) -> (r: u8)
        requires
            self.shape(),
            k < self.digits().len(),
        ensures
            r == self.digits()[k as int],
            is_digit(r),
    {
        proof {
            let t = self.text();
            match self.point_at() {
                None => {},
                Some(p) => {
                    assert(self.digits().len() == t.len() - 1);
                    assert(k + 1 < self.str@.len());
                    if k < p {
                        assert(t.take(p as int)[k as int] == t[k as int]);
                    } else {
                        assert(t.skip(p + 1)[k - p] == t[k + 1]);
                    }
                },
            }
        }
        let len = self.str.len();
        match self.point {
            None => self.str[k],
            Some(p) => if k < p {
                self.str[k]
            } else {
                assert(k + 1 < len);
                self.str[k + 1]
            },
        }
    }

    /// The number of digits, the point not counted.
    pub fn digit_count(&self) -> (r: usize)
        requires
            self.shape(),
        ensures
            r == self.digits().len(),
    {
        match self.point {
            None => self.str.len(),
            Some(p) => self.str.len() - 1,
        }
    }

    /// The text is made of digits, but for the point, which has at least
    /// one digit after it.
    pub open spec fn shape(&self) -> bool {
        trimmed_shape(self.text(), self.point_at())
    }

    /// The text has the shape of a trimmed text, and at most `scale` digits
    /// after the point.
    pub open spec fn wf(&self, scale: nat) -> bool {
        trimmed_wf(self.text(), self.point_at(), scale)
    }

    /// The digits of the text, without the point.
    pub open spec fn digits(&self) -> Seq<u8> {
        trimmed_digits(self.text(), self.point_at())
    }

    /// The number of digits after the point.
    pub open spec fn fraction_len(&self) -> nat {
        trimmed_fraction_len(self.text(), self.point_at())
    }

    /// The count of units in the last place that the text stands for at
    /// `scale` decimal places.
    pub open spec fn count(&self, scale: nat) -> nat {
        trimmed_count(self.text(), self.point_at(), scale)
    }
}

/// A trimmed text is made of digits, but for the point, which has at least
/// one digit after it.
pub open spec fn trimmed_shape(t: Seq<u8>, point: Option<usize>) -> bool {
    match point {
        None => all_digits(t),
        Some(p) => {
            &&& p + 1 < t.len()
            &&& t[p as int] == CHAR_POINT
            &&& all_digits(t.take(p as int))
            &&& all_digits(t.skip(p + 1))
        },
    }
}

/// A trimmed text has the shape of one, and at most `scale` digits after
/// the point.
pub open spec fn trimmed_wf(t: Seq<u8>, point: Option<usize>, scale: nat) -> bool {
    trimmed_shape(t, point) && trimmed_fraction_len(t, point) <= scale
}

/// The digits of a trimmed text, without the point.
pub open spec fn trimmed_digits(t: Seq<u8>, point: Option<usize>) -> Seq<u8> {
    match point {
        None => t,
        Some(p) => t.take(p as int) + t.skip(p + 1),
    }
}

/// The number of digits after the point of a trimmed text.
pub open spec fn trimmed_fraction_len(t: Seq<u8>, point: Option<usize>) -> nat {
    match point {
        None => 0,
        Some(p) => (t.len() - p - 1) as nat,
    }
}

/// The count of units in the last place that a trimmed text stands for at
/// `scale` decimal places.
pub open spec fn trimmed_count(t: Seq<u8>, point: Option<usize>, scale: nat) -> nat {
    digits_value(trimmed_digits(t, point)) * pow10((scale - trimmed_fraction_len(t, point)) as nat)
}

/// What the scan of a text has seen before index `j`: zeros up to `z`, then
/// digits and at most one point, of which `scale` digits after the point
/// count, the last of them that is not zero before `end`.
pub open spec fn scanned(
    b: Seq<u8>,
    max_scale: nat,
    z: int,
    j: int,
    point: Option<usize>,
    scale: int,
    end: int,
) -> bool {
    &&& 0 <= z <= end <= j <= b.len()
    &&& forall|i: int| 0 <= i < z ==> #[trigger] b[i] == CHAR_ZERO
    &&& (z < b.len() ==> b[z] != CHAR_ZERO)
    &&& match point {
        None => end == j && scale == 0 && forall|i: int| 0 <= i < j ==> is_digit(#[trigger] b[i]),
        Some(pp) => {
            &&& z <= pp < j
            &&& b[pp as int] == CHAR_POINT
            &&& forall|i: int| 0 <= i < pp ==> is_digit(#[trigger] b[i])
            &&& forall|i: int| pp < i < j ==> is_digit(#[trigger] b[i])
            &&& 0 <= scale <= max_scale
            &&& scale <= j - pp - 1
            &&& (scale < max_scale ==> scale == j - pp - 1)
            &&& (end == pp || pp + 1 < end <= pp + 1 + scale)
            &&& (end > pp ==> b[end - 1] != CHAR_ZERO)
            &&& forall|i: int| pp < i < pp + 1 + scale && end <= i ==> #[trigger] b[i] == CHAR_ZERO
        },
    }
}

/// A character at `j` that is no digit, or a second point, breaks the
/// grammar.
pub proof fn lemma_scan_invalid(
    b: Seq<u8>,
    max_scale: nat,
    z: int,
    j: int,
    point: Option<usize>,
    scale: int,
    end: int,
)
    requires
        scanned(b, max_scale, z, j, point, scale, end),
        j < b.len(),
        !is_digit(b[j]),
        b[j] != CHAR_POINT || point is Some,
    ensures
        !valid_body(b),
{
    lemma_point_index(b);
    match point {
        None => {
            let p = point_index(b);
            if p < j {
                assert(is_digit(b[p]));
            }
            assert(p > j);
            assert(b.take(p)[j] == b[j]);
        },
        Some(pp) => {
            lemma_point_at(b, pp as int);
            assert(b.skip(pp + 1)[j - pp - 1] == b[j]);
        },
    }
}

/// What the scan of a whole text gives: the text keeps the grammar, and
/// what is kept of it stands for the same count.
pub proof fn lemma_scan_done(
    b: Seq<u8>,
    max_scale: nat,
    z: int,
    point: Option<usize>,
    scale: int,
    end: int,
)
    requires
        scanned(b, max_scale, z, b.len() as int, point, scale, end),
        b.len() > 0,
        !(b.len() == 1 && b[0] == CHAR_POINT),
        z <= usize::MAX,
    ensures
        valid_body(b),
        ({
            let kept_point = match point {
                None => None,
                Some(pp) => if end == pp {
                    None
                } else {
                    Some((pp - z) as usize)
                },
            };
            let t = b.subrange(z, end);
            &&& trimmed_wf(t, kept_point, max_scale)
            &&& trimmed_count(t, kept_point, max_scale) == body_count(b, max_scale)
            &&& (t.len() > 0 ==> t[0] != CHAR_ZERO)
            &&& (kept_point is Some ==> t.last() != CHAR_ZERO)
        }),
{
    let t = b.subrange(z, end);
    match point {
        None => {
            lemma_point_at(b, b.len() as int);
            assert(b.take(b.len() as int) =~= b);
            lemma_trimmed_count(b, max_scale, z, b.len() as int, b.len() as int);
            assert forall|i: int| 0 <= i < t.len() implies is_digit(#[trigger] t[i]) by {
                assert(t[i] == b[z + i]);
            }
        },
        Some(pp) => {
            lemma_point_at(b, pp as int);
            assert(kept_fraction(b, max_scale).len() == scale);
            lemma_trimmed_count(b, max_scale, z, pp as int, end);
            assert forall|i: int| 0 <= i < b.take(pp as int).len() implies is_digit(
                #[trigger] b.take(pp as int)[i],
            ) by {
                assert(b.take(pp as int)[i] == b[i]);
            }
            assert forall|i: int| 0 <= i < b.skip(pp + 1).len() implies is_digit(
                #[trigger] b.skip(pp + 1)[i],
            ) by {
                assert(b.skip(pp + 1)[i] == b[pp + 1 + i]);
            }
            if end == pp {
                assert forall|i: int| 0 <= i < t.len() implies is_digit(#[trigger] t[i]) by {
                    assert(t[i] == b[z + i]);
                }
            } else {
                let p = pp - z;
                assert(t.take(p) =~= b.subrange(z, pp as int));
                assert(t.skip(p + 1) =~= b.subrange(pp + 1, end));
                assert forall|i: int| 0 <= i < t.take(p).len() implies is_digit(
                    #[trigger] t.take(p)[i],
                ) by {
                    assert(t.take(p)[i] == b[z + i]);
                }
                assert forall|i: int| 0 <= i < t.skip(p + 1).len() implies is_digit(
                    #[trigger] t.skip(p + 1)[i],
                ) by {
                    assert(t.skip(p + 1)[i] == b[pp + 1 + i]);
                }
            }
        },
    }
}

/// The text `t` is the part of `s` that begins at index `from`.
pub open spec fn is_part_at(t: Seq<u8>, s: Seq<u8>, from: int) -> bool {
    0 <= from && from + t.len() <= s.len() && t == s.subrange(from, from + t.len())
}

/// Checks the text against the grammar, and cuts off what does not count:
/// the sign, leading zeros, the digits beyond `max_scale` decimal places,
/// and zeros at the end of the fraction.
pub fn preparse<'a>(s: &'a [u8], max_scale: usize) -> (r: Result<StrInfo<'a>, ParseNumberError>)
    ensures
        match r {
            Err(e) => e == ParseNumberError::InvalidFormat && !valid_body(body_of(s@)),
            Ok(si) => {
                &&& valid_body(body_of(s@))
                &&& si.wf(max_scale as nat)
                &&& si.negative() == (s@[0] == CHAR_MINUS)
                &&& si.count(max_scale as nat) == body_count(body_of(s@), max_scale as nat)
                &&& (si.text().len() > 0 ==> si.text()[0] != CHAR_ZERO)
                &&& (si.point_at() is Some ==> si.text().last() != CHAR_ZERO)
                &&& exists|from: int| #[trigger] is_part_at(si.text(), s@, from)
            },
        },
{
    let len = s.len();
    let mut neg = false;
    let mut start: usize = 0;
    if len > 0 && s[0] == CHAR_MINUS {
        neg = true;
        start = 1;
    } else if len > 0 && s[0] == CHAR_PLUS {
        start = 1;
    }
    let body = slice_subrange(s, start, len);
    let blen = len - start;
    let ghost b = body@;
    proof {
        assert(b =~= body_of(s@));
        lemma_point_index(b);
    }
    if blen == 0 || (blen == 1 && body[0] == CHAR_POINT) {
        return Err(ParseNumberError::InvalidFormat);
    }
    // Skip leading zeros

    let mut z: usize = 0;
    while z < blen && body[z] == CHAR_ZERO
        invariant
            z <= blen,
            blen == body@.len(),
            forall|i: int| 0 <= i < z ==> #[trigger] body@[i] == CHAR_ZERO,
        decreases blen - z,
    {
        z += 1;
    }
    // Find the end
    let mut point: Option<usize> = None;
    let mut scale: usize = 0;
    let mut end: usize = z;
    let mut j: usize = z;
    while j < blen
        invariant
            blen == b.len(),
            b == body@,
            b == body_of(s@),
            scale <= max_scale,
            scanned(b, max_scale as nat, z as int, j as int, point, scale as int, end as int),
        decreases blen - j,
    {
        let c = body[j];
        if CHAR_ZERO <= c && c <= CHAR_NINE {
            match point {
                None => {
                    end = j + 1;
                },
                Some(pp) => {
                    if scale < max_scale {
                        scale += 1;
                        if c != CHAR_ZERO {
                            end = j + 1;
                        }
                    }
                },
            }
        } else if c == CHAR_POINT && point.is_none() {
            point = Some(j);
        } else {
            proof {
                lemma_scan_invalid(
                    b,
                    max_scale as nat,
                    z as int,
                    j as int,
                    point,
                    scale as int,
                    end as int,
                );
            }
            return Err(ParseNumberError::InvalidFormat);
        }
        j += 1;
    }
    proof {
        lemma_scan_done(b, max_scale as nat, z as int, point, scale as int, end as int);
    }
    // Remove point if there's nothing after it
    let kept_point: Option<usize> = match point {
        None => None,
        Some(pp) => if end == pp {
            None
        } else {
            Some(pp - z)
        },
    };
    let text = slice_subrange(body, z, end);
    proof {
        assert(text@ =~= s@.subrange(start + z, start + z + text@.len()));
        assert(is_part_at(text@, s@, start + z));
    }
    Ok(StrInfo::new(text, neg, kept_point))
}

/// The digits stand for at least what the first `a` of them stand for at
/// their place.
pub proof fn lemma_digits_prefix(d: Seq<u8>, a: int)
    requires
        0 <= a <= d.len(),
    ensures
        digits_value(d.take(a)) * pow10((d.len() - a) as nat) <= digits_value(d),
        digits_value(d.take(a)) <= digits_value(d),
{
    lemma_digits_concat(d.take(a), d.skip(a));
    assert(d.take(a) + d.skip(a) =~= d);
    lemma_pow10_positive((d.len() - a) as nat);
    let x = digits_value(d.take(a)) as int;
    let p = pow10((d.len() - a) as nat) as int;
    assert(x <= x * p) by (nonlinear_arith)
        requires
            x >= 0,
            p >= 1,
    ;
}

/// The size of the chunk of digits that begins at index `start`: the first
/// chunk is as long as it takes for the others to have `power` digits each.
pub open spec fn chunk_len(total: nat, power: nat, start: int) -> nat {
    if start == 0 && total % power != 0 {
        total % power
    } else {
        power
    }
}

/// Reads the chunk of digits that begins at the digit index `start` as one
/// unit; returns the unit and the index of the next chunk, or nothing where
/// the digits have run out.
pub fn get_unit<U: NumberUnit>(si: &StrInfo, start: usize) -> (r: Option<(U, usize)>)
    requires
        si.shape(),
        start <= si.digits().len(),
        start > 0 ==> (si.digits().len() - start) % (U::dec_power() as int) == 0,
    ensures
        r is None <==> start == si.digits().len(),
        r matches Some((u, next)) ==> {
            &&& next == start + chunk_len(si.digits().len(), U::dec_power(), start as int)
            &&& next <= si.digits().len()
            &&& (si.digits().len() - next) % (U::dec_power() as int) == 0
            &&& u.to_nat() == digits_value(si.digits().subrange(start as int, next as int))
        },
{
    proof {
        U::lemma_unit();
        lemma_base::<U>();
    }
    let power: usize = U::unit_base_power();
    let len: usize = si.digit_count();
    if start == len {
        return None;
    }
    let n: usize = if start == 0 && len % power != 0 {
        len % power
    } else {
        power
    };
    let ghost d = si.digits();
    assert(start + n <= len && (len - (start + n)) % (power as int) == 0) by {
        let l = len as int;
        let p = power as int;
        let s = start as int;
        if start == 0 && len % power != 0 {
            vstd::arithmetic::div_mod::lemma_fundamental_div_mod(l, p);
            vstd::arithmetic::div_mod::lemma_mod_bound(l, p);
            assert(l - l % p == p * (l / p));
            vstd::arithmetic::div_mod::lemma_mod_multiples_basic(l / p, p);
            assert((p * (l / p)) % p == 0) by {
                vstd::arithmetic::mul::lemma_mul_is_commutative(p, l / p);
            }
        } else if start == 0 {
            assert(l > 0);
            vstd::arithmetic::div_mod::lemma_fundamental_div_mod(l, p);
            assert(l / p >= 1) by (nonlinear_arith)
                requires
                    l == p * (l / p) + 0,
                    l > 0,
                    p > 0,
            ;
            assert(l >= p) by (nonlinear_arith)
                requires
                    l == p * (l / p) + 0,
                    l / p >= 1,
                    p > 0,
            ;
            vstd::arithmetic::div_mod::lemma_mod_sub_multiples_vanish(l, p);
        } else {
            let r = l - s;
            vstd::arithmetic::div_mod::lemma_fundamental_div_mod(r, p);
            assert(r / p >= 1) by (nonlinear_arith)
                requires
                    r == p * (r / p) + 0,
                    r > 0,
                    p > 0,
            ;
            assert(r >= p) by (nonlinear_arith)
                requires
                    r == p * (r / p) + 0,
                    r / p >= 1,
                    p > 0,
            ;
            vstd::arithmetic::div_mod::lemma_mod_sub_multiples_vanish(r, p);
        }
    }
    let mut u: u128 = 0;
    let mut i: usize = 0;
    proof {
        assert(d.subrange(start as int, start as int) =~= Seq::<u8>::empty());
        crate::units::lemma_pow10_values();
    }
    while i < n
        invariant
            i <= n,
            1 <= n <= power,
            power == U::dec_power(),
            power <= 19,
            start + n <= len,
            len == d.len(),
            d == si.digits(),
            si.shape(),
            u == digits_value(d.subrange(start as int, start + i)),
            u < pow10(i as nat),
        decreases n - i,
    {
        let c = si.digit_at(start + i);
        proof {
            let cur = d.subrange(start as int, start + i + 1);
            assert(cur.drop_last() =~= d.subrange(start as int, start + i));
            assert(cur.last() == c);
            lemma_pow10_monotonic((i + 1) as nat, 19);
            crate::units::lemma_pow10_values();
        }
        u = u * 10 + (c - CHAR_ZERO) as u128;
        i += 1;
    }
    proof {
        lemma_pow10_monotonic(n as nat, power as nat);
        vstd::arithmetic::div_mod::lemma_small_mod(u as nat, base::<U>());
    }
    Some((U::narrow(u), start + n))
}

/// Ten to a power grows with the power.
pub proof fn lemma_pow10_monotonic(a: nat, b: nat)
    requires
        a <= b,
    ensures
        pow10(a) <= pow10(b),
{
    lemma_pow10_adds(a, (b - a) as nat);
    lemma_pow10_positive((b - a) as nat);
    lemma_pow10_positive(a);
    let x = pow10(a) as int;
    let y = pow10((b - a) as nat) as int;
    assert(x <= x * y) by (nonlinear_arith)
        requires
            x >= 0,
            y >= 1,
    ;
}

impl<U: NumberUnit, const N: usize, const SCALE: usize> Fdec<U, N, SCALE> {
    /// The number that the text `s`, given by its bytes, stands for: an
    /// optional sign, then digits with at most one decimal point. The digits
    /// beyond the scale are dropped.
    pub fn parse_bytes(s: &[u8]) -> (r: Result<Self, ParseNumberError>)
        requires
            Self::valid_params(),
        ensures
            match r {
                Ok(v) => v.wf() && parse_text(s@, SCALE as nat, Self::limit()) == Ok::<
                    Value,
                    ParseNumberError,
                >(v@),
                Err(e) => parse_text(s@, SCALE as nat, Self::limit()) == Err::<
                    Value,
                    ParseNumberError,
                >(e),
            },
    {
        let si = match preparse(s, SCALE) {
            Ok(si) => si,
            Err(e) => {
                return Err(e);
            },
        };
        let ghost d = si.digits();
        let ghost count = si.count(SCALE as nat) as int;
        let ghost lim = Self::limit();
        let total: usize = si.digit_count();
        proof {
            lemma_base_pow::<U>(N as nat);
            lemma_pow10_positive((SCALE - si.fraction_len()) as nat);
            let m = digits_value(d) as int;
            let p = pow10((SCALE - si.fraction_len()) as nat) as int;
            assert(m <= m * p) by (nonlinear_arith)
                requires
                    m >= 0,
                    p >= 1,
            ;
            if total == 0 {
                assert(d =~= Seq::<u8>::empty());
                assert(0 * p == 0);
            }
            assert(d.take(0) =~= Seq::<u8>::empty());
            U::lemma_unit();
        }
        if total == 0 {
            return Ok(Self::zero());
        }
        let unit_base = U::unit_base();
        let mut mag = Self::zero_magnitude();
        let mut idx: usize = 0;
        let mut more: bool = true;
        while more
            invariant
                si.wf(SCALE as nat),
                d == si.digits(),
                total == d.len(),
                idx <= total,
                idx > 0 ==> (total - idx) % (U::dec_power() as int) == 0,
                !more ==> idx == total,
                unit_base.to_nat() == pow10(U::dec_power()),
                1 <= U::dec_power(),
                mag_value(mag@) == digits_value(d.take(idx as int)),
                lim == Self::limit(),
                lim > 0,
                count == si.count(SCALE as nat),
                digits_value(d) <= count,
                parse_text(s@, SCALE as nat, lim) == if count >= lim {
                    Err::<Value, ParseNumberError>(ParseNumberError::Overflow)
                } else {
                    Ok::<Value, ParseNumberError>(
                        Value::Finite(signed(si.negative(), count)),
                    )
                },
            decreases total - idx + (if more { 1int } else { 0int }),
        {
            match get_unit::<U>(&si, idx) {
                None => {
                    more = false;
                },
                Some((u, next)) => {
                    let ghost chunk = d.subrange(idx as int, next as int);
                    proof {
                        lemma_digits_concat(d.take(idx as int), chunk);
                        assert(d.take(idx as int) + chunk =~= d.take(next as int));
                        lemma_digits_prefix(d, next as int);
                        lemma_mag_value_bound(mag@);
                    }
                    if idx > 0 {
                        let carry = multiply_by_unit(&mut mag, unit_base);
                        proof {
                            let c = carry.to_nat() as int;
                            let mv = mag_value(mag@) as int;
                            let x = digits_value(d.take(idx as int)) as int;
                            let pp = pow10(U::dec_power()) as int;
                            if c != 0 {
                                assert(x * pp >= lim) by (nonlinear_arith)
                                    requires
                                        mv + c * lim == x * pp,
                                        c >= 1,
                                        mv >= 0,
                                        lim > 0,
                                ;
                            } else {
                                assert(c * lim == 0) by (nonlinear_arith)
                                    requires
                                        c == 0,
                                ;
                            }
                        }
                        if carry.widen() != 0 {
                            return Err(ParseNumberError::Overflow);
                        }
                    } else {
                        proof {
                            assert(0 * pow10(chunk.len()) == 0);
                        }
                    }
                    let carry = add_unit(&mut mag, u);
                    proof {
                        let c = carry.to_nat() as int;
                        let mv = mag_value(mag@) as int;
                        let y = digits_value(d.take(next as int)) as int;
                        if c != 0 {
                            assert(y >= lim) by (nonlinear_arith)
                                requires
                                    mv + c * lim == y,
                                    c >= 1,
                                    mv >= 0,
                                    lim > 0,
                            ;
                        } else {
                            assert(c * lim == 0) by (nonlinear_arith)
                                requires
                                    c == 0,
                            ;
                        }
                    }
                    if carry.widen() != 0 {
                        return Err(ParseNumberError::Overflow);
                    }
                    idx = next;
                },
            }
        }
        proof {
            assert(d.take(total as int) =~= d);
        }
        if is_magnitude_zero(&mag) {
            proof {
                assert(0 * pow10((SCALE - si.fraction_len()) as nat) == 0);
            }
            return Ok(Self::zero());
        }
        // Rescale

        let sm: usize = match si.point() {
            None => SCALE,
            Some(p) => SCALE - (si.str().len() - p - 1),
        };
        let overflow = Self::move_point_right(&mut mag, sm);
        if overflow {
            return Err(ParseNumberError::Overflow);
        }
        Ok(Self::with_sign(si.neg(), mag))
    }
}

/// The digit of the first decimal place beyond `scale`, if the text has
/// one.
pub open spec fn next_digit(s: Seq<u8>, scale: nat) -> Option<u8> {
    let b = body_of(s);
    let i = point_index(b) + 1 + scale;
    if i < b.len() {
        Some(b[i])
    } else {
        None
    }
}

/// What a text stands for at `scale` decimal places when it is rounded half
/// up: one unit in the last place more than what it stands for when the
/// digits beyond the scale are dropped, if the first of those is five or
/// more.
pub open spec fn rounded_text(s: Seq<u8>, scale: nat, limit: int) -> Result<
    Value,
    ParseNumberError,
> {
    match parse_text(s, scale, limit) {
        Err(e) => Err(e),
        Ok(v) => match next_digit(s, scale) {
            Some(d) => if d >= 53 {
                Ok(add_value(v, Value::Finite(1), limit))
            } else {
                Ok(v)
            },
            None => Ok(v),
        },
    }
}

/// What a text stands for when a count that does not fit is taken for the
/// infinity of the text's sign.
pub open spec fn saturated_text(s: Seq<u8>, scale: nat, limit: int) -> Result<
    Value,
    ParseNumberError,
> {
    match parse_text(s, scale, limit) {
        Err(ParseNumberError::Overflow) => Ok(signed_infinity(s[0] == CHAR_MINUS)),
        r => r,
    }
}

impl<U: NumberUnit, const N: usize, const SCALE: usize> Fdec<U, N, SCALE> {
    /// The number that the text `s`, given by its bytes, stands for, with
    /// half-up rounding to the type scale.
    pub fn parse_rounded(s: &[u8]) -> (r: Result<Self, ParseNumberError>)
        requires
            Self::valid_params(),
        ensures
            match r {
                Ok(v) => v.wf() && rounded_text(s@, SCALE as nat, Self::limit()) == Ok::<
                    Value,
                    ParseNumberError,
                >(v@),
                Err(e) => rounded_text(s@, SCALE as nat, Self::limit()) == Err::<
                    Value,
                    ParseNumberError,
                >(e),
            },
    {
        let result = match Self::parse_bytes(s) {
            Ok(v) => v,
            Err(e) => {
                return Err(e);
            },
        };
        let len = s.len();
        let start: usize = if len > 0 && (s[0] == CHAR_MINUS || s[0] == CHAR_PLUS) {
            1
        } else {
            0
        };
        let ghost b = body_of(s@);
        proof {
            assert(b =~= s@.skip(start as int));
        }
        // Find the point
        let mut p: usize = start;
        while p < len && s[p] != CHAR_POINT
            invariant
                start <= p <= len,
                len == s@.len(),
                b == s@.skip(start as int),
                forall|i: int| 0 <= i < p - start ==> #[trigger] b[i] != CHAR_POINT,
            decreases len - p,
        {
            p += 1;
        }
        proof {
            lemma_point_at(b, p - start);
        }
        // If the next digit is >= 5, round the number up
        if len - p > 1 && SCALE < len - p - 1 {
            let next = s[p + 1 + SCALE];
            if next >= 53 {
                return Ok(result + Self::ulp());
            }
        }
        Ok(result)
    }

    /// The number that the text `s`, given by its bytes, stands for, or the
    /// infinity of the text's sign if the number does not fit.
    pub fn parse_or_infinity(s: &[u8]) -> (r: Result<Self, ParseNumberError>)
        requires
            Self::valid_params(),
        ensures
            match r {
                Ok(v) => v.wf() && saturated_text(s@, SCALE as nat, Self::limit()) == Ok::<
                    Value,
                    ParseNumberError,
                >(v@),
                Err(e) => saturated_text(s@, SCALE as nat, Self::limit()) == Err::<
                    Value,
                    ParseNumberError,
                >(e),
            },
    {
        match Self::parse_bytes(s) {
            Ok(n) => Ok(n),
            Err(ParseNumberError::Overflow) => {
                let neg = s.len() > 0 && s[0] == CHAR_MINUS;
                Ok(Self::signed_inf(neg))
            },
            Err(ParseNumberError::InvalidFormat) => Err(ParseNumberError::InvalidFormat),
        }
    }
}

} // verus!
