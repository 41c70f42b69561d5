//! Numbers from and to bytes: one byte of flags and the units of the
//! magnitude, in little-endian or big-endian order.

use vstd::prelude::*;
use vstd::arithmetic::power2::{pow2, lemma_pow2_adds, lemma_pow2_pos, lemma2_to64};
use vstd::arithmetic::div_mod::{
    lemma_fundamental_div_mod_converse, lemma_div_denominator, lemma_small_mod,
    lemma_mod_breakdown,
};
use crate::units::{NumberUnit, PrimNumber, base, base_pow, mag_value};
use crate::shift::{lemma_base_pow_is_pow2, lemma_pow2_monotonic};
use crate::number::{Fdec, FLAG_NEGATIVE, FLAG_NAN, FLAG_INFINITY};
use crate::value::{Value, signed, signed_infinity};

verus! {

/// Represents errors that can be produces when byte arrays are converted to numbers.
#[derive(PartialEq, Eq, Debug, Clone, Copy, Structural)]
pub enum FromBytesError {
    /// Flags-byte has invalid value.
    InvalidFlags,
}

/// The byte of the number `u` at the place `k`, the lowest place being 0.
pub open spec fn unit_byte(u: nat, k: nat) -> u8 {
    ((u / pow2(8 * k)) % 256) as u8
}

/// The number of bytes of a unit.
pub open spec fn unit_width<U: NumberUnit>() -> nat {
    U::bit_width() / 8
}

/// The little-endian bytes of a number: the bytes of each unit from the
/// lowest unit on, the lowest byte first, and then the byte of flags.
pub open spec fn encode_le<U: NumberUnit>(flags: u8, mag: Seq<U>) -> Seq<u8> {
    Seq::new(
        mag.len() * unit_width::<U>() + 1,
        |j: int|
            if j < mag.len() * unit_width::<U>() {
                unit_byte(
                    mag[j / (unit_width::<U>() as int)].to_nat(),
                    (j % (unit_width::<U>() as int)) as nat,
                )
            } else {
                flags
            },
    )
}

/// The big-endian bytes of a number: the byte of flags, then the bytes of
/// each unit from the highest unit on, the highest byte first.
pub open spec fn encode_be<U: NumberUnit>(flags: u8, mag: Seq<U>) -> Seq<u8> {
    encode_le(flags, mag).reverse()
}

/// The number that little-endian bytes stand for.
pub open spec fn bytes_value(s: Seq<u8>) -> nat
    decreases s.len(),
{
    if s.len() == 0 {
        0
    } else {
        s[0] as nat + 256 * bytes_value(s.skip(1))
    }
}

/// A byte of flags is valid if no bit but those of the three flags is set,
/// and the flags of NaN and of infinity are not both set.
pub open spec fn valid_flags(f: u8) -> bool {
    f & !(FLAG_NEGATIVE | FLAG_NAN | FLAG_INFINITY) == 0 && !(f & FLAG_NAN != 0 && f & FLAG_INFINITY
        != 0)
}

/// The value given by valid flags and the count `m` of a magnitude.
pub open spec fn flagged_value(f: u8, m: nat) -> Value {
    if f & FLAG_NAN != 0 {
        Value::Nan
    } else if f & FLAG_INFINITY != 0 {
        signed_infinity(f & FLAG_NEGATIVE != 0)
    } else {
        Value::Finite(signed(f & FLAG_NEGATIVE != 0, m as int))
    }
}

/// What little-endian bytes stand for: the last byte holds the flags and
/// the bytes before it the magnitude.
pub open spec fn decode_le(bytes: Seq<u8>) -> Result<Value, FromBytesError> {
    if !valid_flags(bytes.last()) {
        Err(FromBytesError::InvalidFlags)
    } else {
        Ok(flagged_value(bytes.last(), bytes_value(bytes.drop_last())))
    }
}

/// What big-endian bytes stand for: the first byte holds the flags and the
/// bytes after it the magnitude.
pub open spec fn decode_be(bytes: Seq<u8>) -> Result<Value, FromBytesError> {
    decode_le(bytes.reverse())
}

/// The valid flags are the numbers up to five, and what their bits say.
pub proof fn lemma_flags(f: u8)
    ensures
        valid_flags(f) <==> f <= 5,
        f <= 5 ==> (f & FLAG_NAN != 0 <==> (f == 2 || f == 3)),
        f <= 5 ==> (f & FLAG_INFINITY != 0 <==> (f == 4 || f == 5)),
        f <= 5 ==> (f & FLAG_NEGATIVE != 0 <==> (f == 1 || f == 3 || f == 5)),
{
    assert((f & !(1u8 | 2u8 | 4u8) == 0 && !(f & 2u8 != 0 && f & 4u8 != 0)) <==> f <= 5)
        by (bit_vector);
    assert(f <= 5 ==> (f & 2u8 != 0 <==> (f == 2 || f == 3))) by (bit_vector);
    assert(f <= 5 ==> (f & 4u8 != 0 <==> (f == 4 || f == 5))) by (bit_vector);
    assert(f <= 5 ==> (f & 1u8 != 0 <==> (f == 1 || f == 3 || f == 5))) by (bit_vector);
}

/// The value of bytes after more bytes.
pub proof fn lemma_bytes_concat(a: Seq<u8>, b: Seq<u8>)
    ensures
        bytes_value(a + b) == bytes_value(a) + pow2(8 * a.len()) * bytes_value(b),
    decreases a.len(),
{
    lemma2_to64();
    if a.len() == 0 {
        assert(a + b =~= b);
        assert(8 * a.len() == 0);
        assert(1 * bytes_value(b) == bytes_value(b));
    } else {
        lemma_bytes_concat(a.skip(1), b);
        assert((a + b).skip(1) =~= a.skip(1) + b);
        lemma_pow2_adds(8, 8 * ((a.len() - 1) as nat));
        assert(8 + 8 * ((a.len() - 1) as nat) == 8 * a.len());
        let x = bytes_value(a.skip(1)) as int;
        let y = bytes_value(b) as int;
        let p = pow2(8 * ((a.len() - 1) as nat)) as int;
        assert(256 * (x + p * y) == 256 * x + (256 * p) * y) by (nonlinear_arith);
    }
}

/// The `w` lowest bytes of a number stand for its remainder by two to the
/// number of their bits.
pub proof fn lemma_unit_bytes_value(u: nat, w: nat)
    ensures
        bytes_value(Seq::new(w, |k: int| unit_byte(u, k as nat))) == u % pow2(8 * w),
    decreases w,
{
    lemma2_to64();
    let s = Seq::new(w, |k: int| unit_byte(u, k as nat));
    if w == 0 {
        assert(8 * w == 0);
        assert(u % 1 == 0);
    } else {
        let t = Seq::new((w - 1) as nat, |k: int| unit_byte(u / 256, k as nat));
        lemma_unit_bytes_value(u / 256, (w - 1) as nat);
        assert forall|k: int| 0 <= k < w - 1 implies s.skip(1)[k] == t[k] by {
            lemma_pow2_adds(8, 8 * (k as nat));
            assert(8 + 8 * (k as nat) == 8 * ((k + 1) as nat));
            lemma_pow2_pos(8 * (k as nat));
            lemma_div_denominator(u as int, 256, pow2(8 * (k as nat)) as int);
        }
        assert(s.skip(1) =~= t);
        assert(s[0] == unit_byte(u, 0));
        assert(8 * 0 == 0);
        assert(u / 1 == u);
        lemma_pow2_adds(8, 8 * ((w - 1) as nat));
        assert(8 + 8 * ((w - 1) as nat) == 8 * w);
        lemma_pow2_pos(8 * ((w - 1) as nat));
        lemma_mod_breakdown(u as int, 256, pow2(8 * ((w - 1) as nat)) as int);
    }
}

/// The width of a unit in bytes, and the radix as a power of two.
pub proof fn lemma_unit_width<U: NumberUnit>()
    ensures
        1 <= unit_width::<U>() <= 8,
        8 * unit_width::<U>() == U::bit_width(),
        base::<U>() == pow2(8 * unit_width::<U>()),
{
    U::lemma_width();
    U::lemma_unit();
}

/// Result of converting a byte to flags.
pub enum FlagsByteValue<U: NumberUnit, const N: usize, const SCALE: usize> {
    /// Flags byte contains a special value flag
    Special(Fdec<U, N, SCALE>),
    /// Negative-flag value for a simple number value
    Simple(bool),
}

impl<U: NumberUnit, const N: usize, const SCALE: usize> Fdec<U, N, SCALE> {
    /// Reads a byte of flags: a special value, or the sign of a number;
    /// an error if a bit that is no flag is set, or the flags of NaN and of
    /// infinity both are.
    pub fn process_flags_byte(byte: u8) -> (r: Result<FlagsByteValue<U, N, SCALE>, FromBytesError>)
        ensures
            r is Err <==> !valid_flags(byte),
            r matches Ok(FlagsByteValue::Special(sv)) ==> sv.wf() && (byte & FLAG_NAN != 0 || byte
                & FLAG_INFINITY != 0) && sv@ == flagged_value(byte, 0),
            r matches Ok(FlagsByteValue::Simple(neg)) ==> byte & FLAG_NAN == 0 && byte
                & FLAG_INFINITY == 0 && neg == (byte & FLAG_NEGATIVE != 0),
    {
        let flags = byte;
        let nan = flags & FLAG_NAN != 0;
        let infinite = flags & FLAG_INFINITY != 0;
        if nan && infinite {
            return Err(FromBytesError::InvalidFlags);
        }
        if flags & !FLAG_NEGATIVE & !FLAG_INFINITY & !FLAG_NAN != 0 {
            proof {
                assert(flags & !1u8 & !4u8 & !2u8 == flags & !(1u8 | 2u8 | 4u8)) by (bit_vector);
            }
            // Some unsupported flags are filled
            return Err(FromBytesError::InvalidFlags);
        }
        proof {
            assert(flags & !1u8 & !4u8 & !2u8 == flags & !(1u8 | 2u8 | 4u8)) by (bit_vector);
        }
        if nan {
            return Ok(FlagsByteValue::Special(Self::nan()));
        }
        let neg = flags & FLAG_NEGATIVE != 0;
        if infinite {
            return Ok(FlagsByteValue::Special(Self::signed_inf(neg)));
        }
        Ok(FlagsByteValue::Simple(neg))
    }

    /// Returns the memory representation of this number as a byte array in
    /// little-endian byte order.
    pub fn to_le_bytes(self) -> (r: Vec<u8>)
        ensures
            r@ == encode_le(self.flag_bits(), self.units_seq()),
    {
        proof {
            self.lemma_repr();
            lemma_unit_width::<U>();
        }
        let w: usize = U::bits() / 8;
        let ghost goal = encode_le(self.flags, self.magnitude@);
        let mut bytes: Vec<u8> = Vec::new();
        let mut i: usize = 0;
        while i < N
            invariant
                i <= N,
                w == unit_width::<U>(),
                1 <= w <= 8,
                goal == encode_le(self.flags, self.magnitude@),
                goal.len() == N * w + 1,
                bytes@.len() == i * w,
                forall|j: int| 0 <= j < bytes@.len() ==> bytes@[j] == goal[j],
            decreases N - i,
        {
            let mut x: u128 = self.magnitude[i].widen();
            let ghost u = self.magnitude@[i as int].to_nat();
            let mut k: usize = 0;
            proof {
                lemma2_to64();
                assert(8 * 0 == 0);
                assert(u / 1 == u);
                assert(i * w + w <= N * w) by (nonlinear_arith)
                    requires
                        i < N,
                        w >= 1,
                ;
            }
            while k < w
                invariant
                    k <= w,
                    i < N,
                    w == unit_width::<U>(),
                    1 <= w <= 8,
                    u == self.magnitude@[i as int].to_nat(),
                    x == u / pow2(8 * (k as nat)),
                    goal == encode_le(self.flags, self.magnitude@),
                    goal.len() == N * w + 1,
                    i * w + w <= N * w,
                    bytes@.len() == i * w + k,
                    forall|j: int| 0 <= j < bytes@.len() ==> bytes@[j] == goal[j],
                decreases w - k,
            {
                proof {
                    let j = i * w + k;
                    lemma_fundamental_div_mod_converse(j as int, w as int, i as int, k as int);
                    lemma_pow2_adds(8 * (k as nat), 8);
                    lemma_pow2_pos(8 * (k as nat));
                    lemma2_to64();
                    lemma_div_denominator(u as int, pow2(8 * (k as nat)) as int, 256);
                    assert(8 * (k as nat) + 8 == 8 * ((k + 1) as nat));
                }
                bytes.push((x % 256) as u8);
                x = x / 256;
                k += 1;
            }
            proof {
                assert(i * w + w == (i + 1) * w) by (nonlinear_arith);
            }
            i += 1;
        }
        bytes.push(self.flags);
        proof {
            assert(bytes@ =~= goal);
        }
        bytes
    }

    /// Returns the memory representation of this number as a byte array in
    /// big-endian (network) byte order.
    pub fn to_be_bytes(self) -> (r: Vec<u8>)
        ensures
            r@ == encode_be(self.flag_bits(), self.units_seq()),
    {
        let le = self.to_le_bytes();
        reversed(&le)
    }

    /// Creates a number from its representation as a byte array in
    /// little-endian order.
    pub fn from_le_bytes(bytes: &[u8]) -> (r: Result<Self, FromBytesError>)
        requires
            bytes@.len() == N * unit_width::<U>() + 1,
        ensures
            match r {
                Ok(v) => v.wf() && decode_le(bytes@) == Ok::<Value, FromBytesError>(v@),
                Err(e) => decode_le(bytes@) == Err::<Value, FromBytesError>(e),
            },
    {
        proof {
            lemma_unit_width::<U>();
        }
        let w: usize = U::bits() / 8;
        let len = bytes.len();
        let neg: bool = match Self::process_flags_byte(bytes[len - 1]) {
            Err(e) => {
                return Err(e);
            },
            Ok(FlagsByteValue::Special(sv)) => {
                return Ok(sv);
            },
            Ok(FlagsByteValue::Simple(neg)) => neg,
        };
        let ghost body = bytes@.drop_last();
        let mut magnitude = Self::zero_magnitude();
        let mut i: usize = 0;
        proof {
            assert(magnitude@.take(0) =~= Seq::<U>::empty());
            assert(body.take(0) =~= Seq::<u8>::empty());
            assert(mag_value(Seq::<U>::empty()) == 0);
        }
        while i < N
            invariant
                i <= N,
                w == unit_width::<U>(),
                1 <= w <= 8,
                8 * w == U::bit_width(),
                base::<U>() == pow2(8 * (w as nat)),
                len == N * w + 1,
                len == bytes@.len(),
                body == bytes@.drop_last(),
                mag_value(magnitude@.take(i as int)) == bytes_value(body.take(i * w)),
            decreases N - i,
        {
            let mut x: u128 = 0;
            let mut k: usize = w;
            proof {
                assert(i * w + w <= N * w) by (nonlinear_arith)
                    requires
                        i < N,
                        w >= 1,
                ;
                assert(body.subrange(i * w + w, i * w + w) =~= Seq::<u8>::empty());
                lemma2_to64();
                assert(8 * 0 == 0);
            }
            while k > 0
                invariant
                    k <= w,
                    i < N,
                    1 <= w <= 8,
                    i * w + w <= N * w,
                    len == N * w + 1,
                    len == bytes@.len(),
                    body == bytes@.drop_last(),
                    x == bytes_value(body.subrange(i * w + k, i * w + w)),
                    x < pow2(8 * ((w - k) as nat)),
                decreases k,
            {
                k -= 1;
                proof {
                    let cur = body.subrange(i * w + k, i * w + w);
                    assert(cur.skip(1) =~= body.subrange(i * w + k + 1, i * w + w));
                    assert(cur[0] == bytes@[i * w + k]);
                    lemma_pow2_adds(8, 8 * ((w - k - 1) as nat));
                    assert(8 + 8 * ((w - k - 1) as nat) == 8 * ((w - k) as nat));
                    lemma_pow2_monotonic(8 * ((w - k) as nat), 64);
                    lemma2_to64();
                }
                x = x * 256 + bytes[i * w + k] as u128;
            }
            let unit: U = U::narrow(x);
            let ghost prev = magnitude@;
            magnitude[i] = unit;
            proof {
                lemma_small_mod(x as nat, base::<U>());
                crate::magnitude::lemma_update_step(prev, i as int, unit);
                let chunk = body.subrange(i * w as int, i * w + w);
                assert(body.take(i * w + w) =~= body.take(i * w as int) + chunk);
                lemma_bytes_concat(body.take(i * w as int), chunk);
                lemma_base_pow_is_pow2::<U>(i as nat);
                assert(U::bit_width() * (i as nat) == 8 * (i * w)) by (nonlinear_arith)
                    requires
                        8 * w == U::bit_width(),
                ;
                assert(i * w + w == (i + 1) * w) by (nonlinear_arith);
                let p = base_pow::<U>(i as nat) as int;
                assert(x * p == p * x) by (nonlinear_arith);
            }
            i += 1;
        }
        proof {
            assert(magnitude@.take(N as int) =~= magnitude@);
            assert(body.take(N * w as int) =~= body);
        }
        Ok(Self::with_sign(neg, magnitude))
    }

    /// Creates a number from its representation as a byte array in
    /// big-endian order.
    pub fn from_be_bytes(bytes: &[u8]) -> (r: Result<Self, FromBytesError>)
        requires
            bytes@.len() == N * unit_width::<U>() + 1,
        ensures
            match r {
                Ok(v) => v.wf() && decode_be(bytes@) == Ok::<Value, FromBytesError>(v@),
                Err(e) => decode_be(bytes@) == Err::<Value, FromBytesError>(e),
            },
    {
        let le = reversed_slice(bytes);
        Self::from_le_bytes(le.as_slice())
    }
}

/// The bytes in the opposite order.
pub fn reversed(v: &Vec<u8>) -> (r: Vec<u8>)
    ensures
        r@ == v@.reverse(),
{
    reversed_slice(v.as_slice())
}

/// The bytes in the opposite order.
pub fn reversed_slice(v: &[u8]) -> (r: Vec<u8>)
    ensures
        r@ == v@.reverse(),
{
    let mut r: Vec<u8> = Vec::new();
    let len = v.len();
    let mut i: usize = len;
    while i > 0
        invariant
            i <= len,
            len == v@.len(),
            r@.len() == len - i,
            forall|j: int| 0 <= j < r@.len() ==> r@[j] == v@[len - 1 - j],
        decreases i,
    {
        i -= 1;
        r.push(v[i]);
    }
    proof {
        assert(r@ =~= v@.reverse());
    }
    r
}

} // verus!
