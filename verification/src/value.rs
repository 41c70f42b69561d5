//! The mathematical model of a number: what a value stands for, and what the
//! arithmetic gives on the model.

use vstd::prelude::*;

verus! {

/// What a number stands for. `Finite(m)` is the number `m / 10^SCALE`: `m` is
/// the signed count of units in the last place.
pub enum Value {
    Nan,
    Infinity,
    NegInfinity,
    Finite(int),
}

impl Value {
    /// Infinity or negative infinity.
    pub open spec fn is_infinite(self) -> bool {
        self is Infinity || self is NegInfinity
    }

    /// NaN or an infinity.
    pub open spec fn is_special(self) -> bool {
        !(self is Finite)
    }

    /// Negative numbers and negative infinity.
    pub open spec fn is_negative(self) -> bool {
        match self {
            Value::NegInfinity => true,
            Value::Finite(m) => m < 0,
            _ => false,
        }
    }

    /// The number zero.
    pub open spec fn is_zero(self) -> bool {
        self == Value::Finite(0)
    }

    /// The count of units in the last place, zero for special values.
    pub open spec fn units(self) -> int {
        match self {
            Value::Finite(m) => m,
            _ => 0,
        }
    }
}

/// The infinity of the given sign.
pub open spec fn signed_infinity(negative: bool) -> Value {
    if negative {
        Value::NegInfinity
    } else {
        Value::Infinity
    }
}

/// The value of the count `m`, where magnitudes end below `limit`: finite if
/// it fits, else the infinity of its sign.
pub open spec fn bounded(m: int, limit: int) -> Value {
    if m >= limit {
        Value::Infinity
    } else if m <= -limit {
        Value::NegInfinity
    } else {
        Value::Finite(m)
    }
}

/// The absolute value of an integer.
pub open spec fn abs_int(m: int) -> int {
    if m < 0 {
        -m
    } else {
        m
    }
}

/// The quotient of `a` by `b`, rounded towards zero; `b` is positive.
pub open spec fn trunc_div(a: int, b: int) -> int {
    if a >= 0 {
        a / b
    } else {
        -((-a) / b)
    }
}

/// The value with the given sign and absolute count.
pub open spec fn signed(negative: bool, m: int) -> int {
    if negative {
        -m
    } else {
        m
    }
}

/// The opposite value; NaN stays.
pub open spec fn neg_value(a: Value) -> Value {
    match a {
        Value::Nan => Value::Nan,
        Value::Infinity => Value::NegInfinity,
        Value::NegInfinity => Value::Infinity,
        Value::Finite(m) => Value::Finite(-m),
    }
}

/// The absolute value; NaN stays.
pub open spec fn abs_value(a: Value) -> Value {
    match a {
        Value::Nan => Value::Nan,
        Value::Infinity => Value::Infinity,
        Value::NegInfinity => Value::Infinity,
        Value::Finite(m) => Value::Finite(abs_int(m)),
    }
}

/// The sum: NaN if an operand is NaN or the operands are opposite
/// infinities, an infinite operand else if there is one, else the sum of the
/// counts if it fits and the infinity of its sign if not.
pub open spec fn add_value(a: Value, b: Value, limit: int) -> Value {
    match (a, b) {
        (Value::Nan, _) => Value::Nan,
        (_, Value::Nan) => Value::Nan,
        (Value::Finite(x), Value::Finite(y)) => bounded(x + y, limit),
        (Value::Finite(_), _) => b,
        (_, Value::Finite(_)) => a,
        _ => if a == b {
            a
        } else {
            Value::Nan
        },
    }
}

/// The difference: the sum with the opposite of the second operand.
pub open spec fn sub_value(a: Value, b: Value, limit: int) -> Value {
    add_value(a, neg_value(b), limit)
}

/// The product: NaN if an operand is NaN, or one is infinite and the other
/// zero; infinite with the product of the signs if an operand is infinite;
/// else the product of the counts over `one` (ten to the scale), rounded
/// towards zero, if it fits, and the infinity of its sign if not.
pub open spec fn mul_value(a: Value, b: Value, limit: int, one: int) -> Value {
    match (a, b) {
        (Value::Nan, _) => Value::Nan,
        (_, Value::Nan) => Value::Nan,
        (Value::Finite(x), Value::Finite(y)) => bounded(trunc_div(x * y, one), limit),
        _ => if a.is_zero() || b.is_zero() {
            Value::Nan
        } else {
            signed_infinity(a.is_negative() != b.is_negative())
        },
    }
}

/// The quotient. A special dividend gives NaN if the divisor is special too
/// and itself else; a finite dividend gives NaN by NaN and zero by an
/// infinity; zero by zero is NaN, and another number by zero is the infinity
/// of the dividend's sign. Else the quotient of the counts, scaled by `one`
/// and rounded towards zero, if it fits, and the infinity of its sign if not.
pub open spec fn div_value(a: Value, b: Value, limit: int, one: int) -> Value {
    match (a, b) {
        (Value::Nan, _) => Value::Nan,
        (Value::Finite(x), Value::Finite(y)) => if y == 0 {
            if x == 0 {
                Value::Nan
            } else {
                signed_infinity(x < 0)
            }
        } else {
            bounded(signed((x < 0) != (y < 0), (abs_int(x) * one) / abs_int(y)), limit)
        },
        (Value::Finite(_), Value::Nan) => Value::Nan,
        (Value::Finite(_), _) => Value::Finite(0),
        (_, Value::Finite(_)) => a,
        _ => Value::Nan,
    }
}

/// The remainder. NaN if the dividend is special, the divisor NaN or the
/// divisor zero; the dividend itself by an infinity. Else, where the whole
/// part of the quotient, as a count, fits, the dividend less that part times
/// the divisor, which has the dividend's sign; and where it does not fit,
/// the infinity with the sign of the quotient.
pub open spec fn rem_value(a: Value, b: Value, limit: int, one: int) -> Value {
    match (a, b) {
        (Value::Finite(x), Value::Finite(y)) => if y == 0 {
            Value::Nan
        } else if (abs_int(x) / abs_int(y)) * one >= limit {
            signed_infinity((x < 0) != (y < 0))
        } else {
            Value::Finite(signed(x < 0, abs_int(x) % abs_int(y)))
        },
        (Value::Finite(_), Value::Nan) => Value::Nan,
        (Value::Finite(_), _) => a,
        _ => Value::Nan,
    }
}

/// The value shifted right by `k` bits: the count over two to the `k`,
/// rounded towards zero. Special values stay.
pub open spec fn shr_value(a: Value, k: nat) -> Value {
    match a {
        Value::Finite(m) => Value::Finite(trunc_div(m, vstd::arithmetic::power2::pow2(k) as int)),
        _ => a,
    }
}

/// The value shifted left by `k` bits: the count times two to the `k` if it
/// fits, the infinity of its sign if not. Special values stay.
pub open spec fn shl_value(a: Value, k: nat, limit: int) -> Value {
    match a {
        Value::Finite(m) => bounded(m * vstd::arithmetic::power2::pow2(k), limit),
        _ => a,
    }
}

/// Equality of numbers: NaN equals nothing, not even itself.
pub open spec fn eq_value(a: Value, b: Value) -> bool {
    !(a is Nan) && a == b
}

/// Whether `a` is less than `b`: false if either is NaN; negative infinity
/// is least and infinity greatest.
pub open spec fn lt_value(a: Value, b: Value) -> bool {
    match (a, b) {
        (Value::Nan, _) => false,
        (_, Value::Nan) => false,
        (Value::NegInfinity, _) => !(b is NegInfinity),
        (_, Value::Infinity) => !(a is Infinity),
        (Value::Finite(x), Value::Finite(y)) => x < y,
        _ => false,
    }
}

} // verus!
