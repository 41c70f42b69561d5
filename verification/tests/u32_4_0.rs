use fdec::{Fdec, FromBytesError, ParseNumberError, WithScale};
use std::str::FromStr;

type Int = Fdec<u32, 4, 0>;

/// Euler's number (e), rounded half up to the scale of the type.
fn e() -> Int {
    Int::parse_rounded("2.71828182845904523536028747135266249775724709369995".as_bytes()).unwrap()
}

/// Archimedes' constant (pi), rounded half up to the scale of the type.
fn pi() -> Int {
    Int::parse_rounded("3.14159265358979323846264338327950288419716939937510".as_bytes()).unwrap()
}

#[test]
fn u32_4_0_test_const() {
    assert_eq!(Int::zero(), Int::from(0));
    assert_eq!(Int::ulp(), Int::from(1));
    assert_eq!(Int::one(), Int::from(1));
    assert_eq!(
        Int::max(),
        Int::from_str("340282366920938463463374607431768211455").unwrap()
    );
    assert_eq!(
        Int::min(),
        Int::from_str("-340282366920938463463374607431768211455").unwrap()
    );
}

#[test]
fn u32_4_0_test_constants() {
    assert_eq!(e(), Int::from(3));
    assert_eq!(pi(), Int::from(3));
}
