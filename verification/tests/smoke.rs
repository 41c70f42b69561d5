use fdec::number::Fdec;

type Decimal = Fdec<u32, 5, 25>;
type Small = Fdec<u8, 2, 4>;

#[test]
fn test_smoke_arithmetic() {
    let one = Decimal::one();
    let two = one + one;
    let three = two + one;
    assert!(two * three == three + three);
    assert!((three + three) / two == three);
    assert!(three - two == one);
    assert!((three % two) == one);
    assert!(one < two);
    assert!(Decimal::nan() != Decimal::nan());
    assert!((Decimal::max() + Decimal::ulp()).is_infinite());
}

#[test]
fn test_division_with_shifted_dividend_overflow() {
    // 6.5535 / 0.0256 does not fit two 8-bit units at four decimal places
    let a = Small::max();
    let b = Small::new(false, [0, 1]);
    let q = a / b;
    assert!(q.is_infinite());
    assert!(q.is_sign_positive());
}

#[test]
fn test_smoke_text() {
    assert_eq!(
        Decimal::max().to_string(),
        "146150163733090291820368.4832716283019655932542975"
    );
    assert_eq!(Decimal::zero().to_string(), "0");
    assert_eq!(Decimal::ulp().to_string(), "0.0000000000000000000000001");
    assert_eq!(Decimal::one().to_string(), "1");
    assert_eq!(Decimal::nan().to_string(), "NaN");
    assert_eq!(Decimal::neg_infinity().to_string(), "-Infinity");
    let v = Decimal::from_str("-0012.3400").unwrap();
    assert_eq!(v.to_string(), "-12.34");
    assert!(Decimal::from_str("146150163733090291820368.4832716283019655932542975").unwrap() == Decimal::max());
    assert!(Decimal::from_str("146150163733090291820368.4832716283019655932542976").is_err());
    assert!(Decimal::from_str("0.75").unwrap() * Decimal::from_str("4").unwrap() == Decimal::from_str("3").unwrap());
    assert!(Decimal::from_str("").is_err());
    assert!(Decimal::from_str(".").is_err());
    assert!(Decimal::from_str("+").is_err());
    assert!(Decimal::from_str("1a").is_err());
    assert_eq!(Decimal::from_str("5.").unwrap().to_string(), "5");
    assert_eq!(Decimal::from_str(".5").unwrap().to_string(), "0.5");
    assert_eq!(Decimal::from_str("100").unwrap().to_string(), "100");
    assert_eq!(Decimal::from_str("0.00000000000000000000000019").unwrap().to_string(), "0.0000000000000000000000001");
}
