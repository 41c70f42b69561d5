use fdec::bytes::reversed;
use fdec::division::{divide, estimate_digit, normalization_factor, DivProduct};
use fdec::format::to_digits;
use fdec::magnitude::{
    add_magnitude, add_unit, compare_magnitudes, divide_by_unit, multiply_by_unit,
    sub_from_greater, MagnitudeOrder,
};
use fdec::parse::{get_unit, preparse};
use fdec::wide::{multiply, Wide};
use fdec::{
    big_unit, div_rem_digit, div_wide, is_magnitude_zero, normalize_digits, weight, Fdec,
    FromBytesError, Number, NumberUnit, ParseNumberError, PrimNumber, StrInfo, WithScale,
};
use std::cmp::Ordering;

type Decimal = Fdec<u32, 5, 25>;
type Tiny = Fdec<u8, 2, 4>;
type Short = Fdec<u16, 1, 3>;
type Long = Fdec<u64, 3, 30>;

fn dec(s: &str) -> Decimal {
    Decimal::from_str(s).unwrap()
}

fn samples() -> Vec<Decimal> {
    vec![
        Decimal::zero(),
        Decimal::ulp(),
        Decimal::one(),
        Decimal::max(),
        Decimal::min(),
        dec("-12.5"),
        dec("3.0000000000000000000000001"),
        dec("98765432109876543210.0123456789"),
        dec("-0.001"),
    ]
}

fn specials() -> Vec<Decimal> {
    vec![Decimal::nan(), Decimal::infinity(), Decimal::neg_infinity()]
}

fn same(a: Decimal, b: Decimal) -> bool {
    (a.is_nan() && b.is_nan()) || a == b
}

#[test]
fn test_units_primitives() {
    assert_eq!(<u8 as PrimNumber>::bits(), 8);
    assert_eq!(<u64 as PrimNumber>::bits(), 64);
    assert_eq!(<u16 as PrimNumber>::zero(), 0);
    assert_eq!(<u32 as PrimNumber>::ten(), 10);
    assert_eq!(<u16 as PrimNumber>::narrow(0x12345), 0x2345);
    assert_eq!(0xABCD_u16.widen(), 0xABCD_u128);
    assert_eq!(<u8 as NumberUnit>::hi(0xABCD), 0xAB);
    assert_eq!(<u8 as NumberUnit>::lo(0xABCD), 0xCD);
    assert_eq!(<u32 as NumberUnit>::hi(0x1234_5678_9ABC_DEF0), 0x1234_5678);
    assert_eq!(<u32 as NumberUnit>::lo(0x1234_5678_9ABC_DEF0), 0x9ABC_DEF0);
    assert_eq!(<u8 as NumberUnit>::unit_base(), 100);
    assert_eq!(<u16 as NumberUnit>::unit_base(), 10_000);
    assert_eq!(<u32 as NumberUnit>::unit_base(), 1_000_000_000);
    assert_eq!(<u64 as NumberUnit>::unit_base(), 10_000_000_000_000_000_000);
    assert_eq!(<u64 as NumberUnit>::unit_base_power(), 19);
    assert_eq!(<u64 as NumberUnit>::radix(), 1u128 << 64);
    assert_eq!(big_unit(0x12u8, 0x34u8), 0x1234u16);
    assert_eq!(big_unit(u64::MAX, 1u64), (u128::MAX << 64) | 1);
}

#[test]
fn test_units_sequences() {
    assert!(is_magnitude_zero(&[0u16, 0, 0]));
    assert!(!is_magnitude_zero(&[0u16, 0, 4]));
    assert_eq!(weight::<u32>(&[]), 0);
    assert_eq!(weight(&[0u32, 0, 0]), 0);
    assert_eq!(weight(&[7u32, 0, 0]), 1);
    assert_eq!(weight(&[0u32, 7, 0]), 2);
    assert_eq!(weight(&[0u32, 0, 7]), 3);
    let mut v = vec![1u8, 0, 2, 0, 0];
    normalize_digits(&mut v);
    assert_eq!(v, vec![1, 0, 2]);
    let mut z = vec![0u8, 0];
    normalize_digits(&mut z);
    assert!(z.is_empty());
    assert_eq!(div_wide(1u8, 0u8, 3u8), (85, 1));
    assert_eq!(div_wide(9u16, 9999u16, 10u16), (59982, 3));
    // 0x01_00_05 = 65541 = 7 * 9363
    assert_eq!(div_rem_digit(vec![5u8, 0, 1], 7), (vec![0x93, 0x24], 0));
    assert_eq!(div_rem_digit(vec![5u8, 0, 1], 100), (vec![0x8F, 0x02], 41));
    assert_eq!(div_rem_digit(vec![3u16, 0, 0], 5), (vec![], 3));
}

#[test]
fn test_magnitude_arithmetic() {
    let mut a = [0xFFu8, 0xFF, 0x01];
    assert_eq!(add_magnitude(&mut a, &[0x01, 0x00, 0x00]), 0);
    assert_eq!(a, [0x00, 0x00, 0x02]);
    let mut b = [0xFFu8, 0xFF, 0xFF];
    assert_eq!(add_magnitude(&mut b, &[0x02, 0x00, 0x00]), 1);
    assert_eq!(b, [0x01, 0x00, 0x00]);
    let mut c = [0x00u8, 0x00, 0x02];
    sub_from_greater(&mut c, &[0x01, 0x00, 0x00]);
    assert_eq!(c, [0xFF, 0xFF, 0x01]);
    let mut d = [0x34u8, 0x12];
    assert_eq!(multiply_by_unit(&mut d, 0x10), 0x01);
    assert_eq!(d, [0x40, 0x23]);
    let mut e = [0xFFu8, 0xFF];
    assert_eq!(add_unit(&mut e, 2), 1);
    assert_eq!(e, [0x01, 0x00]);
    let mut f = [0xE8u32, 3];
    // 3 * 2^32 + 232 = 12884902120
    assert_eq!(divide_by_unit(&mut f, 1000), 120);
    assert_eq!(f, [12884902, 0]);
    assert_eq!(compare_magnitudes(&[1u8, 2], &[2u8, 1]), MagnitudeOrder::Greater);
    assert_eq!(compare_magnitudes(&[2u8, 1], &[1u8, 2]), MagnitudeOrder::Less);
    assert_eq!(compare_magnitudes(&[2u8, 1], &[2u8, 1]), MagnitudeOrder::Equal);
}

#[test]
fn test_wide_multiply() {
    let w: Wide<u8, 2> = multiply(&[0xFF, 0xFF], &[0xFF, 0xFF]);
    // 65535^2 = 0xFFFE0001
    assert_eq!((w.lo, w.hi, w.top), ([0x01, 0x00], [0xFE, 0xFF], 0));
    assert_eq!(w.weight(), 4);
    assert_eq!(w.get(2), 0xFE);
    let z: Wide<u8, 2> = multiply(&[0x00, 0x00], &[0xFF, 0xFF]);
    assert_eq!(z.weight(), 0);
    let mut s: Wide<u8, 2> = Wide::from_low(&[0x10, 0x20]);
    s.set(4, 9);
    assert_eq!((s.lo, s.hi, s.top), ([0x10, 0x20], [0, 0], 9));
    assert_eq!(s.low(), [0x10, 0x20]);
    assert_eq!(s.multiply_by_unit(0x02), 0);
    assert_eq!((s.lo, s.hi, s.top), ([0x20, 0x40], [0, 0], 18));
    assert_eq!(s.divide_by_unit(0x20), 0);
    assert_eq!((s.lo, s.hi, s.top), ([0x01, 0x02], [0, 0x90], 0));
    s.add_unit_at(1, 0xFF);
    assert_eq!((s.lo, s.hi, s.top), ([0x01, 0x01], [1, 0x90], 0));
}

fn quotient<const N: usize>(dividend: &Wide<u8, N>, divisor: &[u8; N]) -> (Wide<u8, N>, [u8; N]) {
    match divide(dividend, divisor) {
        DivProduct::Normal { quot, rem } => (quot, rem),
        DivProduct::Infinity => panic!("a quotient expected"),
    }
}

#[test]
fn test_divide_paths() {
    // a dividend of zero
    let (q, r) = quotient(&Wide::<u8, 2>::zero(), &[3, 1]);
    assert_eq!((q.weight(), r), (0, [0, 0]));
    // a divisor of one unit
    let d = Wide { lo: [0x39u8, 0x30], hi: [0x01, 0x00], top: 0 };
    // 0x013039 = 77881 by 7: 11125 rest 6
    let (q, r) = quotient(&d, &[7, 0]);
    assert_eq!((q.lo, q.hi, q.top, r), ([0x75, 0x2B], [0, 0], 0, [6, 0]));
    // a dividend below the divisor
    let (q, r) = quotient(&Wide::<u8, 2>::from_low(&[0xFF, 0x01]), &[0x00, 0x02]);
    assert_eq!((q.weight(), r), (0, [0xFF, 0x01]));
    // the long division: 0x270FD8F0 / 0x0300 = 853320 rest 0xF0
    let d = Wide { lo: [0xF0u8, 0xD8], hi: [0x0F, 0x27], top: 0 };
    let (q, r) = quotient(&d, &[0x00, 0x03]);
    assert_eq!((q.lo, q.hi, q.top, r), ([0x48, 0x05], [0x0D, 0], 0, [0xF0, 0x00]));
    // the estimate of a digit that has to be corrected and added back:
    // 0x7FFF_8000_0000 / 0x8000_0001 = 0xFFFE rest 0x7FFF_0002
    let d = Wide { lo: [0u8, 0, 0, 0x80], hi: [0xFF, 0x7F, 0, 0], top: 0 };
    let (q, r) = quotient(&d, &[0x01, 0x00, 0x00, 0x80]);
    assert_eq!((q.lo, q.hi, q.top), ([0xFE, 0xFF, 0, 0], [0, 0, 0, 0], 0));
    assert_eq!(r, [0x02, 0x00, 0xFF, 0x7F]);
    // a quotient that is too long
    let d = Wide { lo: [0u8, 0], hi: [0, 0], top: 1 };
    assert!(matches!(divide(&d, &[0x00, 0x02]), DivProduct::Infinity));
    assert!(matches!(divide(&d, &[0x02, 0x00]), DivProduct::Normal { .. }));
}

#[test]
fn test_division_against_wide_arithmetic() {
    // every quotient of three-unit dividends by two-unit divisors, thinned out
    let mut x: u64 = 1;
    for _ in 0..4000 {
        x = x.wrapping_mul(6364136223846793005).wrapping_add(1442695040888963407);
        let dividend = (x >> 20) & 0xFFFF_FFFF;
        let divisor = ((x >> 3) & 0xFFFF) | 0x0100;
        let bytes = dividend.to_le_bytes();
        let d = Wide { lo: [bytes[0], bytes[1]], hi: [bytes[2], bytes[3]], top: 0u8 };
        let v = [(divisor & 0xFF) as u8, (divisor >> 8) as u8];
        let (q, r) = quotient(&d, &v);
        let qv = q.lo[0] as u64
            | (q.lo[1] as u64) << 8
            | (q.hi[0] as u64) << 16
            | (q.hi[1] as u64) << 24
            | (q.top as u64) << 32;
        let rv = r[0] as u64 | (r[1] as u64) << 8;
        assert_eq!((qv, rv), (dividend / divisor, dividend % divisor));
    }
}

#[test]
fn test_division_helpers() {
    assert_eq!(normalization_factor(1u8), 128);
    assert_eq!(normalization_factor(0x80u8), 1);
    assert_eq!(normalization_factor(0x13u8), 8);
    assert_eq!(normalization_factor(0x0001u16), 0x8000);
    // the quotient of the three units by the two, capped at the highest digit
    assert_eq!(estimate_digit(256, 0x7F, 0xFF, 0x80, 0x80, 0x00), 0xFF);
    assert_eq!(estimate_digit(256, 0x12, 0x34, 0x56, 0x80, 0x01), 0x24);
    assert_eq!(estimate_digit(256, 0x80, 0x00, 0x00, 0x80, 0xFF), 0xFE);
    assert_eq!(estimate_digit(256, 0, 0, 5, 0x80, 0), 0);
}

#[test]
fn test_to_digits() {
    assert_eq!(to_digits(vec![0u16, 0]), vec![0]);
    assert_eq!(to_digits(vec![7u16]), vec![7]);
    assert_eq!(to_digits(vec![65535u16]), vec![5, 3, 5, 5, 6]);
    // 2^16 + 9 = 65545
    assert_eq!(to_digits(vec![9u16, 1, 0]), vec![5, 4, 5, 5, 6]);
    // 10^9 in units of 32 bits
    assert_eq!(to_digits(vec![1_000_000_000u32]), vec![0, 0, 0, 0, 0, 0, 0, 0, 0, 1]);
    assert_eq!(to_digits(vec![0u8, 1]), vec![6, 5, 2]);
}

fn info(s: &str, scale: usize) -> (Vec<u8>, bool, Option<usize>) {
    let si = preparse(s.as_bytes(), scale).ok().unwrap();
    (si.str().to_vec(), si.neg(), si.point())
}

#[test]
fn test_preparse() {
    assert_eq!(info("0012.3400", 5), (b"12.34".to_vec(), false, Some(2)));
    assert_eq!(info("-12.3456789", 3), (b"12.345".to_vec(), true, Some(2)));
    assert_eq!(info("+7.000", 3), (b"7".to_vec(), false, None));
    assert_eq!(info("7.", 3), (b"7".to_vec(), false, None));
    assert_eq!(info(".5", 3), (b".5".to_vec(), false, Some(0)));
    assert_eq!(info("0.05", 1), (b"".to_vec(), false, None));
    assert_eq!(info("000", 2), (b"".to_vec(), false, None));
    assert_eq!(info("100", 2), (b"100".to_vec(), false, None));
    assert_eq!(info("1.5", 0), (b"1".to_vec(), false, None));
    for bad in ["", "-", "+", ".", "-.", "1..2", "1.2.3", "1a", "a", " 1", "1 ", "--1", "1e5", "١"] {
        assert!(matches!(
            preparse(bad.as_bytes(), 4),
            Err(ParseNumberError::InvalidFormat)
        ));
    }
}

#[test]
fn test_str_info_and_chunks() {
    let si = StrInfo::new(b"12345.67", true, Some(5));
    assert_eq!(si.str(), b"12345.67");
    assert!(si.neg());
    assert_eq!(si.point(), Some(5));
    // seven digits in chunks of four: three, then four
    assert_eq!(get_unit::<u16>(&si, 0), Some((123, 3)));
    assert_eq!(get_unit::<u16>(&si, 3), Some((4567, 7)));
    assert_eq!(get_unit::<u16>(&si, 7), None);
    assert_eq!(get_unit::<u32>(&si, 0), Some((1234567, 7)));
}

#[test]
fn test_parse_errors() {
    assert_eq!(Decimal::from_str("").unwrap_err(), ParseNumberError::InvalidFormat);
    assert_eq!(Decimal::from_str(".").unwrap_err(), ParseNumberError::InvalidFormat);
    assert_eq!(Decimal::from_str("+").unwrap_err(), ParseNumberError::InvalidFormat);
    assert_eq!(Decimal::from_str("x").unwrap_err(), ParseNumberError::InvalidFormat);
    assert_eq!(Decimal::from_str("1,5").unwrap_err(), ParseNumberError::InvalidFormat);
    assert_eq!(
        Decimal::from_str("146150163733090291820368.4832716283019655932542976").unwrap_err(),
        ParseNumberError::Overflow
    );
    assert_eq!(
        Decimal::from_str("-1000000000000000000000000").unwrap_err(),
        ParseNumberError::Overflow
    );
    assert_eq!(Short::from_str("65.536").unwrap_err(), ParseNumberError::Overflow);
    assert_eq!(Short::from_str("65.5359").unwrap().to_string(), "65.535");
    assert_eq!("12.5".parse::<Decimal>().unwrap(), dec("12.5"));
    assert_eq!(Decimal::parse_bytes(b"-0.0").unwrap(), Decimal::zero());
    assert!(Decimal::parse_bytes(b"-0.0").unwrap().is_sign_positive());
}

#[test]
fn test_parse_rounded_and_saturating() {
    assert_eq!(Short::parse_rounded(b"1.2344").unwrap().to_string(), "1.234");
    assert_eq!(Short::parse_rounded(b"1.2345").unwrap().to_string(), "1.235");
    assert_eq!(Short::parse_rounded(b"1.2349999").unwrap().to_string(), "1.235");
    assert_eq!(Short::parse_rounded(b"1.234").unwrap().to_string(), "1.234");
    assert_eq!(Short::parse_rounded(b"1.2").unwrap().to_string(), "1.2");
    assert_eq!(Short::parse_rounded(b"7").unwrap().to_string(), "7");
    assert_eq!(Short::parse_rounded(b"65.5355").unwrap(), Short::infinity());
    assert_eq!(Short::parse_rounded(b"1.2.3").unwrap_err(), ParseNumberError::InvalidFormat);
    assert_eq!(Short::parse_rounded(b"66").unwrap_err(), ParseNumberError::Overflow);
    assert_eq!(Short::parse_or_infinity(b"66").unwrap(), Short::infinity());
    assert_eq!(Short::parse_or_infinity(b"-66").unwrap(), Short::neg_infinity());
    assert_eq!(Short::parse_or_infinity(b"65.535").unwrap(), Short::max());
    assert_eq!(
        Short::parse_or_infinity(b"6x").unwrap_err(),
        ParseNumberError::InvalidFormat
    );
}

#[test]
fn test_text_round_trip() {
    for v in samples() {
        assert_eq!(Decimal::from_str(&v.to_string()).unwrap(), v);
        assert_eq!(Decimal::parse_bytes(&v.to_text()).unwrap(), v);
    }
    for v in [Tiny::max(), Tiny::min(), Tiny::ulp(), Tiny::one(), Tiny::zero()] {
        assert_eq!(Tiny::from_str(&v.to_string()).unwrap(), v);
    }
    // the notation of an infinity is not in the grammar
    assert_eq!(
        Decimal::from_str(&Decimal::infinity().to_string()).unwrap_err(),
        ParseNumberError::InvalidFormat
    );
    assert_eq!(Long::max().to_string(), "6277101735386680763835789423.207666416102355444464034512895");
    assert_eq!(Tiny::max().to_string(), "6.5535");
    assert_eq!(Decimal::max().to_text(), b"146150163733090291820368.4832716283019655932542975");
}

#[test]
fn test_bytes_round_trip() {
    for v in samples().into_iter().chain(specials()) {
        let be = v.to_be_bytes();
        let le = v.to_le_bytes();
        assert_eq!(be.len(), 21);
        assert_eq!(reversed(&le), be);
        assert!(same(Decimal::from_be_bytes(&be).unwrap(), v));
        assert!(same(Decimal::from_le_bytes(&le).unwrap(), v));
    }
    assert_eq!(dec("-0.0000000000000000000000258").to_le_bytes()[..5], [2, 1, 0, 0, 0]);
    assert_eq!(Long::one().to_be_bytes().len(), 25);
}

#[test]
fn test_bytes_flags() {
    for flags in 6..=255u8 {
        assert_eq!(
            Tiny::from_le_bytes(&[1, 2, flags]).unwrap_err(),
            FromBytesError::InvalidFlags
        );
        assert_eq!(
            Tiny::from_be_bytes(&[flags, 2, 1]).unwrap_err(),
            FromBytesError::InvalidFlags
        );
    }
    assert_eq!(Tiny::from_le_bytes(&[1, 2, 0]).unwrap().to_string(), "0.0513");
    assert_eq!(Tiny::from_be_bytes(&[1, 2, 1]).unwrap().to_string(), "-0.0513");
    assert!(Tiny::from_le_bytes(&[1, 2, 2]).unwrap().is_nan());
    assert!(Tiny::from_le_bytes(&[1, 2, 3]).unwrap().is_nan());
    assert_eq!(Tiny::from_le_bytes(&[1, 2, 4]).unwrap(), Tiny::infinity());
    assert_eq!(Tiny::from_le_bytes(&[1, 2, 5]).unwrap(), Tiny::neg_infinity());
    // there is no negative zero
    let z = Tiny::from_le_bytes(&[0, 0, 1]).unwrap();
    assert!(z.is_zero() && z.is_sign_positive());
    assert_eq!(z.to_le_bytes(), [0, 0, 0]);
}

#[test]
fn test_add_then_sub() {
    let vals = samples();
    for a in vals.iter() {
        for b in vals.iter() {
            let sum = *a + *b;
            if !sum.is_special() {
                assert_eq!(sum - *b, *a);
            }
        }
    }
}

#[test]
fn test_mul_identity_and_zero() {
    for v in samples() {
        assert_eq!(v * Decimal::one(), v);
        assert_eq!(Decimal::one() * v, v);
        assert_eq!(v * Decimal::zero(), Decimal::zero());
        assert!((v * Decimal::zero()).is_sign_positive());
    }
    assert!((Decimal::infinity() * Decimal::zero()).is_nan());
    assert!((Decimal::zero() * Decimal::neg_infinity()).is_nan());
}

#[test]
fn test_commutative() {
    let vals: Vec<Decimal> = samples().into_iter().chain(specials()).collect();
    for a in vals.iter() {
        for b in vals.iter() {
            assert!(same(*a + *b, *b + *a));
            assert!(same(*a * *b, *b * *a));
        }
    }
}

#[test]
fn test_boundary_overflow() {
    assert_eq!(Decimal::max() + Decimal::ulp(), Decimal::infinity());
    assert_eq!(Decimal::min() - Decimal::ulp(), Decimal::neg_infinity());
    assert_eq!(Decimal::max() * Decimal::from(2), Decimal::infinity());
    assert_eq!(Decimal::min() * Decimal::from(2), Decimal::neg_infinity());
    assert_eq!(Decimal::max() - Decimal::ulp() + Decimal::ulp(), Decimal::max());
    assert_eq!(Short::from(65u16), Short::from_le_units(false, [65000]));
    assert_eq!(Short::from(66u16), Short::infinity());
    assert_eq!(dec("0.75"), Decimal::with_scale(75, 2));
}

#[test]
fn test_division_rules() {
    let ten = Decimal::from(10);
    let three = Decimal::from(3);
    assert_eq!((ten / three).to_string(), "3.3333333333333333333333333");
    assert_eq!((-ten / three).to_string(), "-3.3333333333333333333333333");
    assert_eq!((Decimal::ulp() / Decimal::from(-2)), Decimal::zero());
    assert!((Decimal::ulp() / Decimal::from(-2)).is_sign_positive());
    assert_eq!(ten / Decimal::zero(), Decimal::infinity());
    assert_eq!(-ten / Decimal::zero(), Decimal::neg_infinity());
    assert!((Decimal::zero() / Decimal::zero()).is_nan());
    assert_eq!(Decimal::infinity() / -ten, Decimal::infinity());
    assert_eq!(ten / Decimal::neg_infinity(), Decimal::zero());
    assert!((Decimal::infinity() / Decimal::infinity()).is_nan());
    assert_eq!(Decimal::max() / Decimal::ulp(), Decimal::infinity());
    assert_eq!(Decimal::min() / Decimal::ulp(), Decimal::neg_infinity());
    assert_eq!((ten * three / three), ten);
    assert_eq!((Decimal::from(7) * dec("0.0000000000000000000000001")).to_string(), "0.0000000000000000000000007");
    assert_eq!(dec("0.0000000000001") * dec("0.0000000000001"), Decimal::zero());
    assert_eq!((dec("-1.5") * dec("1.5")).to_string(), "-2.25");
}

#[test]
fn test_remainder_rules() {
    assert_eq!((dec("7.5") % dec("2")).to_string(), "1.5");
    assert_eq!((dec("-7.5") % dec("2")).to_string(), "-1.5");
    assert_eq!((dec("7.5") % dec("-2")).to_string(), "1.5");
    assert_eq!((dec("0.7") % dec("0.2")).to_string(), "0.1");
    assert_eq!(dec("6") % dec("2"), Decimal::zero());
    assert!((dec("-6") % dec("2")).is_sign_positive());
    // the whole part of the quotient does not fit
    assert_eq!(Decimal::max() % Decimal::ulp(), Decimal::infinity());
    assert_eq!(Decimal::min() % Decimal::ulp(), Decimal::neg_infinity());
    assert_eq!(Decimal::max() % dec("-0.5"), Decimal::neg_infinity());
    assert_eq!((Decimal::max() % dec("100000")).to_string(), "20368.4832716283019655932542975");
    assert!((Decimal::one() % Decimal::zero()).is_nan());
    assert!((Decimal::infinity() % Decimal::one()).is_nan());
    assert_eq!(Decimal::one() % Decimal::infinity(), Decimal::one());
}

#[test]
fn test_shifts() {
    let v = dec("0.0000000000000000000000005");
    assert_eq!((v >> 1).to_string(), "0.0000000000000000000000002");
    assert_eq!((-v >> 1).to_string(), "-0.0000000000000000000000002");
    assert_eq!(-Decimal::ulp() >> 1, Decimal::zero());
    assert!((-Decimal::ulp() >> 1).is_sign_positive());
    assert_eq!(Decimal::max() >> 159, Decimal::ulp());
    assert_eq!(Decimal::max() >> 160, Decimal::zero());
    assert_eq!(Decimal::max() >> usize::MAX, Decimal::zero());
    assert_eq!(Decimal::ulp() << 159 >> 159, Decimal::ulp());
    assert_eq!(Decimal::ulp() << 160, Decimal::infinity());
    assert_eq!(-Decimal::ulp() << usize::MAX, Decimal::neg_infinity());
    assert_eq!(Decimal::zero() << usize::MAX, Decimal::zero());
    assert_eq!(Decimal::max() << 1, Decimal::infinity());
    assert_eq!((Decimal::max() >> 33 << 33) >> 33, Decimal::max() >> 33);
    assert_eq!((dec("3") << 37).to_string(), "412316860416");
    assert_eq!((dec("412316860416") >> 37).to_string(), "3");
    assert_eq!(Decimal::infinity() >> 3, Decimal::infinity());
    assert!((Decimal::nan() << 3).is_nan());
    let mut n = dec("1.5");
    n.shl_assign(2);
    assert_eq!(n, dec("6"));
    n.shr_assign(3);
    assert_eq!(n, dec("0.75"));
}

#[test]
fn test_order() {
    assert_eq!(Decimal::nan().partial_cmp(&Decimal::nan()), None);
    assert_eq!(dec("-1").partial_cmp(&dec("-2")), Some(Ordering::Greater));
    assert_eq!(dec("-2").partial_cmp(&dec("-1")), Some(Ordering::Less));
    assert_eq!(dec("1.5").partial_cmp(&dec("1.50")), Some(Ordering::Equal));
    assert!(Decimal::neg_infinity() < Decimal::min());
    assert!(Decimal::max() < Decimal::infinity());
    assert!(!(Decimal::nan() < Decimal::one()) && !(Decimal::nan() >= Decimal::one()));
    assert!(Decimal::zero() == Decimal::zero().negate());
}

#[test]
fn test_math_functions() {
    assert_eq!(dec("-7.25").trunc().to_string(), "-7");
    assert_eq!(dec("-7.25").fract().to_string(), "-0.25");
    assert_eq!(dec("7.25").trunc().to_string(), "7");
    assert_eq!(dec("0.25").trunc(), Decimal::zero());
    assert_eq!(Decimal::max().fract().to_string(), "0.4832716283019655932542975");
    assert_eq!(Decimal::max().trunc().to_string(), "146150163733090291820368");
    assert_eq!(dec("-3").abs(), dec("3"));
    assert_eq!(Decimal::neg_infinity().abs(), Decimal::infinity());
    assert_eq!(dec("16").sqrt(), dec("4"));
    assert_eq!(dec("2").sqrt().to_string(), "1.4142135623730950488016887");
    assert_eq!(Decimal::zero().sqrt(), Decimal::zero());
    assert!(Decimal::neg_infinity().sqrt().is_nan());
    assert_eq!(Decimal::infinity().sqrt(), Decimal::infinity());
    assert_eq!(dec("2").powi(10), dec("1024"));
    assert_eq!(dec("2").powu(10), dec("1024"));
    assert_eq!(dec("2").powi(-2), dec("0.25"));
    assert_eq!(dec("-2").powi(3), dec("-8"));
    assert_eq!(dec("10").powi(23), dec("100000000000000000000000"));
    assert_eq!(dec("10").powi(24), Decimal::infinity());
    assert_eq!(dec("-10").powi(25), Decimal::neg_infinity());
    assert_eq!(Decimal::zero().powi(-1), Decimal::infinity());
    assert_eq!(Decimal::one().powi(i32::MIN), Decimal::one());
    assert_eq!(dec("-1").powi(i32::MIN), Decimal::one());
    assert_eq!(dec("-1").powi(i32::MAX), dec("-1"));
    assert_eq!(Decimal::neg_infinity().powi(2), Decimal::infinity());
    assert_eq!(Decimal::neg_infinity().powi(3), Decimal::neg_infinity());
    assert_eq!(Decimal::nan().powi(0).is_nan(), true);
    assert_eq!(Decimal::infinity().powi(0), Decimal::one());
}

#[test]
fn test_square_root_iteration_settles() {
    // Newton's iteration on 500000000 from its half, twenty steps
    let v = Decimal::from(500_000_000);
    let mut x = v >> 1;
    for _ in 0..20 {
        x = (x + v / x) >> 1;
    }
    let next = (x + v / x) >> 1;
    assert_eq!(next, x);
    assert_eq!(v.sqrt(), x);
    assert_eq!(x.to_string(), "22360.6797749978969640917366873");
}

#[test]
fn test_conversions() {
    assert_eq!(Decimal::from(u64::MAX).to_string(), "18446744073709551615");
    assert_eq!(Decimal::from(i64::MIN).to_string(), "-9223372036854775808");
    assert_eq!(Decimal::from(i8::MIN).to_string(), "-128");
    assert_eq!(Decimal::from(0u8), Decimal::zero());
    assert_eq!(Decimal::with_scale(-5i8, 25), dec("-0.0000000000000000000000005"));
    assert_eq!(Decimal::with_scale(u64::MAX, 25).to_string(), "0.0000018446744073709551615");
    assert_eq!(Decimal::from_parts(true, 0, 3), Decimal::zero());
    assert_eq!(Tiny::from(6u8).to_string(), "6");
    assert_eq!(Tiny::from(7u8), Tiny::infinity());
    assert_eq!(Tiny::from(-7i64), Tiny::neg_infinity());
    assert_eq!(Tiny::from(70000u32), Tiny::infinity());
    assert_eq!(Tiny::with_scale(65535u16, 4), Tiny::max());
    assert_eq!(Tiny::with_scale(-65535i32, 4), Tiny::min());
    assert_eq!(Decimal::from_be_units(true, [0, 0, 0, 0, 9]), dec("-0.0000000000000000000000009"));
    assert_eq!(Decimal::new(false, [0, 1, 0, 0, 0]).to_string(), "0.0000000000000004294967296");
    assert_eq!(Decimal::default(), Decimal::zero());
}

#[test]
fn test_parameters() {
    assert!(Decimal::has_valid_params());
    assert!(Tiny::has_valid_params());
    assert!(Fdec::<u8, 1, 2>::has_valid_params());
    assert!(!Fdec::<u8, 1, 3>::has_valid_params());
    assert!(!Fdec::<u32, 0, 0>::has_valid_params());
    assert!(!Fdec::<u64, 2, 39>::has_valid_params());
    assert!(Fdec::<u64, 2, 38>::has_valid_params());
    assert_eq!("1".parse::<Fdec<u8, 1, 3>>().unwrap_err(), ParseNumberError::Overflow);
    assert_eq!((Decimal::scale(), Decimal::length()), (25, 5));
    assert_eq!(<Decimal as Number>::scale(), 25);
    assert_eq!(<Decimal as Number>::one(), Decimal::one());
    assert_eq!(<Decimal as Number>::powi(&dec("3"), 3), dec("27"));
}

#[test]
fn test_assign_forms() {
    let mut n = dec("10");
    n.add_assign(dec("2.5"));
    assert_eq!(n, dec("12.5"));
    n.sub_assign(dec("0.5"));
    assert_eq!(n, dec("12"));
    n.mul_assign(dec("-0.5"));
    assert_eq!(n, dec("-6"));
    n.div_assign(dec("4"));
    assert_eq!(n, dec("-1.5"));
    n.rem_assign(dec("1"));
    assert_eq!(n, dec("-0.5"));
}
