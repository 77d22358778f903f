use ecurve::bignum::BigNum;
use num_bigint::BigInt;

fn bn_value(x: &BigNum) -> BigInt {
    BigInt::from_signed_bytes_be(&x.to_signed_bytes_be())
}

#[test]
fn from_u64_gives_the_number() {
    for v in [0u64, 1, 127, 128, 255, 256, 65535, 65536, 9739, u64::MAX - 1, u64::MAX] {
        assert_eq!(bn_value(&BigNum::from_u64(v)), BigInt::from(v));
    }
}

#[test]
fn from_i64_gives_the_number() {
    for v in [0i64, 1, -1, 127, -127, -128, -129, 255, -255, -256, -257, i64::MAX, i64::MIN, i64::MIN + 1] {
        assert_eq!(bn_value(&BigNum::from_i64(v)), BigInt::from(v));
    }
}

#[test]
fn from_bytes_be_reads_an_unsigned_number() {
    assert_eq!(bn_value(&BigNum::from_bytes_be(&[])), BigInt::from(0));
    assert_eq!(bn_value(&BigNum::from_bytes_be(&[0xff])), BigInt::from(255));
    assert_eq!(bn_value(&BigNum::from_bytes_be(&[0x01, 0x00])), BigInt::from(256));
    assert_eq!(bn_value(&BigNum::from_bytes_be(&[0x80, 0x00, 0x00])), BigInt::from(0x80_0000));
    assert_eq!(bn_value(&BigNum::from_bytes_be(&[0x00, 0x00, 0x2a])), BigInt::from(42));
}

#[test]
fn from_signed_bytes_be_reads_twos_complement() {
    assert_eq!(bn_value(&BigNum::from_signed_bytes_be(&[])), BigInt::from(0));
    assert_eq!(bn_value(&BigNum::from_signed_bytes_be(&[0xff])), BigInt::from(-1));
    assert_eq!(bn_value(&BigNum::from_signed_bytes_be(&[0x80])), BigInt::from(-128));
    assert_eq!(bn_value(&BigNum::from_signed_bytes_be(&[0x00, 0x80])), BigInt::from(128));
    assert_eq!(bn_value(&BigNum::from_signed_bytes_be(&[0xff, 0x7f])), BigInt::from(-129));
}

#[test]
fn to_signed_bytes_be_spells_the_number() {
    let x = BigNum::from_i64(-9739);
    let again = BigNum::from_signed_bytes_be(&x.to_signed_bytes_be());
    assert!(again.equals(&x));
    assert_eq!(bn_value(&again), BigInt::from(-9739));
}

#[test]
fn is_zero_looks_at_the_value() {
    assert!(BigNum::from_u64(0).is_zero());
    assert!(BigNum::from_bytes_be(&[]).is_zero());
    assert!(BigNum::from_bytes_be(&[0, 0, 0]).is_zero());
    assert!(BigNum::from_signed_bytes_be(&[]).is_zero());
    assert!(!BigNum::from_u64(1).is_zero());
    assert!(!BigNum::from_i64(-1).is_zero());
    assert!(!BigNum::from_bytes_be(&[0, 1, 0]).is_zero());
}

#[test]
fn is_negative_reads_the_sign() {
    assert!(BigNum::from_i64(-1).is_negative());
    assert!(BigNum::from_i64(i64::MIN).is_negative());
    assert!(!BigNum::from_u64(0).is_negative());
    assert!(!BigNum::from_u64(128).is_negative());
    assert!(!BigNum::from_u64(u64::MAX).is_negative());
    assert!(!BigNum::from_bytes_be(&[0xff]).is_negative());
    assert!(BigNum::from_signed_bytes_be(&[0xff]).is_negative());
}

#[test]
fn equals_compares_values_not_bytes() {
    assert!(BigNum::from_bytes_be(&[0, 0, 5]).equals(&BigNum::from_u64(5)));
    assert!(BigNum::from_signed_bytes_be(&[0xff, 0xff]).equals(&BigNum::from_i64(-1)));
    assert!(!BigNum::from_u64(5).equals(&BigNum::from_u64(6)));
    assert!(!BigNum::from_u64(5).equals(&BigNum::from_i64(-5)));
}

#[test]
fn less_than_orders_signed_values() {
    assert!(BigNum::from_u64(5).less_than(&BigNum::from_u64(6)));
    assert!(!BigNum::from_u64(6).less_than(&BigNum::from_u64(6)));
    assert!(!BigNum::from_u64(7).less_than(&BigNum::from_u64(6)));
    assert!(BigNum::from_i64(-7).less_than(&BigNum::from_i64(-6)));
    assert!(BigNum::from_i64(-1).less_than(&BigNum::from_u64(0)));
    assert!(BigNum::from_u64(u64::MAX).less_than(&BigNum::from_bytes_be(&[1, 0, 0, 0, 0, 0, 0, 0, 0])));
}

#[test]
fn clone_keeps_the_value() {
    let x = BigNum::from_i64(-123456789);
    assert!(x.clone().equals(&x));
}

#[test]
fn from_hex_reads_digits_in_either_case() {
    assert_eq!(bn_value(&BigNum::from_hex("ff").unwrap()), BigInt::from(255));
    assert_eq!(bn_value(&BigNum::from_hex("FF").unwrap()), BigInt::from(255));
    assert_eq!(bn_value(&BigNum::from_hex("aBcDeF").unwrap()), BigInt::from(0xabcdefu64));
    assert_eq!(bn_value(&BigNum::from_hex("0123456789").unwrap()), BigInt::from(0x0123456789u64));
    assert_eq!(bn_value(&BigNum::from_hex("260b").unwrap()), BigInt::from(9739));
    // an odd number of digits is a number like any other
    assert_eq!(bn_value(&BigNum::from_hex("fff").unwrap()), BigInt::from(4095));
}

#[test]
fn from_hex_passes_over_spaces() {
    let spaced = BigNum::from_hex("FFFFFFFF FFFFFFFF FFFFFFFE FFFFFC2F").unwrap();
    let plain = BigNum::from_hex("fffffffffffffffffffffffefffffc2f").unwrap();
    assert!(spaced.equals(&plain));
    assert_eq!(
        bn_value(&spaced),
        BigInt::parse_bytes(b"fffffffffffffffffffffffefffffc2f", 16).unwrap()
    );
    assert!(BigNum::from_hex(" 1 0 ").unwrap().equals(&BigNum::from_u64(16)));
}

#[test]
fn from_hex_of_no_digits_is_zero() {
    assert!(BigNum::from_hex("").unwrap().is_zero());
    assert!(BigNum::from_hex("   ").unwrap().is_zero());
}

#[test]
fn from_hex_rejects_other_characters() {
    assert!(BigNum::from_hex("12g4").is_none());
    assert!(BigNum::from_hex("0x12").is_none());
    assert!(BigNum::from_hex("-12").is_none());
    assert!(BigNum::from_hex("12\n").is_none());
    assert!(BigNum::from_hex("é").is_none());
}
