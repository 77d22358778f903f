use ecurve::bignum::BigNum;
use ecurve::curve::{add, is_on_curve, CurveParameters, CurvePoint};
use ecurve::error::EcError;
use ecurve::scalar::{scalar_mul, to_bits};

fn snum(v: u64) -> BigNum {
    BigNum::from_u64(v)
}

fn spoint(x: u64, y: u64) -> CurvePoint {
    CurvePoint::Affine { x: snum(x), y: snum(y) }
}

fn stoy() -> CurveParameters {
    CurveParameters::new(snum(9739), snum(497), snum(1768), spoint(8045, 6936), snum(3245), snum(3))
        .unwrap()
}

fn ssecp256k1() -> CurveParameters {
    CurveParameters::from_hex(
        "FFFFFFFF FFFFFFFF FFFFFFFF FFFFFFFF FFFFFFFF FFFFFFFF FFFFFFFE FFFFFC2F",
        0,
        7,
        "04 79BE667E F9DCBBAC 55A06295 CE870B07 029BFCDB 2DCE28D9 59F2815B 16F81798 483ADA77 26A3C465 5DA4FBFC 0E1108A8 FD17B448 A6855419 9C47D08F FB10D4B8",
        "FFFFFFFF FFFFFFFF FFFFFFFF FFFFFFFE BAAEDCE6 AF48A03B BFD25E8C D0364141",
    )
    .unwrap()
}

fn shex_point(x: &str, y: &str) -> CurvePoint {
    CurvePoint::Affine { x: BigNum::from_hex(x).unwrap(), y: BigNum::from_hex(y).unwrap() }
}

#[test]
fn to_bits_lists_the_binary_digits() {
    assert_eq!(to_bits(&snum(1)), vec![true]);
    assert_eq!(to_bits(&snum(2)), vec![false, true]);
    assert_eq!(to_bits(&snum(6)), vec![false, true, true]);
    // 1337 = 0b10100111001
    assert_eq!(
        to_bits(&snum(1337)),
        vec![true, false, false, true, true, true, false, false, true, false, true]
    );
    assert_eq!(to_bits(&BigNum::from_hex("1 0000 0000 0000 0000").unwrap()).len(), 65);
}

#[test]
fn to_bits_of_a_number_below_one_is_empty() {
    assert_eq!(to_bits(&snum(0)), Vec::<bool>::new());
    assert_eq!(to_bits(&BigNum::from_i64(-6)), Vec::<bool>::new());
}

#[test]
fn scalar_mul_by_one_is_the_point() {
    let c = stoy();
    assert!(scalar_mul(&snum(1), c.g(), &c).unwrap().same_as(c.g()));
    let s = ssecp256k1();
    assert!(scalar_mul(&snum(1), s.g(), &s).unwrap().same_as(s.g()));
}

#[test]
fn scalar_mul_by_two_is_the_point_added_to_itself() {
    let c = stoy();
    let twice = add(c.g(), c.g(), &c).unwrap();
    assert!(scalar_mul(&snum(2), c.g(), &c).unwrap().same_as(&twice));
    let s = ssecp256k1();
    let twice = add(s.g(), s.g(), &s).unwrap();
    assert!(scalar_mul(&snum(2), s.g(), &s).unwrap().same_as(&twice));
}

#[test]
fn scalar_mul_rejects_a_scalar_below_one() {
    let c = stoy();
    assert!(matches!(scalar_mul(&snum(0), c.g(), &c), Err(EcError::InvalidScalar)));
    assert!(matches!(scalar_mul(&BigNum::from_i64(-1), c.g(), &c), Err(EcError::InvalidScalar)));
    assert!(matches!(
        scalar_mul(&snum(0), &CurvePoint::Identity, &c),
        Err(EcError::InvalidScalar)
    ));
}

#[test]
fn scalar_mul_gives_the_known_multiples() {
    let c = stoy();
    assert!(scalar_mul(&snum(3), c.g(), &c).unwrap().same_as(&spoint(7108, 8720)));
    assert!(scalar_mul(&snum(5), c.g(), &c).unwrap().same_as(&spoint(8148, 2505)));
    assert!(scalar_mul(&snum(7), c.g(), &c).unwrap().same_as(&spoint(5685, 2615)));
    assert!(scalar_mul(&snum(1337), c.g(), &c).unwrap().same_as(&spoint(337, 9456)));
}

#[test]
fn scalar_mul_agrees_with_repeated_addition() {
    let c = stoy();
    let mut running = c.g().clone();
    for k in 2..40u64 {
        running = add(&running, c.g(), &c).unwrap();
        assert!(scalar_mul(&snum(k), c.g(), &c).unwrap().same_as(&running));
    }
}

#[test]
fn scalar_mul_by_the_order_is_the_identity() {
    let c = stoy();
    assert!(scalar_mul(&snum(3245), c.g(), &c).unwrap().is_identity());
    assert!(scalar_mul(&snum(3244), c.g(), &c).unwrap().same_as(&spoint(8045, 9739 - 6936)));
    // the scalar is not reduced: one more than the order gives the point back
    assert!(scalar_mul(&snum(3246), c.g(), &c).unwrap().same_as(c.g()));
}

#[test]
fn scalar_mul_of_the_identity_is_the_identity() {
    let c = stoy();
    assert!(scalar_mul(&snum(12345), &CurvePoint::Identity, &c).unwrap().is_identity());
}

#[test]
fn scalar_mul_reports_an_undefined_slope() {
    // y^2 = x^3 modulo 15: doubling (1, 1) needs the inverse of 2, which is 8:
    // slope 3*8 = 9, x = 81 - 2 = 4, y = 9*(1 - 4) - 1 = 2; doubling (4, 2) then
    // needs the inverse of 4, which is 4: slope 48*4 = 12, x = 144 - 8 = 1,
    // y = 12*3 - 2 = 4; and (1, 4) + (1, 1) has no slope
    let c = CurveParameters::new(snum(15), snum(0), snum(0), spoint(0, 0), snum(2), snum(1)).unwrap();
    let pt = spoint(1, 1);
    assert!(scalar_mul(&snum(2), &pt, &c).unwrap().same_as(&spoint(4, 2)));
    assert!(scalar_mul(&snum(4), &pt, &c).unwrap().same_as(&spoint(1, 4)));
    assert!(matches!(scalar_mul(&snum(5), &pt, &c), Err(EcError::UndefinedSlope)));
}

#[test]
fn multiples_of_the_base_point_lie_on_the_curve() {
    let c = stoy();
    for d in [1u64, 2, 3, 10, 100, 1000, 3243, 3244] {
        let q = scalar_mul(&snum(d), c.g(), &c).unwrap();
        assert!(!q.is_identity());
        assert!(is_on_curve(&q, &c));
    }
    let s = ssecp256k1();
    let d = BigNum::from_hex("1E99423A4ED27608A15A2616A2B0E9E52CED330AC530EDCC32C8FFC6A526AEDD").unwrap();
    let q = scalar_mul(&d, s.g(), &s).unwrap();
    assert!(is_on_curve(&q, &s));
}

#[test]
fn scalar_mul_on_secp256k1_gives_the_known_multiples() {
    let s = ssecp256k1();
    assert!(scalar_mul(&snum(2), s.g(), &s).unwrap().same_as(&shex_point(
        "c6047f9441ed7d6d3045406e95c07cd85c778e4b8cef3ca7abac09b95c709ee5",
        "1ae168fea63dc339a3c58419466ceaeef7f632653266d0e1236431a950cfe52a"
    )));
    assert!(scalar_mul(&snum(3), s.g(), &s).unwrap().same_as(&shex_point(
        "f9308a019258c31049344f85f89d5229b531c845836f99b08601f113bce036f9",
        "388f7b0f632de8140fe337e62a37f3566500a99934c2231b6cb9fd7584b8e672"
    )));
    let d = BigNum::from_hex("1E99423A4ED27608A15A2616A2B0E9E52CED330AC530EDCC32C8FFC6A526AEDD").unwrap();
    assert!(scalar_mul(&d, s.g(), &s).unwrap().same_as(&shex_point(
        "f028892bad7ed57d2fb57bf33081d5cfcf6f9ed3d3d7f159c2e2fff579dc341a",
        "07cf33da18bd734c600b96a72bbc4749d5141c90ec8ac328ae52ddfe2e505bdb"
    )));
}

#[test]
fn scalar_mul_on_secp256k1_by_the_order_is_the_identity() {
    let s = ssecp256k1();
    assert!(scalar_mul(s.n(), s.g(), &s).unwrap().is_identity());
}
