use ecurve::bignum::BigNum;
use ecurve::curve::{
    add, chord_slope, elliptic_equation, is_on_curve, tangent_slope, third_point, CurveParameters,
    CurvePoint,
};
use ecurve::error::EcError;

fn cnum(v: u64) -> BigNum {
    BigNum::from_u64(v)
}

fn cpoint(x: u64, y: u64) -> CurvePoint {
    CurvePoint::Affine { x: cnum(x), y: cnum(y) }
}

fn ctoy() -> CurveParameters {
    CurveParameters::new(cnum(9739), cnum(497), cnum(1768), cpoint(8045, 6936), cnum(3245), cnum(3))
        .unwrap()
}

// y^2 = x^3 over the integers modulo 15, which is no field; (0, 0) is its
// own mirror image, so that twice the point is the identity
fn ccomposite() -> CurveParameters {
    CurveParameters::new(cnum(15), cnum(0), cnum(0), cpoint(0, 0), cnum(2), cnum(1)).unwrap()
}

fn csecp256k1() -> CurveParameters {
    CurveParameters::from_hex(
        "FFFFFFFF FFFFFFFF FFFFFFFF FFFFFFFF FFFFFFFF FFFFFFFF FFFFFFFE FFFFFC2F",
        0,
        7,
        "04 79BE667E F9DCBBAC 55A06295 CE870B07 029BFCDB 2DCE28D9 59F2815B 16F81798 483ADA77 26A3C465 5DA4FBFC 0E1108A8 FD17B448 A6855419 9C47D08F FB10D4B8",
        "FFFFFFFF FFFFFFFF FFFFFFFF FFFFFFFE BAAEDCE6 AF48A03B BFD25E8C D0364141",
    )
    .unwrap()
}

#[test]
fn new_keeps_the_parts() {
    let c = ctoy();
    assert!(c.p().equals(&cnum(9739)));
    assert!(c.a().equals(&cnum(497)));
    assert!(c.b().equals(&cnum(1768)));
    assert!(c.g().same_as(&cpoint(8045, 6936)));
    assert!(c.n().equals(&cnum(3245)));
    assert!(c.h().equals(&cnum(3)));
}

#[test]
fn new_rejects_parts_that_are_not_valid() {
    let g = || cpoint(8045, 6936);
    // the base point is not on the curve
    assert!(CurveParameters::new(cnum(9739), cnum(497), cnum(1768), cpoint(8045, 6937), cnum(3245), cnum(3)).is_none());
    // the base point is the identity
    assert!(CurveParameters::new(cnum(9739), cnum(497), cnum(1768), CurvePoint::Identity, cnum(3245), cnum(3)).is_none());
    // a coordinate is no residue
    assert!(CurveParameters::new(cnum(9739), cnum(497), cnum(1768), cpoint(8045 + 9739, 6936), cnum(3245), cnum(3)).is_none());
    // the modulus is below two
    assert!(CurveParameters::new(cnum(1), cnum(0), cnum(0), cpoint(0, 0), cnum(2), cnum(1)).is_none());
    // a coefficient is no residue
    assert!(CurveParameters::new(cnum(9739), cnum(497 + 9739), cnum(1768), g(), cnum(3245), cnum(3)).is_none());
    assert!(CurveParameters::new(cnum(9739), cnum(497), cnum(1768 + 9739), g(), cnum(3245), cnum(3)).is_none());
    assert!(CurveParameters::new(cnum(9739), BigNum::from_i64(-1), cnum(1768), g(), cnum(3245), cnum(3)).is_none());
    // the order is below two, the cofactor below one
    assert!(CurveParameters::new(cnum(9739), cnum(497), cnum(1768), g(), cnum(1), cnum(3)).is_none());
    assert!(CurveParameters::new(cnum(9739), cnum(497), cnum(1768), g(), cnum(3245), cnum(0)).is_none());
}

#[test]
fn new_puts_the_order_to_the_test() {
    let g = || cpoint(8045, 6936);
    // the base point has the order 3245 = 5 * 11 * 59
    assert!(CurveParameters::new(cnum(9739), cnum(497), cnum(1768), g(), cnum(3245), cnum(3)).is_some());
    assert!(CurveParameters::new(cnum(9739), cnum(497), cnum(1768), g(), cnum(2 * 3245), cnum(3)).is_some());
    for n in [2u64, 59, 3244, 3246, 9735 / 3 + 1, 9739] {
        assert!(CurveParameters::new(cnum(9739), cnum(497), cnum(1768), g(), cnum(n), cnum(3)).is_none());
    }
    // a multiple that is undefined is no identity either
    assert!(CurveParameters::new(cnum(15), cnum(0), cnum(0), cpoint(1, 1), cnum(5), cnum(1)).is_none());
}

#[test]
fn from_hex_reads_secp256k1() {
    let c = csecp256k1();
    assert!(c.p().equals(
        &BigNum::from_hex("fffffffffffffffffffffffffffffffffffffffffffffffffffffffefffffc2f").unwrap()
    ));
    assert!(c.a().is_zero());
    assert!(c.b().equals(&cnum(7)));
    assert!(c.n().equals(
        &BigNum::from_hex("fffffffffffffffffffffffffffffffebaaedce6af48a03bbfd25e8cd0364141").unwrap()
    ));
    assert!(c.h().equals(&cnum(1)));
    let gx = BigNum::from_hex("79be667ef9dcbbac55a06295ce870b07029bfcdb2dce28d959f2815b16f81798").unwrap();
    let gy = BigNum::from_hex("483ada7726a3c4655da4fbfc0e1108a8fd17b448a68554199c47d08ffb10d4b8").unwrap();
    assert!(c.g().same_as(&CurvePoint::Affine { x: gx, y: gy }));
    assert!(is_on_curve(c.g(), &c));
}

#[test]
fn from_hex_rejects_bad_text_and_bad_parts() {
    // the toy curve in hexadecimal: p = 0x260b, G = (0x1f6d, 0x1b18), n = 0xcad
    assert!(CurveParameters::from_hex("260b", 497, 1768, "04 1f6d 1b18", "cad").is_some());
    assert!(CurveParameters::from_hex("260z", 497, 1768, "04 1f6d 1b18", "cad").is_none());
    assert!(CurveParameters::from_hex("260b", 497, 1768, "04 1f6d 1b18", "c-d").is_none());
    // no 04 in front of the point
    assert!(CurveParameters::from_hex("260b", 497, 1768, "1f6d 1b18", "cad").is_none());
    // coordinates of different lengths
    assert!(CurveParameters::from_hex("260b", 497, 1768, "04 1f6d 1b1", "cad").is_none());
    // a point off the curve
    assert!(CurveParameters::from_hex("260b", 497, 1768, "04 1f6d 1b19", "cad").is_none());
    // an order that the base point does not have
    assert!(CurveParameters::from_hex("260b", 497, 1768, "04 1f6d 1b18", "cae").is_none());
}

#[test]
fn point_from_hex_splits_the_coordinates() {
    let pt = CurvePoint::from_hex("04 1F6D 1B18").unwrap();
    assert!(pt.same_as(&cpoint(8045, 6936)));
    let pt = CurvePoint::from_hex("0400ff0001").unwrap();
    assert!(pt.same_as(&cpoint(255, 1)));
    // the form with no digits for the coordinates spells (0, 0)
    assert!(CurvePoint::from_hex("04").unwrap().same_as(&cpoint(0, 0)));
    assert!(CurvePoint::from_hex("").is_none());
    assert!(CurvePoint::from_hex("02 1f6d").is_none());
    assert!(CurvePoint::from_hex("04 1f6d 1b1").is_none());
    assert!(CurvePoint::from_hex("04 1f6d 1b1x").is_none());
}

#[test]
fn same_as_compares_points() {
    assert!(CurvePoint::Identity.same_as(&CurvePoint::Identity));
    assert!(!CurvePoint::Identity.same_as(&cpoint(1, 2)));
    assert!(!cpoint(1, 2).same_as(&CurvePoint::Identity));
    assert!(cpoint(1, 2).same_as(&cpoint(1, 2)));
    assert!(!cpoint(1, 2).same_as(&cpoint(1, 3)));
    assert!(!cpoint(1, 2).same_as(&cpoint(2, 2)));
    assert!(CurvePoint::Identity.is_identity());
    assert!(!cpoint(0, 0).is_identity());
    assert!(cpoint(7, 9).clone().same_as(&cpoint(7, 9)));
}

#[test]
fn elliptic_equation_gives_the_right_hand_side() {
    let c = ctoy();
    assert!(elliptic_equation(&cnum(8045), &c).equals(&cnum(7175)));
    assert!(elliptic_equation(&cnum(0), &c).equals(&cnum(1768)));
    assert!(elliptic_equation(&cnum(5), &c).equals(&cnum(4378)));
    // a negative abscissa gives a residue too: (-1)^3 - 497 + 1768 = 1270
    assert!(elliptic_equation(&BigNum::from_i64(-1), &c).equals(&cnum(1270)));
}

#[test]
fn is_on_curve_tells_points_of_the_curve() {
    let c = ctoy();
    assert!(is_on_curve(&CurvePoint::Identity, &c));
    assert!(is_on_curve(&cpoint(8045, 6936), &c));
    assert!(is_on_curve(&cpoint(8045, 9739 - 6936), &c));
    assert!(is_on_curve(&cpoint(0, 5321), &c));
    assert!(!is_on_curve(&cpoint(8045, 6937), &c));
    assert!(!is_on_curve(&cpoint(5, 1), &c));
    // coordinates must be residues
    assert!(!is_on_curve(&cpoint(8045 + 9739, 6936), &c));
    assert!(!is_on_curve(&cpoint(8045, 6936 + 9739), &c));
    assert!(!is_on_curve(
        &CurvePoint::Affine { x: cnum(8045), y: BigNum::from_i64(6936 - 9739) },
        &c
    ));
}

#[test]
fn tangent_slope_at_the_base_point() {
    let c = ctoy();
    assert!(tangent_slope(&cnum(8045), &cnum(6936), &c).unwrap().equals(&cnum(99)));
}

#[test]
fn tangent_slope_is_undefined_for_a_zero_ordinate() {
    let c = ctoy();
    assert!(matches!(tangent_slope(&cnum(8045), &cnum(0), &c), Err(EcError::UndefinedSlope)));
}

#[test]
fn chord_slope_between_two_points() {
    let c = ctoy();
    let l = chord_slope(&cnum(8045), &cnum(6936), &cnum(3450), &cnum(9714), &c).unwrap();
    assert!(l.equals(&cnum(8259)));
}

#[test]
fn chord_slope_is_undefined_for_equal_abscissas() {
    let c = ctoy();
    assert!(matches!(
        chord_slope(&cnum(8045), &cnum(6936), &cnum(8045), &cnum(1), &c),
        Err(EcError::UndefinedSlope)
    ));
}

#[test]
fn third_point_follows_the_formulas() {
    let c = ctoy();
    // 99^2 - 2*8045 = -6289 = 3450; 99*(8045 - 3450) - 6936 = 447969 = 9714 (mod 9739)
    let pt = third_point(&cnum(99), &cnum(8045), &cnum(6936), &cnum(8045), &c);
    assert!(pt.same_as(&cpoint(3450, 9714)));
}

#[test]
fn add_with_the_identity_returns_the_other_point() {
    let c = ctoy();
    let g = cpoint(8045, 6936);
    assert!(add(&CurvePoint::Identity, &g, &c).unwrap().same_as(&g));
    assert!(add(&g, &CurvePoint::Identity, &c).unwrap().same_as(&g));
    assert!(add(&CurvePoint::Identity, &CurvePoint::Identity, &c).unwrap().is_identity());
    // the other point is handed back as it is, on the curve or not
    let off = cpoint(20000, 3);
    assert!(add(&CurvePoint::Identity, &off, &c).unwrap().same_as(&off));
}

#[test]
fn add_of_a_point_and_its_mirror_image_is_the_identity() {
    let c = ctoy();
    let g = cpoint(8045, 6936);
    let minus_g = cpoint(8045, 9739 - 6936);
    assert!(add(&g, &minus_g, &c).unwrap().is_identity());
    assert!(add(&minus_g, &g, &c).unwrap().is_identity());
}

#[test]
fn add_doubles_a_point_along_its_tangent() {
    let c = ctoy();
    let g = cpoint(8045, 6936);
    assert!(add(&g, &g, &c).unwrap().same_as(&cpoint(3450, 9714)));
}

#[test]
fn add_joins_two_points_by_their_chord() {
    let c = ctoy();
    let g = cpoint(8045, 6936);
    let g2 = cpoint(3450, 9714);
    assert!(add(&g, &g2, &c).unwrap().same_as(&cpoint(7108, 8720)));
    assert!(add(&g2, &g, &c).unwrap().same_as(&cpoint(7108, 8720)));
}

#[test]
fn add_stays_on_the_curve() {
    let c = ctoy();
    let g = cpoint(8045, 6936);
    let mut running = g.clone();
    for _ in 0..50 {
        running = add(&g, &running, &c).unwrap();
        assert!(is_on_curve(&running, &c));
    }
}

#[test]
fn add_reports_an_undefined_slope() {
    let c = ccomposite();
    // 4 - 1 = 3 has no inverse modulo 15
    assert!(matches!(add(&cpoint(1, 1), &cpoint(4, 2), &c), Err(EcError::UndefinedSlope)));
    // 3 - 1 = 2 has the inverse 8: slope 8, x3 = 64 - 4 = 0, y3 = 8*1 - 1 = 7
    assert!(add(&cpoint(1, 1), &cpoint(3, 2), &c).unwrap().same_as(&cpoint(0, 7)));
}

#[test]
fn add_doubles_the_generator_of_secp256k1() {
    let c = csecp256k1();
    let x = BigNum::from_hex("c6047f9441ed7d6d3045406e95c07cd85c778e4b8cef3ca7abac09b95c709ee5").unwrap();
    let y = BigNum::from_hex("1ae168fea63dc339a3c58419466ceaeef7f632653266d0e1236431a950cfe52a").unwrap();
    let twice = add(c.g(), c.g(), &c).unwrap();
    assert!(twice.same_as(&CurvePoint::Affine { x, y }));
    assert!(is_on_curve(&twice, &c));
}
