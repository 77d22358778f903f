use ecurve::bignum::BigNum;
use ecurve::curve::{elliptic_equation, CurveParameters, CurvePoint};
use ecurve::field::mod_mul;
use ecurve::residue::{
    find_unit_exponent, is_quadratic_residue, least_non_residue, power_of_two, split_powers_of_two,
    sqrt_mod,
};

fn rnum(v: u64) -> BigNum {
    BigNum::from_u64(v)
}

fn rtoy() -> CurveParameters {
    let g = CurvePoint::Affine { x: rnum(8045), y: rnum(6936) };
    CurveParameters::new(rnum(9739), rnum(497), rnum(1768), g, rnum(3245), rnum(3)).unwrap()
}

#[test]
fn right_hand_side_at_the_base_point_is_a_residue() {
    let c = rtoy();
    let v = elliptic_equation(&rnum(8045), &c);
    assert!(is_quadratic_residue(&v, &rnum(9739)));
}

#[test]
fn is_quadratic_residue_follows_eulers_criterion() {
    let p = rnum(13);
    // the squares modulo 13 are 0, 1, 3, 4, 9, 10, 12
    for (n, expected) in [
        (0u64, true), (1, true), (2, false), (3, true), (4, true), (5, false), (6, false),
        (7, false), (8, false), (9, true), (10, true), (11, false), (12, true), (13, true),
        (14, true), (15, false),
    ] {
        assert_eq!(is_quadratic_residue(&rnum(n), &p), expected);
    }
    assert!(is_quadratic_residue(&BigNum::from_i64(-1), &p));
    assert!(!is_quadratic_residue(&rnum(4378), &rnum(9739)));
}

#[test]
fn split_powers_of_two_takes_out_the_factors_two() {
    let (q, s) = split_powers_of_two(&rnum(9738));
    assert!(q.equals(&rnum(4869)) && s.equals(&rnum(1)));
    let (q, s) = split_powers_of_two(&rnum(65536));
    assert!(q.equals(&rnum(1)) && s.equals(&rnum(16)));
    let (q, s) = split_powers_of_two(&rnum(40));
    assert!(q.equals(&rnum(5)) && s.equals(&rnum(3)));
    let (q, s) = split_powers_of_two(&rnum(7));
    assert!(q.equals(&rnum(7)) && s.equals(&rnum(0)));
    let (q, s) = split_powers_of_two(&rnum(1));
    assert!(q.equals(&rnum(1)) && s.equals(&rnum(0)));
}

#[test]
fn least_non_residue_is_the_first_to_fail_the_criterion() {
    assert!(least_non_residue(&rnum(9739)).unwrap().equals(&rnum(2)));
    assert!(least_non_residue(&rnum(17)).unwrap().equals(&rnum(3)));
    assert!(least_non_residue(&rnum(7)).unwrap().equals(&rnum(3)));
    assert!(least_non_residue(&rnum(13)).unwrap().equals(&rnum(2)));
    assert!(least_non_residue(&rnum(65537)).unwrap().equals(&rnum(3)));
}

#[test]
fn least_non_residue_of_a_modulus_without_one_is_none() {
    assert!(least_non_residue(&rnum(2)).is_none());
    assert!(least_non_residue(&rnum(1)).is_none());
}

#[test]
fn power_of_two_is_exact() {
    assert!(power_of_two(&rnum(0)).equals(&rnum(1)));
    assert!(power_of_two(&rnum(1)).equals(&rnum(2)));
    assert!(power_of_two(&rnum(10)).equals(&rnum(1024)));
    assert!(power_of_two(&rnum(63)).equals(&rnum(1 << 63)));
    assert!(power_of_two(&rnum(100)).equals(&BigNum::from_hex("10000000000000000000000000").unwrap()));
}

#[test]
fn find_unit_exponent_gives_the_least_exponent() {
    // modulo 17: 2^2 = 4, 2^4 = 16, 2^8 = 1
    assert!(find_unit_exponent(&rnum(2), &rnum(17), &rnum(4)).unwrap().equals(&rnum(3)));
    // 4^2 = 16, 4^4 = 1
    assert!(find_unit_exponent(&rnum(4), &rnum(17), &rnum(4)).unwrap().equals(&rnum(2)));
    // 16^2 = 1
    assert!(find_unit_exponent(&rnum(16), &rnum(17), &rnum(4)).unwrap().equals(&rnum(1)));
}

#[test]
fn find_unit_exponent_stays_below_the_bound() {
    assert!(find_unit_exponent(&rnum(2), &rnum(17), &rnum(3)).is_none());
    assert!(find_unit_exponent(&rnum(16), &rnum(17), &rnum(1)).is_none());
    assert!(find_unit_exponent(&rnum(0), &rnum(17), &rnum(9)).is_none());
}

#[test]
fn sqrt_mod_gives_the_known_roots() {
    for (n, p, root) in [
        (7175u64, 9739u64, 6936u64), (1768, 9739, 5321), (2, 17, 6), (10, 13, 7), (3, 13, 9),
        (5, 41, 28), (2, 65537, 4080), (4, 65537, 2), (15, 65537, 23365), (9, 65537, 65534),
        (1, 7, 1),
    ] {
        let found = sqrt_mod(&rnum(n), &rnum(p)).unwrap();
        assert!(found.equals(&rnum(root)));
    }
}

#[test]
fn sqrt_mod_of_a_non_residue_is_none() {
    assert!(sqrt_mod(&rnum(4378), &rnum(9739)).is_none());
    assert!(sqrt_mod(&rnum(3), &rnum(65537)).is_none());
    assert!(sqrt_mod(&rnum(2), &rnum(13)).is_none());
    assert!(sqrt_mod(&rnum(3), &rnum(7)).is_none());
}

#[test]
fn sqrt_mod_of_a_multiple_of_the_modulus_is_zero() {
    assert!(sqrt_mod(&rnum(0), &rnum(9739)).unwrap().is_zero());
    assert!(sqrt_mod(&rnum(9739), &rnum(9739)).unwrap().is_zero());
    assert!(sqrt_mod(&rnum(5), &rnum(1)).unwrap().is_zero());
}

#[test]
fn sqrt_mod_modulo_two_finds_no_root_of_one() {
    // modulo 2 every number passes the criterion, so no z is found
    assert!(sqrt_mod(&rnum(1), &rnum(2)).is_none());
    assert!(sqrt_mod(&rnum(4), &rnum(2)).unwrap().is_zero());
}

#[test]
fn sqrt_mod_squared_gives_the_residue_back() {
    let c = rtoy();
    let p = rnum(9739);
    let mut residues = 0;
    for x in 0..1200u64 {
        let v = elliptic_equation(&rnum(x), &c);
        if is_quadratic_residue(&v, &p) {
            residues += 1;
            let root = sqrt_mod(&v, &p).unwrap();
            assert!(!root.is_negative() && root.less_than(&p));
            assert!(mod_mul(&root, &root, &p).equals(&v));
        } else {
            assert!(sqrt_mod(&v, &p).is_none());
        }
    }
    assert!(residues > 0);
}

#[test]
fn sqrt_mod_works_where_many_squarings_are_needed() {
    // 65537 - 1 = 2^16: the exponent 2^(M-i-1) goes beyond 2^10
    let p = rnum(65537);
    for n in 1..300u64 {
        let n = rnum(n);
        match sqrt_mod(&n, &p) {
            Some(root) => {
                assert!(is_quadratic_residue(&n, &p));
                assert!(mod_mul(&root, &root, &p).equals(&n));
            }
            None => assert!(!is_quadratic_residue(&n, &p)),
        }
    }
}

#[test]
fn sqrt_mod_takes_any_representative() {
    // -3 = 10 (mod 13)
    let root = sqrt_mod(&BigNum::from_i64(-3), &rnum(13)).unwrap();
    assert!(root.equals(&rnum(7)));
}
