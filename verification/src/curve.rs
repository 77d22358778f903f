//! Points of a short-Weierstrass curve and the addition law.

use crate::bignum::{big_add, big_mul, big_sub, is_inverse, BigNum};
use crate::error::EcError;
use crate::field::{
    cong, has_inverse, is_prime, lemma_cong_add, lemma_cong_mul, lemma_cong_residue,
    lemma_cong_sub, lemma_inverse_found, lemma_prime_divides_product, lemma_prime_has_inverse,
    lemma_small_multiple_is_zero, mod_add, mod_inverse, mod_mul, modinv, normalize,
};
use vstd::arithmetic::div_mod::lemma_small_mod;
use vstd::prelude::*;

verus! {

/// A point as the mathematics sees it: the point at infinity, or a pair of
/// integers.
pub enum PointView {
    Identity,
    Affine { x: int, y: int },
}

/// The domain parameters as the mathematics sees them.
pub struct CurveSpec {
    pub p: int,
    pub a: int,
    pub b: int,
    pub g: PointView,
    pub n: int,
    pub h: int,
}

/// The cubic `x^3 + a*x + b` on the right of the curve equation.
pub open spec fn weierstrass(x: int, a: int, b: int) -> int {
    x * x * x + a * x + b
}

/// What is left of the curve equation on the line of slope `l` through
/// `(x1, y1)`, at the abscissa `x1 + u`: the cubic minus the squared
/// ordinate of the line. It vanishes modulo `p` exactly at the points where
/// the line meets the curve.
pub open spec fn line_defect(x1: int, y1: int, l: int, a: int, b: int, u: int) -> int {
    weierstrass(x1 + u, a, b) - (l * u + y1) * (l * u + y1)
}

/// The factor that the defects at the second and at the third intersection
/// have in common: `defect(u) = defect(0) + u * chord_factor` for both.
pub open spec fn chord_factor(x1: int, y1: int, x2: int, l: int, a: int) -> int {
    (3 * x1 * x1 + a - 2 * l * y1) - (x2 - x1) * (l * l - 2 * x1 - x2)
}

/// `(x + u)^3 = x^3 + u * (3*x^2 + u * (3*x + u))`.
proof fn lemma_cube_shift(x: int, u: int)
    ensures
        (x + u) * (x + u) * (x + u) == x * x * x + u * (3 * x * x + u * (3 * x + u)),
{
    let xx = x * x;
    let xu = x * u;
    let uu = u * u;
    let sq = (x + u) * (x + u);
    assert(sq == xx + 2 * xu + uu) by (nonlinear_arith)
        requires
            sq == (x + u) * (x + u),
            xx == x * x,
            xu == x * u,
            uu == u * u,
    ;
    assert(sq * (x + u) == xx * x + 2 * (xu * x) + uu * x + xx * u + 2 * (xu * u) + uu * u)
        by (nonlinear_arith)
        requires
            sq == xx + 2 * xu + uu,
    ;
    assert(xu * x == xx * u) by (nonlinear_arith)
        requires
            xx == x * x,
            xu == x * u,
    ;
    assert(xu * u == uu * x) by (nonlinear_arith)
        requires
            uu == u * u,
            xu == x * u,
    ;
    let inner = 3 * x + u;
    assert(u * inner == 3 * xu + uu) by (nonlinear_arith)
        requires
            inner == 3 * x + u,
            xu == x * u,
            uu == u * u,
    ;
    assert(3 * x * x == 3 * xx) by (nonlinear_arith)
        requires
            xx == x * x,
    ;
    let outer = 3 * xx + u * inner;
    assert(u * outer == 3 * (xx * u) + 3 * (xu * u) + uu * u) by (nonlinear_arith)
        requires
            outer == 3 * xx + (3 * xu + uu),
    ;
}

proof fn lemma_cubic_shift(x1: int, a: int, b: int, u: int)
    ensures
        weierstrass(x1 + u, a, b) == weierstrass(x1, a, b) + u * ((3 * x1 * x1 + a) + u * (3 * x1
            + u)),
{
    lemma_cube_shift(x1, u);
    let m = 3 * x1 * x1 + u * (3 * x1 + u);
    assert(a * (x1 + u) == a * x1 + u * a) by (nonlinear_arith);
    assert(u * (m + a) == u * m + u * a) by (nonlinear_arith);
    assert((3 * x1 * x1 + a) + u * (3 * x1 + u) == m + a);
}

proof fn lemma_line_square(y1: int, l: int, u: int)
    ensures
        (l * u + y1) * (l * u + y1) == y1 * y1 + u * (2 * l * y1 + u * (l * l)),
{
    let lu = l * u;
    let ly = l * y1;
    assert((lu + y1) * (lu + y1) == lu * lu + 2 * (lu * y1) + y1 * y1) by (nonlinear_arith);
    assert(lu * lu == u * (u * (l * l))) by (nonlinear_arith)
        requires
            lu == l * u,
    ;
    assert(lu * y1 == u * ly) by (nonlinear_arith)
        requires
            lu == l * u,
            ly == l * y1,
    ;
    assert(2 * l * y1 == 2 * ly) by (nonlinear_arith)
        requires
            ly == l * y1,
    ;
    let t = u * (l * l);
    assert(u * (2 * ly + t) == 2 * (u * ly) + u * t) by (nonlinear_arith);
}

/// The defect as a polynomial in `u`, in nested form.
proof fn lemma_line_defect_expand(x1: int, y1: int, l: int, a: int, b: int, u: int)
    ensures
        line_defect(x1, y1, l, a, b, u) == line_defect(x1, y1, l, a, b, 0) + u * ((3 * x1 * x1 + a
            - 2 * l * y1) + u * ((3 * x1 - l * l) + u)),
{
    lemma_cubic_shift(x1, a, b, u);
    lemma_line_square(y1, l, u);
    let fa = 3 * x1 * x1 + a;
    let fb = 3 * x1 + u;
    let la = 2 * l * y1;
    let lb = l * l;
    assert(u * (fa + u * fb) - u * (la + u * lb) == u * ((fa - la) + u * (fb - lb)))
        by (nonlinear_arith);
    assert((l * 0 + y1) * (l * 0 + y1) == y1 * y1) by (nonlinear_arith);
    assert(x1 + 0 == x1);
}

/// At the second and the third intersection the nested form collapses to
/// `defect(0) + u * chord_factor`.
proof fn lemma_line_defect_at_roots(x1: int, y1: int, x2: int, l: int, a: int, b: int)
    ensures
        line_defect(x1, y1, l, a, b, x2 - x1) == line_defect(x1, y1, l, a, b, 0) + (x2 - x1)
            * chord_factor(x1, y1, x2, l, a),
        line_defect(x1, y1, l, a, b, l * l - 2 * x1 - x2) == line_defect(x1, y1, l, a, b, 0) + (l
            * l - 2 * x1 - x2) * chord_factor(x1, y1, x2, l, a),
{
    let u2 = x2 - x1;
    let u3 = l * l - 2 * x1 - x2;
    let g1 = 3 * x1 * x1 + a - 2 * l * y1;
    lemma_line_defect_expand(x1, y1, l, a, b, u2);
    lemma_line_defect_expand(x1, y1, l, a, b, u3);
    assert((3 * x1 - l * l) + u2 == -u3);
    assert((3 * x1 - l * l) + u3 == -u2);
    assert(u2 * (-u3) == -(u2 * u3)) by (nonlinear_arith);
    assert(u3 * (-u2) == -(u2 * u3)) by (nonlinear_arith);
}

/// The third point of a line lies on the curve when the first one does and
/// the chord factor vanishes: with `x3 = l^2 - x1 - x2` and
/// `y3 = l*(x1 - x3) - y1`, `y3^2 ≡ x3^3 + a*x3 + b`.
proof fn lemma_third_point_on_curve(x1: int, y1: int, x2: int, l: int, a: int, b: int, p: int)
    requires
        p > 0,
        cong(y1 * y1, weierstrass(x1, a, b), p),
        cong(chord_factor(x1, y1, x2, l, a), 0, p),
    ensures
        ({
            let x3 = l * l - x1 - x2;
            let y3 = l * (x1 - x3) - y1;
            cong(y3 * y3, weierstrass(x3, a, b), p)
        }),
{
    let x3 = l * l - x1 - x2;
    let y3 = l * (x1 - x3) - y1;
    let u3 = l * l - 2 * x1 - x2;
    let k = chord_factor(x1, y1, x2, l, a);
    let d0 = line_defect(x1, y1, l, a, b, 0);
    lemma_line_defect_at_roots(x1, y1, x2, l, a, b);
    // the defect at the first point vanishes
    assert((l * 0 + y1) * (l * 0 + y1) == y1 * y1) by (nonlinear_arith);
    assert(x1 + 0 == x1);
    lemma_cong_sub(weierstrass(x1, a, b), y1 * y1, y1 * y1, y1 * y1, p);
    assert(cong(d0, 0, p));
    // so does the defect at the third
    lemma_cong_mul(u3, u3, k, 0, p);
    assert(u3 * 0 == 0);
    lemma_cong_add(d0, 0, u3 * k, 0, p);
    assert(cong(line_defect(x1, y1, l, a, b, u3), 0, p));
    // which is the curve equation for (x3, y3)
    assert(x1 + u3 == x3);
    assert(l * u3 + y1 == -y3) by (nonlinear_arith)
        requires
            u3 == x3 - x1,
            y3 == l * (x1 - x3) - y1,
    ;
    assert((-y3) * (-y3) == y3 * y3) by (nonlinear_arith);
    let w = weierstrass(x3, a, b);
    lemma_cong_add(w - y3 * y3, 0, y3 * y3, y3 * y3, p);
}

/// Congruent abscissas give congruent values of the cubic.
proof fn lemma_cong_weierstrass(x: int, z: int, a: int, b: int, p: int)
    requires
        p > 0,
        cong(x, z, p),
    ensures
        cong(weierstrass(x, a, b), weierstrass(z, a, b), p),
{
    lemma_cong_mul(x, z, x, z, p);
    lemma_cong_mul(x * x, z * z, x, z, p);
    lemma_cong_mul(a, a, x, z, p);
    lemma_cong_add(x * x * x, z * z * z, a * x, a * z, p);
    lemma_cong_add(x * x * x + a * x, z * z * z + a * z, b, b, p);
}

/// A slope `l` with `l * den ≡ num`, where `den` has the inverse `d`.
proof fn lemma_slope_times_den(num: int, den: int, d: int, p: int)
    requires
        p > 0,
        is_inverse(den, d, p),
    ensures
        cong(((num * d) % p) * den, num, p),
{
    let l = (num * d) % p;
    lemma_cong_residue(num * d, p);
    lemma_cong_mul(l, num * d, den, den, p);
    assert((num * d) * den == num * (den * d)) by (nonlinear_arith);
    lemma_cong_mul(num, num, den * d, 1, p);
    assert(num * 1 == num);
}

/// For the line through two points of the curve with distinct abscissas the
/// chord factor vanishes.
proof fn lemma_chord_factor_vanishes(
    x1: int,
    y1: int,
    x2: int,
    y2: int,
    d: int,
    a: int,
    b: int,
    p: int,
)
    requires
        p > 0,
        cong(y1 * y1, weierstrass(x1, a, b), p),
        cong(y2 * y2, weierstrass(x2, a, b), p),
        is_inverse(x2 - x1, d, p),
    ensures
        cong(chord_factor(x1, y1, x2, ((y2 - y1) * d) % p, a), 0, p),
{
    let l = ((y2 - y1) * d) % p;
    let u2 = x2 - x1;
    let k = chord_factor(x1, y1, x2, l, a);
    let d0 = line_defect(x1, y1, l, a, b, 0);
    let d2 = line_defect(x1, y1, l, a, b, u2);
    lemma_line_defect_at_roots(x1, y1, x2, l, a, b);
    // the defect vanishes at the first point
    assert((l * 0 + y1) * (l * 0 + y1) == y1 * y1) by (nonlinear_arith);
    assert(x1 + 0 == x1);
    lemma_cong_sub(weierstrass(x1, a, b), y1 * y1, y1 * y1, y1 * y1, p);
    assert(cong(d0, 0, p));
    // and at the second, where the line passes through (x2, y2)
    lemma_slope_times_den(y2 - y1, u2, d, p);
    lemma_cong_add(l * u2, y2 - y1, y1, y1, p);
    let ly = l * u2 + y1;
    lemma_cong_mul(ly, y2, ly, y2, p);
    assert(x1 + u2 == x2);
    lemma_cong_sub(weierstrass(x2, a, b), y2 * y2, ly * ly, y2 * y2, p);
    assert(cong(d2, 0, p));
    // so u2 * k vanishes, and with it k itself
    lemma_cong_sub(d2, 0, d0, 0, p);
    assert(cong(u2 * k, 0, p));
    lemma_cong_mul(u2 * k, 0, d, d, p);
    assert((u2 * k) * d == k * (u2 * d)) by (nonlinear_arith);
    assert(0 * d == 0);
    lemma_cong_mul(k, k, u2 * d, 1, p);
    assert(k * 1 == k);
}

/// For the tangent at a point the chord factor vanishes.
proof fn lemma_tangent_factor_vanishes(x1: int, y1: int, d: int, a: int, p: int)
    requires
        p > 0,
        is_inverse(2 * y1, d, p),
    ensures
        cong(chord_factor(x1, y1, x1, ((3 * (x1 * x1) + a) * d) % p, a), 0, p),
{
    let num = 3 * (x1 * x1) + a;
    let l = (num * d) % p;
    lemma_slope_times_den(num, 2 * y1, d, p);
    lemma_cong_sub(num, num, l * (2 * y1), num, p);
    assert(chord_factor(x1, y1, x1, l, a) == num - l * (2 * y1)) by (nonlinear_arith)
        requires
            num == 3 * (x1 * x1) + a,
    ;
}

/// The slope `num / den` in the field: `num` times the inverse of `den`.
pub open spec fn slope_of(num: int, den: int, p: int) -> int {
    (num * mod_inverse(den, p)) % p
}

/// The point where the line of slope `l` through `(x1, y1)` and a point of
/// abscissa `x2` meets the curve again, mirrored at the x-axis.
pub open spec fn third_point_of(l: int, x1: int, y1: int, x2: int, p: int) -> PointView {
    let x3 = (l * l - x1 - x2) % p;
    PointView::Affine { x: x3, y: (l * (x1 - x3) - y1) % p }
}

impl CurveSpec {
    /// What the arithmetic asks of domain parameters: a modulus of at
    /// least two, coefficients that are residues, an affine base point on
    /// the curve, an order of at least two and a positive cofactor.
    pub open spec fn well_formed(self) -> bool {
        &&& self.p >= 2
        &&& 0 <= self.a < self.p
        &&& 0 <= self.b < self.p
        &&& self.g is Affine
        &&& self.on_curve(self.g)
        &&& self.n >= 2
        &&& self.h >= 1
    }

    /// What every set of domain parameters satisfies: it is well-formed,
    /// and `n` times the base point, as double-and-add computes it, is the
    /// identity. That the modulus and `n` are prime, and that the cofactor
    /// is what it is said to be, lies with whoever chose the parameters.
    pub open spec fn valid(self) -> bool {
        &&& self.well_formed()
        &&& self.mul(self.n, self.g) == Ok::<PointView, EcError>(PointView::Identity)
    }

    /// The point is the identity, or its coordinates are residues that
    /// satisfy `y^2 ≡ x^3 + a*x + b (mod p)`.
    pub open spec fn on_curve(self, pt: PointView) -> bool {
        match pt {
            PointView::Identity => true,
            PointView::Affine { x, y } => {
                &&& 0 <= x < self.p
                &&& 0 <= y < self.p
                &&& cong(y * y, weierstrass(x, self.a, self.b), self.p)
            },
        }
    }

    /// The sum of two points. The identity is neutral; a point and its
    /// mirror image give the identity; otherwise the sum is the third
    /// point of the tangent (for a point and itself) or of the chord. The
    /// slope is undefined where its denominator has no inverse.
    pub open spec fn add(self, left: PointView, right: PointView) -> Result<PointView, EcError> {
        match (left, right) {
            (PointView::Identity, _) => Ok(right),
            (_, PointView::Identity) => Ok(left),
            (PointView::Affine { x: x1, y: y1 }, PointView::Affine { x: x2, y: y2 }) => {
                if x1 == x2 && (y1 + y2) % self.p == 0 {
                    Ok(PointView::Identity)
                } else {
                    let doubling = x1 == x2 && y1 == y2;
                    let num = if doubling {
                        3 * (x1 * x1) + self.a
                    } else {
                        y2 - y1
                    };
                    let den = if doubling {
                        2 * y1
                    } else {
                        x2 - x1
                    };
                    if has_inverse(den, self.p) {
                        Ok(third_point_of(slope_of(num, den, self.p), x1, y1, x2, self.p))
                    } else {
                        Err(EcError::UndefinedSlope)
                    }
                }
            },
        }
    }
}

/// The third point of a line whose chord factor vanishes lies on the curve,
/// also after its coordinates were reduced.
proof fn lemma_reduced_third_point_on_curve(c: CurveSpec, x1: int, y1: int, x2: int, l: int)
    requires
        c.p > 0,
        cong(y1 * y1, weierstrass(x1, c.a, c.b), c.p),
        cong(chord_factor(x1, y1, x2, l, c.a), 0, c.p),
    ensures
        c.on_curve(third_point_of(l, x1, y1, x2, c.p)),
{
    let p = c.p;
    let big_x = l * l - x1 - x2;
    let big_y = l * (x1 - big_x) - y1;
    let x3 = big_x % p;
    let mid_y = l * (x1 - x3) - y1;
    let y3 = mid_y % p;
    lemma_third_point_on_curve(x1, y1, x2, l, c.a, c.b, p);
    lemma_cong_residue(big_x, p);
    lemma_cong_residue(mid_y, p);
    lemma_cong_sub(x1, x1, x3, big_x, p);
    lemma_cong_mul(l, l, x1 - x3, x1 - big_x, p);
    lemma_cong_sub(l * (x1 - x3), l * (x1 - big_x), y1, y1, p);
    lemma_cong_mul(y3, big_y, y3, big_y, p);
    lemma_cong_weierstrass(x3, big_x, c.a, c.b, p);
}

/// The curve is closed under addition: where the sum of two points of the
/// curve is defined, it is a point of the curve.
pub proof fn lemma_add_on_curve(c: CurveSpec, left: PointView, right: PointView)
    requires
        c.p > 0,
        c.on_curve(left),
        c.on_curve(right),
    ensures
        c.add(left, right) matches Ok(sum) ==> c.on_curve(sum),
{
    match (left, right) {
        (PointView::Affine { x: x1, y: y1 }, PointView::Affine { x: x2, y: y2 }) => {
            if !(x1 == x2 && (y1 + y2) % c.p == 0) {
                let doubling = x1 == x2 && y1 == y2;
                if doubling {
                    if has_inverse(2 * y1, c.p) {
                        let d = mod_inverse(2 * y1, c.p);
                        lemma_tangent_factor_vanishes(x1, y1, d, c.a, c.p);
                        lemma_reduced_third_point_on_curve(
                            c,
                            x1,
                            y1,
                            x1,
                            slope_of(3 * (x1 * x1) + c.a, 2 * y1, c.p),
                        );
                    }
                } else {
                    if has_inverse(x2 - x1, c.p) {
                        let d = mod_inverse(x2 - x1, c.p);
                        lemma_chord_factor_vanishes(x1, y1, x2, y2, d, c.a, c.b, c.p);
                        lemma_reduced_third_point_on_curve(
                            c,
                            x1,
                            y1,
                            x2,
                            slope_of(y2 - y1, x2 - x1, c.p),
                        );
                    }
                }
            }
        },
        _ => {},
    }
}

/// Over a prime field the sum of two points of the curve is always
/// defined: the denominator of the slope is no multiple of `p`.
pub proof fn lemma_add_total(c: CurveSpec, left: PointView, right: PointView)
    requires
        is_prime(c.p),
        c.on_curve(left),
        c.on_curve(right),
    ensures
        c.add(left, right) is Ok,
{
    match (left, right) {
        (PointView::Affine { x: x1, y: y1 }, PointView::Affine { x: x2, y: y2 }) => {
            let p = c.p;
            if !(x1 == x2 && (y1 + y2) % p == 0) {
                if x1 == x2 {
                    if y1 != y2 {
                        // y1^2 = y2^2, so p divides (y1 - y2) * (y1 + y2)
                        lemma_cong_sub(y1 * y1, y2 * y2, y2 * y2, y2 * y2, p);
                        assert(y1 * y1 - y2 * y2 == (y1 - y2) * (y1 + y2)) by (nonlinear_arith);
                        lemma_small_mod(0, p as nat);
                        lemma_prime_divides_product(y1 - y2, y1 + y2, p);
                        lemma_small_multiple_is_zero(y1 - y2, p);
                    } else {
                        lemma_prime_has_inverse(2 * y1, p);
                    }
                } else {
                    if (x2 - x1) % p == 0 {
                        lemma_small_multiple_is_zero(x2 - x1, p);
                    }
                    lemma_prime_has_inverse(x2 - x1, p);
                }
            }
        },
        _ => {},
    }
}

/// Negating a number negates its inverse.
proof fn lemma_inverse_of_negation(a: int, d: int, p: int)
    requires
        p > 0,
        is_inverse(a, d, p),
    ensures
        is_inverse(-a, (-d) % p, p),
{
    lemma_cong_residue(-d, p);
    lemma_cong_mul(-a, -a, (-d) % p, -d, p);
    assert((-a) * (-d) == a * d) by (nonlinear_arith);
}

/// The chord from one point to another has the slope of the chord back,
/// and leads to the same third point.
proof fn lemma_chord_commutes(x1: int, y1: int, x2: int, y2: int, p: int)
    requires
        p > 0,
        has_inverse(x2 - x1, p),
    ensures
        has_inverse(x1 - x2, p),
        slope_of(y1 - y2, x1 - x2, p) == slope_of(y2 - y1, x2 - x1, p),
        third_point_of(slope_of(y2 - y1, x2 - x1, p), x1, y1, x2, p) == third_point_of(
            slope_of(y2 - y1, x2 - x1, p),
            x2,
            y2,
            x1,
            p,
        ),
{
    let num = y2 - y1;
    let den = x2 - x1;
    let d = mod_inverse(den, p);
    let back = (-d) % p;
    lemma_inverse_of_negation(den, d, p);
    lemma_inverse_found(-den, back, p);
    let l = slope_of(num, den, p);
    // the slopes agree: (-num) * (-d) = num * d
    lemma_cong_residue(-d, p);
    lemma_cong_mul(-num, -num, back, -d, p);
    assert((-num) * (-d) == num * d) by (nonlinear_arith);
    assert(slope_of(-num, -den, p) == l);
    // and so do the ordinates, as l * den = num
    lemma_slope_times_den(num, den, d, p);
    let x3 = (l * l - x1 - x2) % p;
    let there = l * (x1 - x3) - y1;
    let here = l * (x2 - x3) - y2;
    lemma_cong_sub(num, l * den, l * den, l * den, p);
    assert(there == here + (num - l * den)) by (nonlinear_arith)
        requires
            there == l * (x1 - x3) - y1,
            here == l * (x2 - x3) - y2,
            num == y2 - y1,
            den == x2 - x1,
    ;
    lemma_cong_add(here, here, num - l * den, 0, p);
}

/// The addition of points is commutative.
pub proof fn lemma_add_commutes(c: CurveSpec, left: PointView, right: PointView)
    requires
        c.p > 0,
    ensures
        c.add(left, right) == c.add(right, left),
{
    match (left, right) {
        (PointView::Affine { x: x1, y: y1 }, PointView::Affine { x: x2, y: y2 }) => {
            if !(x1 == x2 && (y1 + y2) % c.p == 0) && !(x1 == x2 && y1 == y2) {
                if has_inverse(x2 - x1, c.p) {
                    lemma_chord_commutes(x1, y1, x2, y2, c.p);
                } else if has_inverse(x1 - x2, c.p) {
                    lemma_chord_commutes(x2, y2, x1, y1, c.p);
                }
            }
        },
        _ => {},
    }
}

/// A point of a curve: the identity (the point at infinity), or an affine
/// point given by its two coordinates.
pub enum CurvePoint {
    Identity,
    Affine { x: BigNum, y: BigNum },
}

impl View for CurvePoint {
    type V = PointView;

    open spec fn view(&self) -> PointView {
        match self {
            CurvePoint::Identity => PointView::Identity,
            CurvePoint::Affine { x, y } => PointView::Affine { x: x@, y: y@ },
        }
    }
}

impl Clone for CurvePoint {
    fn clone(&self) -> (r: Self)
        ensures
            r@ == self@,
    {
        match self {
            CurvePoint::Identity => CurvePoint::Identity,
            CurvePoint::Affine { x, y } => CurvePoint::Affine { x: x.clone(), y: y.clone() },
        }
    }
}

impl CurvePoint {
    /// Whether this is the point at infinity.
    pub fn is_identity(&self) -> (r: bool)
        ensures
            r == (self@ is Identity),
    {
        match self {
            CurvePoint::Identity => true,
            CurvePoint::Affine { .. } => false,
        }
    }

    /// Whether the two points are the same: both the identity, or both
    /// affine with the same coordinates.
    pub fn same_as(&self, other: &CurvePoint) -> (r: bool)
        ensures
            r == (self@ == other@),
    {
        match self {
            CurvePoint::Identity => other.is_identity(),
            CurvePoint::Affine { x, y } => match other {
                CurvePoint::Identity => false,
                CurvePoint::Affine { x: ox, y: oy } => x.equals(ox) && y.equals(oy),
            },
        }
    }
}

/// What an operation on points returned, as the mathematics sees it.
pub open spec fn point_result_view(r: Result<CurvePoint, EcError>) -> Result<PointView, EcError> {
    match r {
        Ok(pt) => Ok(pt@),
        Err(e) => Err(e),
    }
}

/// The domain parameters of a curve `y^2 = x^3 + a*x + b` over the integers
/// modulo `p`, with a base point `g` of order `n` and the cofactor `h`.
pub struct CurveParameters {
    p: BigNum,
    a: BigNum,
    b: BigNum,
    g: CurvePoint,
    n: BigNum,
    h: BigNum,
}

impl View for CurveParameters {
    type V = CurveSpec;

    closed spec fn view(&self) -> CurveSpec {
        CurveSpec { p: self.p@, a: self.a@, b: self.b@, g: self.g@, n: self.n@, h: self.h@ }
    }
}

/// `(x^3 + a*x + b) mod p`.
fn cubic_residue(x: &BigNum, p: &BigNum, a: &BigNum, b: &BigNum) -> (r: BigNum)
    requires
        p@ > 0,
    ensures
        r@ == weierstrass(x@, a@, b@) % p@,
        0 <= r@ < p@,
{
    let x2 = big_mul(x, x);
    let x3 = big_mul(&x2, x);
    let ax = big_mul(a, x);
    normalize(&big_add(&big_add(&x3, &ax), b), p)
}

/// Whether `pt` is the identity or an affine point with residues for
/// coordinates that satisfy the curve equation.
fn satisfies_equation(pt: &CurvePoint, p: &BigNum, a: &BigNum, b: &BigNum) -> (r: bool)
    requires
        p@ > 0,
    ensures
        r == (CurveSpec { p: p@, a: a@, b: b@, g: PointView::Identity, n: 0, h: 0 }).on_curve(pt@),
{
    match pt {
        CurvePoint::Identity => true,
        CurvePoint::Affine { x, y } => {
            if x.is_negative() || !x.less_than(p) || y.is_negative() || !y.less_than(p) {
                false
            } else {
                let lhs = mod_mul(y, y, p);
                let rhs = cubic_residue(x, p, a, b);
                lhs.equals(&rhs)
            }
        },
    }
}

impl CurveParameters {
    /// The parameters are valid in the sense of [`CurveSpec::valid`].
    pub open spec fn wf(&self) -> bool {
        self@.valid()
    }

    /// Domain parameters from their six parts, or `None` where the parts
    /// are not valid together. The order is put to the test: `n` times
    /// the base point is computed and must be the identity.
    pub fn new(p: BigNum, a: BigNum, b: BigNum, g: CurvePoint, n: BigNum, h: BigNum) -> (r: Option<
        CurveParameters,
    >)
        ensures
            r is Some <==> (CurveSpec { p: p@, a: a@, b: b@, g: g@, n: n@, h: h@ }).valid(),
            r matches Some(c) ==> c@ == (CurveSpec { p: p@, a: a@, b: b@, g: g@, n: n@, h: h@ })
                && c.wf(),
    {
        let one = BigNum::from_u64(1);
        let two = BigNum::from_u64(2);
        if p.less_than(&two) || n.less_than(&two) || h.less_than(&one) {
            return None;
        }
        if a.is_negative() || !a.less_than(&p) || b.is_negative() || !b.less_than(&p) {
            return None;
        }
        if g.is_identity() || !satisfies_equation(&g, &p, &a, &b) {
            return None;
        }
        let candidate = CurveParameters { p, a, b, g, n, h };
        let end = crate::scalar::scalar_mul(&candidate.n, &candidate.g, &candidate);
        match end {
            Ok(CurvePoint::Identity) => Some(candidate),
            _ => None,
        }
    }

    /// The modulus of the field.
    pub fn p(&self) -> (r: &BigNum)
        ensures
            r@ == self@.p,
    {
        &self.p
    }

    /// The coefficient of `x` in the curve equation.
    pub fn a(&self) -> (r: &BigNum)
        ensures
            r@ == self@.a,
    {
        &self.a
    }

    /// The constant term of the curve equation.
    pub fn b(&self) -> (r: &BigNum)
        ensures
            r@ == self@.b,
    {
        &self.b
    }

    /// The base point.
    pub fn g(&self) -> (r: &CurvePoint)
        ensures
            r@ == self@.g,
    {
        &self.g
    }

    /// The order of the base point.
    pub fn n(&self) -> (r: &BigNum)
        ensures
            r@ == self@.n,
    {
        &self.n
    }

    /// The cofactor.
    pub fn h(&self) -> (r: &BigNum)
        ensures
            r@ == self@.h,
    {
        &self.h
    }
}

/// The right-hand side of the curve equation at `x`:
/// `(x^3 + a*x + b) mod p`.
pub fn elliptic_equation(x: &BigNum, params: &CurveParameters) -> (r: BigNum)
    requires
        params@.well_formed(),
    ensures
        r@ == weierstrass(x@, params@.a, params@.b) % params@.p,
{
    cubic_residue(x, &params.p, &params.a, &params.b)
}

/// Whether the point lies on the curve: it is the identity, or its
/// coordinates are residues that satisfy the curve equation.
pub fn is_on_curve(pt: &CurvePoint, params: &CurveParameters) -> (r: bool)
    requires
        params@.well_formed(),
    ensures
        r == params@.on_curve(pt@),
{
    satisfies_equation(pt, &params.p, &params.a, &params.b)
}

/// The slope of the tangent at `(x1, y1)`: `(3*x1^2 + a) / (2*y1)` in the
/// field. Fails with `UndefinedSlope` exactly when `2*y1` has no inverse.
pub fn tangent_slope(x1: &BigNum, y1: &BigNum, params: &CurveParameters) -> (r: Result<
    BigNum,
    EcError,
>)
    requires
        params@.well_formed(),
    ensures
        r is Ok <==> has_inverse(2 * y1@, params@.p),
        r matches Ok(l) ==> l@ == slope_of(3 * (x1@ * x1@) + params@.a, 2 * y1@, params@.p),
        r matches Err(e) ==> e == EcError::UndefinedSlope,
{
    let den = big_mul(&BigNum::from_u64(2), y1);
    match modinv(&den, &params.p) {
        Ok(inv) => {
            let num = big_add(&big_mul(&BigNum::from_u64(3), &big_mul(x1, x1)), &params.a);
            Ok(mod_mul(&num, &inv, &params.p))
        },
        Err(_) => Err(EcError::UndefinedSlope),
    }
}

/// The slope of the chord from `(x1, y1)` to `(x2, y2)`:
/// `(y2 - y1) / (x2 - x1)` in the field. Fails with `UndefinedSlope`
/// exactly when `x2 - x1` has no inverse.
pub fn chord_slope(
    x1: &BigNum,
    y1: &BigNum,
    x2: &BigNum,
    y2: &BigNum,
    params: &CurveParameters,
) -> (r: Result<BigNum, EcError>)
    requires
        params@.well_formed(),
    ensures
        r is Ok <==> has_inverse(x2@ - x1@, params@.p),
        r matches Ok(l) ==> l@ == slope_of(y2@ - y1@, x2@ - x1@, params@.p),
        r matches Err(e) ==> e == EcError::UndefinedSlope,
{
    let den = big_sub(x2, x1);
    match modinv(&den, &params.p) {
        Ok(inv) => {
            let num = big_sub(y2, y1);
            Ok(mod_mul(&num, &inv, &params.p))
        },
        Err(_) => Err(EcError::UndefinedSlope),
    }
}

/// The sum of two points on a line of the given slope, the first being
/// `(x1, y1)` and the second having the abscissa `x2`:
/// `x3 = slope^2 - x1 - x2`, `y3 = slope*(x1 - x3) - y1`, both reduced.
pub fn third_point(
    slope: &BigNum,
    x1: &BigNum,
    y1: &BigNum,
    x2: &BigNum,
    params: &CurveParameters,
) -> (r: CurvePoint)
    requires
        params@.well_formed(),
    ensures
        r@ == third_point_of(slope@, x1@, y1@, x2@, params@.p),
{
    let x3 = normalize(&big_sub(&big_sub(&big_mul(slope, slope), x1), x2), &params.p);
    let y3 = normalize(&big_sub(&big_mul(slope, &big_sub(x1, &x3)), y1), &params.p);
    CurvePoint::Affine { x: x3, y: y3 }
}

/// The sum of two points under the group law of the curve.
///
/// The identity is neutral. A point and its mirror image (same `x`, and
/// ordinates that add up to zero modulo `p`) give the identity. A point
/// added to itself is doubled along its tangent; two other points are
/// joined by their chord. Fails with `UndefinedSlope` exactly when the
/// denominator of the slope has no inverse, which for a prime modulus
/// happens on no pair of points of the curve.
pub fn add(left: &CurvePoint, right: &CurvePoint, params: &CurveParameters) -> (r: Result<
    CurvePoint,
    EcError,
>)
    requires
        params@.well_formed(),
    ensures
        point_result_view(r) == params@.add(left@, right@),
        r matches Err(e) ==> e == EcError::UndefinedSlope,
        params@.on_curve(left@) && params@.on_curve(right@) ==> (r matches Ok(sum) ==> params@.on_curve(
            sum@,
        )),
        is_prime(params@.p) && params@.on_curve(left@) && params@.on_curve(right@) ==> r is Ok,
{
    proof {
        if params@.on_curve(left@) && params@.on_curve(right@) {
            lemma_add_on_curve(params@, left@, right@);
            if is_prime(params@.p) {
                lemma_add_total(params@, left@, right@);
            }
        }
    }
    match left {
        CurvePoint::Identity => Ok(right.clone()),
        CurvePoint::Affine { x: x1, y: y1 } => match right {
            CurvePoint::Identity => Ok(left.clone()),
            CurvePoint::Affine { x: x2, y: y2 } => {
                let same_x = x1.equals(x2);
                if same_x && mod_add(y1, y2, &params.p).is_zero() {
                    Ok(CurvePoint::Identity)
                } else {
                    let slope = if same_x && y1.equals(y2) {
                        tangent_slope(x1, y1, params)
                    } else {
                        chord_slope(x1, y1, x2, y2, params)
                    };
                    match slope {
                        Ok(l) => Ok(third_point(&l, x1, y1, x2, params)),
                        Err(e) => Err(e),
                    }
                }
            },
        },
    }
}

} // verus!
