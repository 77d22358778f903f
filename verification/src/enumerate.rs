//! Enumeration of the points of a small curve: the table of ordinates for
//! every abscissa, and the orbit of a point under repeated addition.

use crate::bignum::{big_add, big_sub, BigNum};
use crate::curve::{
    elliptic_equation, lemma_add_commutes, weierstrass, CurveParameters, CurvePoint, CurveSpec,
    PointView,
};
use crate::group::{
    lemma_base_multiple_periodic, lemma_group_from_associativity, lemma_multiple_is_repeated,
};
use crate::error::EcError;
use crate::field::{is_prime, lemma_cong_residue};
use crate::residue::{
    is_root_mod, is_square_mod, lemma_euler_criterion, lemma_sqrt_mod_complete, lemma_sqrt_mod_squares,
    sqrt_mod, sqrt_mod_of,
};
use vstd::arithmetic::div_mod::lemma_mod_multiples_vanish;
use vstd::prelude::*;

verus! {

impl CurveSpec {
    /// The two ordinates `(y, p - y)` of the curve at the abscissa `x`,
    /// where the right-hand side of the equation has a square root `y`.
    pub open spec fn roots_at(self, x: int) -> Option<(int, int)> {
        match sqrt_mod_of(weierstrass(x, self.a, self.b) % self.p, self.p) {
            Some(y) => Some((y, self.p - y)),
            None => None,
        }
    }

    /// The point `(i + 2) * base` as repeated addition reaches it: the
    /// base point doubled, and then the base point added `i` times.
    pub open spec fn orbit_at(self, base: PointView, i: int) -> Result<PointView, EcError>
        decreases i,
    {
        if i <= 0 {
            self.add(base, base)
        } else {
            match self.orbit_at(base, i - 1) {
                Ok(prev) => self.add(base, prev),
                Err(e) => Err(e),
            }
        }
    }
}

/// What the table holds at an abscissa are the ordinates of the curve
/// there: `(x, y)` lies on the curve, and so does `(x, p - y)` unless `y`
/// is zero. Over an odd prime field the table holds a pair at exactly the
/// abscissas of the affine points of the curve.
pub proof fn lemma_roots_at(c: CurveSpec, x: int)
    requires
        c.p > 0,
        0 <= x < c.p,
    ensures
        c.roots_at(x) matches Some((y, z)) ==> z == c.p - y && c.on_curve(
            PointView::Affine { x, y },
        ) && (y != 0 ==> c.on_curve(PointView::Affine { x, y: z })),
        is_prime(c.p) && c.p >= 3 ==> (c.roots_at(x) is Some <==> exists|y: int|
            #[trigger] c.on_curve(PointView::Affine { x, y })),
{
    let p = c.p;
    let w = weierstrass(x, c.a, c.b);
    lemma_cong_residue(w, p);
    lemma_sqrt_mod_squares(w % p, p);
    if let Some(y) = sqrt_mod_of(w % p, p) {
        // (p - y)^2 = y^2 modulo p
        assert((p - y) * (p - y) == p * (p - 2 * y) + y * y) by (nonlinear_arith);
        lemma_mod_multiples_vanish(p - 2 * y, y * y, p);
        assert(c.on_curve(PointView::Affine { x, y }));
    }
    if is_prime(p) && p >= 3 {
        lemma_euler_criterion(w % p, p);
        if sqrt_mod_of(w % p, p) is None {
            assert forall|y: int| !#[trigger] c.on_curve(PointView::Affine { x, y }) by {
                if c.on_curve(PointView::Affine { x, y }) {
                    assert(is_root_mod(y, w % p, p));
                    assert(is_square_mod(w % p, p));
                    lemma_sqrt_mod_complete(w % p, p);
                }
            }
        }
    }
}

/// Entry `i` of the orbit is the point added to itself `i + 2` times.
pub proof fn lemma_orbit_is_repeated(c: CurveSpec, base: PointView, i: int)
    requires
        c.p > 0,
        i >= 0,
    ensures
        c.orbit_at(base, i) == c.repeated(base, i + 2),
    decreases i,
{
    reveal_with_fuel(CurveSpec::repeated, 3);
    if i > 0 {
        lemma_orbit_is_repeated(c, base, i - 1);
        if let Ok(prev) = c.orbit_at(base, i - 1) {
            lemma_add_commutes(c, base, prev);
        }
    }
}

/// Over a prime field on which addition is associative, entry `i` of the
/// orbit of a point of the curve is the multiple `(i + 2) * base`.
pub proof fn lemma_orbit_is_multiple(c: CurveSpec, base: PointView, i: int)
    requires
        is_prime(c.p),
        c.add_is_associative(),
        c.on_curve(base),
        i >= 0,
    ensures
        c.orbit_at(base, i) == c.mul(i + 2, base),
{
    lemma_orbit_is_repeated(c, base, i);
    lemma_multiple_is_repeated(c, base, i + 2);
}

/// Over a prime field on which addition is associative, the orbit of the
/// base point of valid domain parameters reaches the identity at entry
/// `n - 2` and repeats with the period `n`.
pub proof fn lemma_orbit_of_base_point_is_periodic(c: CurveSpec, i: int)
    requires
        c.valid(),
        is_prime(c.p),
        c.add_is_associative(),
        i >= 0,
    ensures
        c.orbit_at(c.g, c.n - 2) == Ok::<PointView, EcError>(PointView::Identity),
        c.orbit_at(c.g, i + c.n) == c.orbit_at(c.g, i),
{
    lemma_group_from_associativity(c);
    lemma_orbit_is_multiple(c, c.g, c.n - 2);
    lemma_orbit_is_multiple(c, c.g, i);
    lemma_orbit_is_multiple(c, c.g, i + c.n);
    lemma_base_multiple_periodic(c, i + 2);
    lemma_base_multiple_periodic(c, i + c.n + 2);
    vstd::arithmetic::div_mod::lemma_mod_add_multiples_vanish(i + 2, c.n);
}

/// A pair of ordinates as the mathematics sees it.
pub open spec fn roots_view(e: Option<(BigNum, BigNum)>) -> Option<(int, int)> {
    match e {
        Some((y, z)) => Some((y@, z@)),
        None => None,
    }
}

/// For every abscissa in `[0, p)` the two ordinates of the curve there, or
/// the note that there is no point.
pub struct PointTable {
    entries: Vec<Option<(BigNum, BigNum)>>,
}

impl View for PointTable {
    type V = Seq<Option<(int, int)>>;

    closed spec fn view(&self) -> Seq<Option<(int, int)>> {
        Seq::new(self.entries@.len(), |i: int| roots_view(self.entries@[i]))
    }
}

impl PointTable {
    /// The number of abscissas that the table covers.
    pub fn len(&self) -> (r: usize)
        ensures
            r == self@.len(),
    {
        self.entries.len()
    }

    /// The ordinates at the abscissa `x`: `None` where the curve has no
    /// point there, and for an `x` that the table does not cover.
    pub fn get(&self, x: usize) -> (r: Option<(BigNum, BigNum)>)
        ensures
            roots_view(r) == if x < self@.len() {
                self@[x as int]
            } else {
                None
            },
    {
        if x < self.entries.len() {
            match &self.entries[x] {
                Some((y, z)) => Some((y.clone(), z.clone())),
                None => None,
            }
        } else {
            None
        }
    }
}

/// The ordinates of the curve at the abscissa `x`: a square root `y` of
/// `x^3 + a*x + b` modulo `p`, and `p - y`. Fails with
/// `NotQuadraticResidue` exactly when no root is found.
pub fn roots_at(x: &BigNum, params: &CurveParameters) -> (r: Result<(BigNum, BigNum), EcError>)
    requires
        params@.well_formed(),
    ensures
        match r {
            Ok((y, z)) => params@.roots_at(x@) == Some((y@, z@)) && z@ == params@.p - y@,
            Err(e) => e == EcError::NotQuadraticResidue && params@.roots_at(x@) is None,
        },
        0 <= x@ < params@.p ==> (r matches Ok((y, z)) ==> params@.on_curve(
            PointView::Affine { x: x@, y: y@ },
        )),
        is_prime(params@.p) && params@.p >= 3 && 0 <= x@ < params@.p ==> (r is Ok <==> exists|
            y: int,
        | #[trigger] params@.on_curve(PointView::Affine { x: x@, y })),
{
    proof {
        if 0 <= x@ < params@.p {
            lemma_roots_at(params@, x@);
        }
    }
    let v = elliptic_equation(x, params);
    match sqrt_mod(&v, params.p()) {
        Some(y) => {
            let z = big_sub(params.p(), &y);
            Ok((y, z))
        },
        None => Err(EcError::NotQuadraticResidue),
    }
}

/// The table of the curve: for every `x` in `[0, p)`, in order, the
/// ordinates at `x`.
pub fn build_point_table(params: &CurveParameters) -> (table: PointTable)
    requires
        params@.well_formed(),
    ensures
        table@.len() == params@.p,
        forall|x: int| 0 <= x < params@.p ==> table@[x] == #[trigger] params@.roots_at(x),
{
    let one = BigNum::from_u64(1);
    let mut entries: Vec<Option<(BigNum, BigNum)>> = Vec::new();
    let mut x = BigNum::from_u64(0);
    while x.less_than(params.p())
        invariant
            params@.well_formed(),
            one@ == 1,
            0 <= x@ <= params@.p,
            entries@.len() == x@,
            forall|j: int|
                0 <= j < entries@.len() ==> roots_view(entries@[j]) == #[trigger] params@.roots_at(
                    j,
                ),
        decreases params@.p - x@,
    {
        let entry = match roots_at(&x, params) {
            Ok(pair) => Some(pair),
            Err(_) => None,
        };
        entries.push(entry);
        x = big_add(&x, &one);
    }
    PointTable { entries }
}

/// The orbit of `base` under repeated addition, `p` points long: `base`
/// doubled, and then `base` added to the running point again and again,
/// so that entry `i` is `base` added to itself `i + 2` times. Fails with
/// `UndefinedSlope` where an addition does, which does not happen for a
/// point of the curve over a prime field.
pub fn enumerate_subgroup(base: &CurvePoint, params: &CurveParameters) -> (r: Result<
    Vec<CurvePoint>,
    EcError,
>)
    requires
        params@.well_formed(),
    ensures
        match r {
            Ok(points) => points@.len() == params@.p && forall|i: int|
                0 <= i < points@.len() ==> #[trigger] params@.orbit_at(base@, i) == Ok::<
                    PointView,
                    EcError,
                >(points@[i]@),
            Err(e) => e == EcError::UndefinedSlope && exists|i: int|
                0 <= i < params@.p && #[trigger] params@.orbit_at(base@, i) == Err::<
                    PointView,
                    EcError,
                >(e),
        },
        is_prime(params@.p) && params@.on_curve(base@) ==> r is Ok,
{
    let one = BigNum::from_u64(1);
    let mut points: Vec<CurvePoint> = Vec::new();
    let mut current = match crate::curve::add(base, base, params) {
        Ok(sum) => sum,
        Err(e) => {
            assert(params@.orbit_at(base@, 0) == Err::<PointView, EcError>(e));
            return Err(e);
        },
    };
    let mut i = BigNum::from_u64(1);
    points.push(current.clone());
    while i.less_than(params.p())
        invariant
            params@.well_formed(),
            one@ == 1,
            1 <= i@ <= params@.p,
            points@.len() == i@,
            params@.orbit_at(base@, i@ - 1) == Ok::<PointView, EcError>(current@),
            params@.on_curve(base@) ==> params@.on_curve(current@),
            forall|j: int|
                0 <= j < points@.len() ==> #[trigger] params@.orbit_at(base@, j) == Ok::<
                    PointView,
                    EcError,
                >(points@[j]@),
        decreases params@.p - i@,
    {
        current = match crate::curve::add(base, &current, params) {
            Ok(sum) => sum,
            Err(e) => {
                assert(params@.orbit_at(base@, i@) == Err::<PointView, EcError>(e));
                return Err(e);
            },
        };
        points.push(current.clone());
        i = big_add(&i, &one);
    }
    Ok(points)
}

} // verus!
