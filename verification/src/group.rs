//! The group that the base point generates: how its multiples add, and
//! what follows from the associativity of the addition law.

use crate::curve::{lemma_add_on_curve, lemma_add_total, CurveSpec, PointView};
use crate::error::EcError;
use crate::field::{is_prime, lemma_prime_has_inverse, mod_inverse};
use vstd::arithmetic::div_mod::{lemma_fundamental_div_mod, lemma_mod_bound, lemma_small_mod};
use vstd::prelude::*;

verus! {

impl CurveSpec {
    /// The multiple `k * pt` for a scalar that may be zero: zero times a
    /// point is the identity.
    pub open spec fn multiple(self, k: int, pt: PointView) -> Result<PointView, EcError> {
        if k == 0 {
            Ok(PointView::Identity)
        } else {
            self.mul(k, pt)
        }
    }

    /// The multiple `k * G` of the base point, for a scalar that may be
    /// zero.
    pub open spec fn base_multiple(self, k: int) -> Result<PointView, EcError> {
        self.multiple(k, self.g)
    }

    /// The sum `a * G + b * G`.
    pub open spec fn sum_of_base_multiples(self, a: int, b: int) -> Result<PointView, EcError> {
        match (self.base_multiple(a), self.base_multiple(b)) {
            (Ok(x), Ok(y)) => self.add(x, y),
            (Err(e), _) => Err(e),
            (_, Err(e)) => Err(e),
        }
    }

    /// The multiples of the base point form a cyclic group of order `n`:
    /// each is defined, they add like their scalars, and `n * G` is the
    /// identity. For valid domain parameters over a prime field this
    /// follows from the associativity of the addition
    /// ([`lemma_group_from_associativity`]), which this library takes as a
    /// hypothesis and does not prove.
    pub open spec fn base_point_generates_group(self) -> bool {
        &&& forall|a: int| a >= 0 ==> #[trigger] self.base_multiple(a) is Ok
        &&& forall|a: int, b: int|
            a >= 0 && b >= 0 ==> #[trigger] self.sum_of_base_multiples(a, b) == self.base_multiple(
                a + b,
            )
        &&& self.base_multiple(self.n) == Ok::<PointView, EcError>(PointView::Identity)
    }

    /// `(x + y) + z`.
    pub open spec fn sum_from_left(self, x: PointView, y: PointView, z: PointView) -> Result<
        PointView,
        EcError,
    > {
        match self.add(x, y) {
            Ok(xy) => self.add(xy, z),
            Err(e) => Err(e),
        }
    }

    /// `x + (y + z)`.
    pub open spec fn sum_from_right(self, x: PointView, y: PointView, z: PointView) -> Result<
        PointView,
        EcError,
    > {
        match self.add(y, z) {
            Ok(yz) => self.add(x, yz),
            Err(e) => Err(e),
        }
    }

    /// The addition of points of the curve is associative. For a curve
    /// without singular points over a prime field this is the classical
    /// theorem that makes the points a group. This library does not prove
    /// it: what rests on it names it as a hypothesis.
    pub open spec fn add_is_associative(self) -> bool {
        forall|x: PointView, y: PointView, z: PointView|
            self.on_curve(x) && self.on_curve(y) && self.on_curve(z) ==> #[trigger] self.sum_from_left(
                x,
                y,
                z,
            ) == self.sum_from_right(x, y, z)
    }

    /// The point added to itself `k` times, one addition after the other.
    pub open spec fn repeated(self, pt: PointView, k: int) -> Result<PointView, EcError>
        decreases k,
    {
        if k <= 0 {
            Ok(PointView::Identity)
        } else {
            match self.repeated(pt, k - 1) {
                Ok(sum) => self.add(sum, pt),
                Err(e) => Err(e),
            }
        }
    }
}

/// Over a prime field every repeated sum of a point of the curve is
/// defined and lies on the curve.
pub proof fn lemma_repeated_on_curve(c: CurveSpec, pt: PointView, k: int)
    requires
        is_prime(c.p),
        c.on_curve(pt),
    ensures
        c.repeated(pt, k) matches Ok(sum) && c.on_curve(sum),
    decreases k,
{
    if k > 0 {
        lemma_repeated_on_curve(c, pt, k - 1);
        let prev = c.repeated(pt, k - 1)->Ok_0;
        lemma_add_total(c, prev, pt);
        lemma_add_on_curve(c, prev, pt);
    }
}

/// Where addition is associative, repeated sums add like their counts.
pub proof fn lemma_repeated_adds(c: CurveSpec, pt: PointView, a: int, b: int)
    requires
        is_prime(c.p),
        c.add_is_associative(),
        c.on_curve(pt),
        a >= 0,
        b >= 0,
    ensures
        c.add(c.repeated(pt, a)->Ok_0, c.repeated(pt, b)->Ok_0) == c.repeated(pt, a + b),
    decreases b,
{
    lemma_repeated_on_curve(c, pt, a);
    lemma_repeated_on_curve(c, pt, b);
    let x = c.repeated(pt, a)->Ok_0;
    if b > 0 {
        lemma_repeated_on_curve(c, pt, b - 1);
        lemma_repeated_on_curve(c, pt, a + b - 1);
        let y = c.repeated(pt, b - 1)->Ok_0;
        lemma_repeated_adds(c, pt, a, b - 1);
        assert(c.sum_from_left(x, y, pt) == c.sum_from_right(x, y, pt));
    }
}

/// Where addition is associative, double-and-add gives the repeated sum:
/// the multiple `k * pt` is `pt` added to itself `k` times.
pub proof fn lemma_multiple_is_repeated(c: CurveSpec, pt: PointView, k: int)
    requires
        is_prime(c.p),
        c.add_is_associative(),
        c.on_curve(pt),
        k >= 0,
    ensures
        c.multiple(k, pt) == c.repeated(pt, k),
    decreases k,
{
    reveal_with_fuel(CurveSpec::repeated, 2);
    if k >= 2 {
        let half = k / 2;
        lemma_multiple_is_repeated(c, pt, half);
        lemma_repeated_on_curve(c, pt, half);
        lemma_repeated_adds(c, pt, half, half);
        lemma_repeated_on_curve(c, pt, half + half);
    }
}

/// Over a prime field on which addition is associative, the base point of
/// valid domain parameters generates a cyclic group in the sense of
/// [`CurveSpec::base_point_generates_group`].
pub proof fn lemma_group_from_associativity(c: CurveSpec)
    requires
        c.valid(),
        is_prime(c.p),
        c.add_is_associative(),
    ensures
        c.base_point_generates_group(),
{
    assert forall|a: int| a >= 0 implies #[trigger] c.base_multiple(a) is Ok by {
        lemma_multiple_is_repeated(c, c.g, a);
        lemma_repeated_on_curve(c, c.g, a);
    }
    assert forall|a: int, b: int| a >= 0 && b >= 0 implies #[trigger] c.sum_of_base_multiples(a, b)
        == c.base_multiple(a + b) by {
        lemma_multiple_is_repeated(c, c.g, a);
        lemma_multiple_is_repeated(c, c.g, b);
        lemma_multiple_is_repeated(c, c.g, a + b);
        lemma_repeated_on_curve(c, c.g, a);
        lemma_repeated_on_curve(c, c.g, b);
        lemma_repeated_adds(c, c.g, a, b);
    }
}

/// Every multiple of the identity is the identity.
pub proof fn lemma_multiple_of_identity(c: CurveSpec, k: int)
    requires
        k >= 0,
    ensures
        c.multiple(k, PointView::Identity) == Ok::<PointView, EcError>(PointView::Identity),
    decreases k,
{
    if k >= 2 {
        lemma_multiple_of_identity(c, k / 2);
    }
}

/// In the group of the base point, `a * (b * G) = (a * b) * G`.
pub proof fn lemma_multiple_of_base_multiple(c: CurveSpec, a: int, b: int)
    requires
        c.base_point_generates_group(),
        a >= 0,
        b >= 0,
    ensures
        a * b >= 0,
        c.multiple(a, c.base_multiple(b)->Ok_0) == c.base_multiple(a * b),
    decreases a,
{
    let y = c.base_multiple(b)->Ok_0;
    assert(c.base_multiple(b) is Ok);
    assert(a * b >= 0) by (nonlinear_arith)
        requires
            a >= 0,
            b >= 0,
    ;
    if a == 0 {
        assert(0 * b == 0);
    } else if a == 1 {
        assert(1 * b == b);
    } else {
        let half = a / 2;
        lemma_multiple_of_base_multiple(c, half, b);
        let hb = half * b;
        assert(c.mul(half, y) == c.base_multiple(hb));
        assert(c.base_multiple(hb) is Ok);
        let hp = c.base_multiple(hb)->Ok_0;
        assert(c.add(hp, hp) == c.sum_of_base_multiples(hb, hb));
        assert(c.base_multiple(hb + hb) is Ok);
        let twice = c.base_multiple(hb + hb)->Ok_0;
        if a % 2 == 1 {
            assert(c.add(twice, y) == c.sum_of_base_multiples(hb + hb, b));
            assert(hb + hb + b == a * b) by (nonlinear_arith)
                requires
                    hb == half * b,
                    a == 2 * half + 1,
            ;
        } else {
            assert(hb + hb == a * b) by (nonlinear_arith)
                requires
                    hb == half * b,
                    a == 2 * half,
            ;
        }
    }
}

/// In the group of the base point, a multiple depends on its scalar
/// modulo `n` only.
pub proof fn lemma_base_multiple_periodic(c: CurveSpec, a: int)
    requires
        c.base_point_generates_group(),
        c.n >= 2,
        a >= 0,
    ensures
        c.base_multiple(a) == c.base_multiple(a % c.n),
{
    let q = a / c.n;
    let r = a % c.n;
    lemma_fundamental_div_mod(a, c.n);
    lemma_mod_bound(a, c.n);
    assert(q >= 0) by (nonlinear_arith)
        requires
            a == c.n * q + r,
            a >= 0,
            0 <= r < c.n,
    ;
    lemma_multiple_of_base_multiple(c, q, c.n);
    lemma_multiple_of_identity(c, q);
    assert(c.base_multiple(q * c.n) == Ok::<PointView, EcError>(PointView::Identity));
    assert(q * c.n == c.n * q) by (nonlinear_arith);
    assert(c.base_multiple(r) is Ok);
    assert(c.sum_of_base_multiples(q * c.n, r) == c.base_multiple(q * c.n + r));
}

/// In a group of prime order no multiple of the base point by a scalar
/// from `[1, n-1]` is the identity: such a scalar has an inverse `x`
/// modulo `n`, and `x * (d * G)` is the base point.
pub proof fn lemma_base_multiple_not_identity(c: CurveSpec, d: int)
    requires
        c.well_formed(),
        is_prime(c.n),
        c.base_point_generates_group(),
        1 <= d < c.n,
    ensures
        c.mul(d, c.g) matches Ok(q) && q is Affine,
{
    assert(c.base_multiple(d) is Ok);
    let q = c.mul(d, c.g)->Ok_0;
    if q is Identity {
        lemma_small_mod(d as nat, c.n as nat);
        lemma_small_mod(1, c.n as nat);
        lemma_prime_has_inverse(d, c.n);
        let x = mod_inverse(d, c.n);
        lemma_multiple_of_base_multiple(c, x, d);
        lemma_multiple_of_identity(c, x);
        lemma_base_multiple_periodic(c, x * d);
        assert(x * d == d * x) by (nonlinear_arith);
        assert(c.base_multiple(1) == Ok::<PointView, EcError>(c.g));
        assert(false);
    }
}

} // verus!
