//! Scalar multiplication by double-and-add.

use crate::bignum::{big_div, big_rem, BigNum};
use crate::curve::{
    lemma_add_on_curve, lemma_add_total, CurveParameters, CurvePoint, CurveSpec, PointView,
};
use crate::error::EcError;
use crate::field::is_prime;
use vstd::prelude::*;

verus! {

/// The binary digits of a positive number, least significant first; no
/// digits for a number below one.
pub open spec fn bits_of(k: int) -> Seq<bool>
    decreases k,
{
    if k <= 0 {
        Seq::empty()
    } else {
        seq![k % 2 == 1] + bits_of(k / 2)
    }
}

/// The number that binary digits spell, least significant first.
pub open spec fn from_bits(s: Seq<bool>) -> int
    decreases s.len(),
{
    if s.len() == 0 {
        0
    } else {
        (if s[0] {
            1int
        } else {
            0int
        }) + 2 * from_bits(s.skip(1))
    }
}

impl CurveSpec {
    /// The multiple `k * pt` as double-and-add computes it: `1 * pt` is
    /// `pt`, and `k * pt` is twice `(k / 2) * pt`, plus `pt` where `k` is
    /// odd. There is no multiple for a scalar below one, and none where
    /// one of the additions has an undefined slope.
    pub open spec fn mul(self, k: int, pt: PointView) -> Result<PointView, EcError>
        decreases k,
    {
        if k <= 0 {
            Err(EcError::InvalidScalar)
        } else if k == 1 {
            Ok(pt)
        } else {
            match self.mul(k / 2, pt) {
                Err(e) => Err(e),
                Ok(half) => match self.add(half, half) {
                    Err(e) => Err(e),
                    Ok(twice) => if k % 2 == 1 {
                        self.add(twice, pt)
                    } else {
                        Ok(twice)
                    },
                },
            }
        }
    }
}

/// The digits of a positive number spell it, and the last one is set.
pub proof fn lemma_bits_of(k: int)
    requires
        k >= 1,
    ensures
        from_bits(bits_of(k)) == k,
        bits_of(k).len() >= 1,
        bits_of(k).last(),
    decreases k,
{
    let rest = bits_of(k / 2);
    let s = bits_of(k);
    assert(s == seq![k % 2 == 1] + rest);
    assert(s[0] == (k % 2 == 1));
    assert(s.skip(1) =~= rest);
    if k >= 2 {
        lemma_bits_of(k / 2);
        assert(s.last() == rest.last());
    } else {
        assert(rest.len() == 0);
        assert(from_bits(rest) == 0);
    }
}

/// The number spelt from digit `i - 1` on is twice the one spelt from digit
/// `i` on, plus that digit.
proof fn lemma_from_bits_step(s: Seq<bool>, i: int)
    requires
        0 < i <= s.len(),
    ensures
        from_bits(s.skip(i - 1)) == (if s[i - 1] {
            1int
        } else {
            0int
        }) + 2 * from_bits(s.skip(i)),
{
    assert(s.skip(i - 1).skip(1) =~= s.skip(i));
}

/// The number spelt by the leading digits is at least one when the last
/// digit is set.
proof fn lemma_from_bits_positive(s: Seq<bool>, i: int)
    requires
        0 <= i < s.len(),
        s.last(),
    ensures
        from_bits(s.skip(i)) >= 1,
    decreases s.len() - i,
{
    if i == s.len() - 1 {
        reveal_with_fuel(from_bits, 2);
        assert(s.skip(i).skip(1).len() == 0);
        assert(s.skip(i)[0] == s.last());
    } else {
        lemma_from_bits_positive(s, i + 1);
        lemma_from_bits_step(s, i + 1);
    }
}

/// Where the multiple by the leading digits is undefined, so is the
/// multiple by the whole number.
proof fn lemma_mul_error_spreads(c: CurveSpec, pt: PointView, s: Seq<bool>, i: int, e: EcError)
    requires
        0 <= i < s.len(),
        s.last(),
        c.mul(from_bits(s.skip(i)), pt) == Err::<PointView, EcError>(e),
    ensures
        c.mul(from_bits(s), pt) == Err::<PointView, EcError>(e),
    decreases i,
{
    if i == 0 {
        assert(s.skip(0) =~= s);
    } else {
        lemma_from_bits_positive(s, i);
        lemma_from_bits_step(s, i);
        lemma_mul_error_spreads(c, pt, s, i - 1, e);
    }
}

/// Multiples of a point of the curve lie on the curve.
pub proof fn lemma_mul_on_curve(c: CurveSpec, k: int, pt: PointView)
    requires
        c.p > 0,
        c.on_curve(pt),
    ensures
        c.mul(k, pt) matches Ok(r) ==> c.on_curve(r),
    decreases k,
{
    if k >= 2 {
        lemma_mul_on_curve(c, k / 2, pt);
        if let Ok(half) = c.mul(k / 2, pt) {
            lemma_add_on_curve(c, half, half);
            if let Ok(twice) = c.add(half, half) {
                lemma_add_on_curve(c, twice, pt);
            }
        }
    }
}

/// A multiple fails only for a scalar below one, with `InvalidScalar`, or
/// for an addition without a slope, with `UndefinedSlope`.
pub proof fn lemma_mul_errors(c: CurveSpec, k: int, pt: PointView)
    ensures
        c.mul(k, pt) matches Err(e) ==> if k <= 0 {
            e == EcError::InvalidScalar
        } else {
            e == EcError::UndefinedSlope
        },
    decreases k,
{
    if k >= 2 {
        lemma_mul_errors(c, k / 2, pt);
    }
}

/// Over a prime field every multiple of a point of the curve by a scalar
/// of at least one is defined, and lies on the curve.
pub proof fn lemma_mul_total(c: CurveSpec, k: int, pt: PointView)
    requires
        is_prime(c.p),
        c.on_curve(pt),
        k >= 1,
    ensures
        c.mul(k, pt) matches Ok(r) && c.on_curve(r),
    decreases k,
{
    if k >= 2 {
        lemma_mul_total(c, k / 2, pt);
        let half = c.mul(k / 2, pt)->Ok_0;
        lemma_add_total(c, half, half);
        lemma_add_on_curve(c, half, half);
        let twice = c.add(half, half)->Ok_0;
        lemma_add_total(c, twice, pt);
        lemma_add_on_curve(c, twice, pt);
    }
}

/// Every multiple `d * G` of the base point by a scalar from `[1, n-1]`
/// that is defined lies on the curve; over a prime field each is defined.
pub proof fn lemma_public_point_on_curve(c: CurveSpec, d: int)
    requires
        c.well_formed(),
        1 <= d <= c.n - 1,
    ensures
        c.mul(d, c.g) matches Ok(q) ==> c.on_curve(q),
        is_prime(c.p) ==> c.mul(d, c.g) is Ok,
{
    lemma_mul_on_curve(c, d, c.g);
    if is_prime(c.p) {
        lemma_mul_total(c, d, c.g);
    }
}

/// One times a point is the point, and two times a point is the point
/// added to itself.
pub proof fn lemma_mul_one_two(c: CurveSpec, pt: PointView)
    ensures
        c.mul(1, pt) == Ok::<PointView, EcError>(pt),
        c.mul(2, pt) == c.add(pt, pt),
{
    reveal_with_fuel(CurveSpec::mul, 3);
}

/// The binary digits of `k`, least significant first.
pub fn to_bits(k: &BigNum) -> (r: Vec<bool>)
    ensures
        r@ == bits_of(k@),
        k@ >= 1 ==> from_bits(r@) == k@ && r@.len() >= 1 && r@.last(),
        k@ <= 0 ==> r@.len() == 0,
{
    proof {
        if k@ >= 1 {
            lemma_bits_of(k@);
        }
    }
    let two = BigNum::from_u64(2);
    let mut bits: Vec<bool> = Vec::new();
    let mut e = k.clone();
    while !e.is_negative() && !e.is_zero()
        invariant
            two@ == 2,
            bits_of(k@) == bits@ + bits_of(e@),
        decreases e@,
    {
        let bit = !big_rem(&e, &two).is_zero();
        let half = big_div(&e, &two);
        proof {
            assert(bits@.push(bit) + bits_of(half@) =~= bits@ + (seq![bit] + bits_of(half@)));
        }
        bits.push(bit);
        e = half;
    }
    proof {
        assert(bits@ + Seq::<bool>::empty() =~= bits@);
    }
    bits
}

/// The multiple `k * pt` by double-and-add over the binary digits of `k`,
/// most significant first: the accumulator starts as `pt` for the leading
/// digit, and for each further digit it is doubled and, where the digit is
/// set, `pt` is added.
///
/// Fails with `InvalidScalar` exactly when `k` is below one, and with
/// `UndefinedSlope` when one of the additions does. The scalar is used as
/// it is given: it is not reduced modulo the order of the point.
pub fn scalar_mul(k: &BigNum, pt: &CurvePoint, params: &CurveParameters) -> (r: Result<
    CurvePoint,
    EcError,
>)
    requires
        params@.well_formed(),
    ensures
        crate::curve::point_result_view(r) == params@.mul(k@, pt@),
        k@ <= 0 <==> r == Err::<CurvePoint, EcError>(EcError::InvalidScalar),
        r matches Err(e) ==> e == EcError::InvalidScalar || e == EcError::UndefinedSlope,
        params@.on_curve(pt@) ==> (r matches Ok(q) ==> params@.on_curve(q@)),
        is_prime(params@.p) && params@.on_curve(pt@) && k@ >= 1 ==> r is Ok,
{
    proof {
        lemma_mul_errors(params@, k@, pt@);
        if params@.on_curve(pt@) {
            lemma_mul_on_curve(params@, k@, pt@);
            if is_prime(params@.p) && k@ >= 1 {
                lemma_mul_total(params@, k@, pt@);
            }
        }
    }
    let bits = to_bits(k);
    let len: usize = bits.len();
    if len == 0 {
        proof {
            if k@ >= 1 {
                lemma_bits_of(k@);
            }
        }
        return Err(EcError::InvalidScalar);
    }
    proof {
        reveal_with_fuel(from_bits, 2);
        lemma_bits_of(k@);
        assert(bits@.skip(len - 1).skip(1).len() == 0);
        assert(bits@.skip(len - 1)[0]);
        assert(from_bits(bits@.skip(len - 1)) == 1);
    }
    let mut acc = pt.clone();
    let mut i: usize = len - 1;
    while i > 0
        invariant
            params@.well_formed(),
            len == bits@.len(),
            from_bits(bits@) == k@,
            bits@.last(),
            0 <= i < len,
            params@.mul(from_bits(bits@.skip(i as int)), pt@) == Ok::<PointView, EcError>(acc@),
            is_prime(params@.p) && params@.on_curve(pt@) ==> params@.mul(k@, pt@) is Ok,
        decreases i,
    {
        proof {
            lemma_from_bits_positive(bits@, i as int);
            lemma_from_bits_step(bits@, i as int);
        }
        let ghost upper = from_bits(bits@.skip(i as int));
        i -= 1;
        let ghost lower = from_bits(bits@.skip(i as int));
        assert(lower / 2 == upper && (lower % 2 == 1) == bits@[i as int] && lower >= 2);
        let twice = match crate::curve::add(&acc, &acc, params) {
            Ok(sum) => sum,
            Err(e) => {
                proof {
                    lemma_mul_error_spreads(params@, pt@, bits@, i as int, e);
                }
                return Err(e);
            },
        };
        if bits[i] {
            acc = match crate::curve::add(&twice, pt, params) {
                Ok(sum) => sum,
                Err(e) => {
                    proof {
                        lemma_mul_error_spreads(params@, pt@, bits@, i as int, e);
                    }
                    return Err(e);
                },
            };
        } else {
            acc = twice;
        }
    }
    proof {
        assert(bits@.skip(0) =~= bits@);
    }
    Ok(acc)
}

} // verus!
