//! ECDSA over a curve: key pairs, signing and verification.

use crate::bignum::{big_add, big_mul, random_in_range, BigNum};
use crate::curve::{CurveParameters, CurvePoint, CurveSpec, PointView};
use crate::error::EcError;
use crate::group::{
    lemma_base_multiple_not_identity, lemma_base_multiple_periodic,
    lemma_multiple_of_base_multiple,
};
use crate::field::{
    cong, has_inverse, is_prime, lemma_cong_add, lemma_cong_mul, lemma_cong_residue,
    lemma_prime_has_inverse, mod_inverse, mod_mul, modinv, normalize,
};
use crate::scalar::scalar_mul;
use crypto::digest::Digest;
use crypto::sha1::Sha1;
use rand::rngs::ThreadRng;
use vstd::arithmetic::div_mod::{lemma_mod_bound, lemma_small_mod};
use vstd::prelude::*;

verus! {

/// How many nonces `sign` draws before it gives up.
pub const MAX_SIGN_ATTEMPTS: u32 = 64;

/// A private scalar `d` and the public point `Q = d * G`.
pub struct KeyPair {
    pub private_key: BigNum,
    pub public_key: CurvePoint,
}

/// A signature `(r, s)`.
pub struct Signature {
    pub r: BigNum,
    pub s: BigNum,
}

impl View for Signature {
    type V = (int, int);

    open spec fn view(&self) -> (int, int) {
        (self.r@, self.s@)
    }
}

impl CurveSpec {
    /// A scalar or a signature component is in range: in `[1, n-1]`.
    pub open spec fn in_scalar_range(self, k: int) -> bool {
        1 <= k < self.n
    }

    /// The signature of the digest `h` under the private scalar `d` with
    /// the nonce `k`: `r = (k * G).x mod n` and
    /// `s = k^(-1) * (h + r * d) mod n`. There is none (`Ok(None)`) where
    /// `k * G` is the identity or where `r` or `s` comes out as zero; the
    /// nonce is then of no use. An undefined multiple or a nonce without
    /// an inverse is an error.
    pub open spec fn signature_with_nonce(self, d: int, h: int, k: int) -> Result<
        Option<(int, int)>,
        EcError,
    > {
        match self.mul(k, self.g) {
            Err(e) => Err(e),
            Ok(PointView::Identity) => Ok(None),
            Ok(PointView::Affine { x, y }) => {
                let r = x % self.n;
                if r == 0 {
                    Ok(None)
                } else if !has_inverse(k, self.n) {
                    Err(EcError::NoInverse)
                } else {
                    let s = (mod_inverse(k, self.n) * (h + r * d)) % self.n;
                    if s == 0 {
                        Ok(None)
                    } else {
                        Ok(Some((r, s)))
                    }
                }
            },
        }
    }

    /// Whether `(r, s)` is accepted as a signature of the digest `h` under
    /// the public point `q`: both components are in range, and with
    /// `w = s^(-1) mod n`, `u1 = h * w mod n` and `u2 = r * w mod n` the
    /// point `u1 * G + u2 * q` is affine with `x mod n == r`. Where a step
    /// has no value the signature is not accepted.
    pub open spec fn accepts(self, q: PointView, h: int, r: int, s: int) -> bool {
        &&& self.in_scalar_range(r)
        &&& self.in_scalar_range(s)
        &&& has_inverse(s, self.n)
        &&& {
            let w = mod_inverse(s, self.n);
            let u1 = (h * w) % self.n;
            let u2 = (r * w) % self.n;
            match (self.multiple(u1, self.g), self.multiple(u2, q)) {
                (Ok(from_g), Ok(from_q)) => match self.add(from_g, from_q) {
                    Ok(PointView::Affine { x, y }) => x % self.n == r,
                    _ => false,
                },
                _ => false,
            }
        }
    }

    /// Where the base point generates a group of prime order and the
    /// private scalar and the nonce are in range, the signature is
    /// accepted under the public point of the private scalar.
    pub open spec fn signature_verifies_in_group(
        self,
        d: int,
        k: int,
        h: int,
        sig: (int, int),
    ) -> bool {
        is_prime(self.n) && self.base_point_generates_group() && self.in_scalar_range(d)
            && self.in_scalar_range(k) ==> (self.mul(d, self.g) matches Ok(q) && self.accepts(
            q,
            h,
            sig.0,
            sig.1,
        ))
    }
}

/// A signature verifies under the public point of the key that made it,
/// on every curve whose base point generates a group of prime order `n`:
/// with `w = s^(-1)`, `u1 = h * w` and `u2 = r * w`, the scalar
/// `u1 + u2 * d` is the nonce modulo `n`, so that `u1 * G + u2 * Q` is the
/// point `k * G` from which `r` was taken.
pub proof fn lemma_signature_verifies(c: CurveSpec, d: int, h: int, k: int, r: int, s: int)
    requires
        c.well_formed(),
        is_prime(c.n),
        c.base_point_generates_group(),
        c.in_scalar_range(d),
        c.in_scalar_range(k),
        c.signature_with_nonce(d, h, k) == Ok::<Option<(int, int)>, EcError>(Some((r, s))),
    ensures
        c.mul(d, c.g) matches Ok(q) && c.accepts(q, h, r, s),
{
    let n = c.n;
    assert(c.base_multiple(d) is Ok);
    assert(c.base_multiple(k) is Ok);
    let q = c.mul(d, c.g)->Ok_0;
    let kinv = mod_inverse(k, n);
    let e = h + r * d;
    lemma_small_mod(1, n as nat);
    lemma_small_mod(0, n as nat);
    lemma_small_mod(s as nat, n as nat);
    lemma_small_mod(k as nat, n as nat);
    lemma_mod_bound(kinv * e, n);
    // s has an inverse w, as n is prime
    lemma_prime_has_inverse(s, n);
    let w = mod_inverse(s, n);
    let u1 = (h * w) % n;
    let u2 = (r * w) % n;
    lemma_mod_bound(h * w, n);
    lemma_mod_bound(r * w, n);
    // k * s = k * kinv * e = e
    lemma_cong_residue(kinv * e, n);
    lemma_cong_mul(k, k, s, kinv * e, n);
    assert(k * (kinv * e) == (k * kinv) * e) by (nonlinear_arith);
    lemma_cong_mul(k * kinv, 1, e, e, n);
    assert(1 * e == e);
    assert(cong(k * s, e, n));
    // w * e = w * k * s = k * (s * w) = k
    lemma_cong_mul(w, w, e, k * s, n);
    assert(w * (k * s) == k * (s * w)) by (nonlinear_arith);
    lemma_cong_mul(k, k, s * w, 1, n);
    assert(k * 1 == k);
    assert(cong(w * e, k, n));
    // u1 + u2 * d = h * w + r * w * d = w * e
    lemma_cong_residue(h * w, n);
    lemma_cong_residue(r * w, n);
    lemma_cong_mul(u2, r * w, d, d, n);
    lemma_cong_add(u1, h * w, u2 * d, (r * w) * d, n);
    assert(h * w + (r * w) * d == w * e) by (nonlinear_arith)
        requires
            e == h + r * d,
    ;
    assert((u1 + u2 * d) % n == k);
    // so u1 * G + u2 * Q = (u1 + u2 * d) * G = k * G
    lemma_multiple_of_base_multiple(c, u2, d);
    assert(c.multiple(u2, q) == c.base_multiple(u2 * d));
    assert(c.base_multiple(u1) is Ok);
    assert(c.base_multiple(u2 * d) is Ok);
    assert(c.sum_of_base_multiples(u1, u2 * d) == c.base_multiple(u1 + u2 * d));
    lemma_base_multiple_periodic(c, u1 + u2 * d);
}

/// What signing with one nonce returned, as the mathematics sees it.
pub open spec fn signing_view(r: Result<Option<Signature>, EcError>) -> Result<
    Option<(int, int)>,
    EcError,
> {
    match r {
        Ok(Some(sig)) => Ok(Some(sig@)),
        Ok(None) => Ok(None),
        Err(e) => Err(e),
    }
}

/// The 20 bytes of the SHA-1 digest of a message.
pub uninterp spec fn sha1_of(message: Seq<u8>) -> Seq<u8>;

/// `crypto::sha1::Sha1` fed with the whole message at once: the digest that
/// `Digest::result` writes into a buffer of 20 bytes.
#[verifier::external_body]
fn sha1_digest(message: &[u8]) -> (r: Vec<u8>)
    ensures
        r@ == sha1_of(message@),
{
    let mut hasher = Sha1::new();
    hasher.input(message);
    let mut out = vec![0u8; 20];
    hasher.result(&mut out);
    out
}

/// The digest of a message as a number: its SHA-1 digest read as an
/// unsigned big-endian integer.
pub fn hash_message(message: &[u8]) -> (r: BigNum)
    ensures
        r@ == crate::bignum::be_nat(sha1_of(message@)),
{
    let digest = sha1_digest(message);
    BigNum::from_bytes_be(digest.as_slice())
}

/// Whether `k` lies in `[1, n-1]`.
pub fn in_scalar_range(k: &BigNum, params: &CurveParameters) -> (r: bool)
    requires
        params@.well_formed(),
    ensures
        r == params@.in_scalar_range(k@),
{
    !k.is_negative() && !k.is_zero() && k.less_than(params.n())
}

/// The multiple `k * pt` for a scalar that may be zero.
pub fn multiple(k: &BigNum, pt: &CurvePoint, params: &CurveParameters) -> (r: Result<
    CurvePoint,
    EcError,
>)
    requires
        params@.well_formed(),
    ensures
        crate::curve::point_result_view(r) == params@.multiple(k@, pt@),
{
    if k.is_zero() {
        Ok(CurvePoint::Identity)
    } else {
        scalar_mul(k, pt, params)
    }
}

/// The key pair of the private scalar `d`: `d` with `Q = d * G`. Fails
/// with `InvalidScalar` exactly when `d` is outside `[1, n-1]`, and with
/// `UndefinedSlope` where the multiple has no value, which does not happen
/// over a prime field. The public point lies on the curve; where the base
/// point generates a group of prime order it is no identity.
pub fn keypair_from_scalar(params: &CurveParameters, d: BigNum) -> (r: Result<KeyPair, EcError>)
    requires
        params@.well_formed(),
    ensures
        !params@.in_scalar_range(d@) <==> r == Err::<KeyPair, EcError>(EcError::InvalidScalar),
        r matches Ok(pair) ==> pair.private_key@ == d@ && params@.mul(d@, params@.g) == Ok::<
            PointView,
            EcError,
        >(pair.public_key@) && params@.on_curve(pair.public_key@),
        r matches Ok(pair) ==> (is_prime(params@.n) && params@.base_point_generates_group()
            ==> pair.public_key@ is Affine),
        r matches Err(e) ==> e == EcError::InvalidScalar || e == EcError::UndefinedSlope,
        is_prime(params@.p) && params@.in_scalar_range(d@) ==> r is Ok,
{
    proof {
        if is_prime(params@.n) && params@.base_point_generates_group() && params@.in_scalar_range(
            d@,
        ) {
            lemma_base_multiple_not_identity(params@, d@);
        }
    }
    if !in_scalar_range(&d, params) {
        return Err(EcError::InvalidScalar);
    }
    match scalar_mul(&d, params.g(), params) {
        Ok(q) => Ok(KeyPair { private_key: d, public_key: q }),
        Err(e) => Err(e),
    }
}

/// A fresh key pair: a private scalar drawn from `[1, n-1]` and its public
/// point. Fails only where the multiple has no value.
pub fn generate_keypair(params: &CurveParameters, rng: &mut ThreadRng) -> (r: Result<
    KeyPair,
    EcError,
>)
    requires
        params@.well_formed(),
    ensures
        r matches Ok(pair) ==> params@.in_scalar_range(pair.private_key@) && params@.mul(
            pair.private_key@,
            params@.g,
        ) == Ok::<PointView, EcError>(pair.public_key@) && params@.on_curve(pair.public_key@),
        r matches Ok(pair) ==> (is_prime(params@.n) && params@.base_point_generates_group()
            ==> pair.public_key@ is Affine),
        r matches Err(e) ==> e == EcError::UndefinedSlope,
        is_prime(params@.p) ==> r is Ok,
{
    let d = random_in_range(rng, &BigNum::from_u64(1), params.n());
    keypair_from_scalar(params, d)
}

/// Signs the digest `hash` under the private scalar `d` with the nonce
/// `k`: `R = k * G`, `r = R.x mod n`, `s = k^(-1) * (hash + r * d) mod n`.
/// Returns `Ok(None)` where the nonce is of no use because `R` is the
/// identity or `r` or `s` is zero.
pub fn sign_with_nonce(params: &CurveParameters, d: &BigNum, hash: &BigNum, k: &BigNum) -> (res:
    Result<Option<Signature>, EcError>)
    requires
        params@.well_formed(),
    ensures
        signing_view(res) == params@.signature_with_nonce(d@, hash@, k@),
        res matches Ok(Some(sig)) ==> params@.in_scalar_range(sig.r@) && params@.in_scalar_range(
            sig.s@,
        ),
        res matches Ok(Some(sig)) ==> params@.signature_verifies_in_group(d@, k@, hash@, sig@),
{
    proof {
        if let Ok(Some((r, s))) = params@.signature_with_nonce(d@, hash@, k@) {
            if is_prime(params@.n) && params@.base_point_generates_group()
                && params@.in_scalar_range(d@) && params@.in_scalar_range(k@) {
                lemma_signature_verifies(params@, d@, hash@, k@, r, s);
            }
        }
    }
    let n = params.n();
    let point = match scalar_mul(k, params.g(), params) {
        Ok(point) => point,
        Err(e) => {
            return Err(e);
        },
    };
    match point {
        CurvePoint::Identity => Ok(None),
        CurvePoint::Affine { x, y } => {
            let r = normalize(&x, n);
            if r.is_zero() {
                return Ok(None);
            }
            let k_inv = match modinv(k, n) {
                Ok(inv) => inv,
                Err(e) => {
                    return Err(e);
                },
            };
            let s = mod_mul(&k_inv, &big_add(hash, &big_mul(&r, d)), n);
            if s.is_zero() {
                return Ok(None);
            }
            Ok(Some(Signature { r, s }))
        },
    }
}

/// Signs the digest `hash` under the private scalar `d`. A fresh nonce is
/// drawn from `[1, n-1]` for each attempt, and drawn again where it is of
/// no use; after `MAX_SIGN_ATTEMPTS` such nonces signing fails with
/// `SigningRetryExhausted`. Other errors are passed on.
pub fn sign(params: &CurveParameters, d: &BigNum, hash: &BigNum, rng: &mut ThreadRng) -> (res:
    Result<Signature, EcError>)
    requires
        params@.well_formed(),
    ensures
        res matches Ok(sig) ==> exists|k: int|
            params@.in_scalar_range(k) && #[trigger] params@.signature_with_nonce(d@, hash@, k)
                == Ok::<Option<(int, int)>, EcError>(Some(sig@)),
        res matches Ok(sig) ==> params@.in_scalar_range(sig.r@) && params@.in_scalar_range(sig.s@),
        res matches Ok(sig) ==> (is_prime(params@.n) && params@.base_point_generates_group()
            && params@.in_scalar_range(d@) ==> (params@.mul(d@, params@.g) matches Ok(q)
            && params@.accepts(q, hash@, sig.r@, sig.s@))),
        res matches Err(e) ==> e == EcError::SigningRetryExhausted || exists|k: int|
            params@.in_scalar_range(k) && #[trigger] params@.signature_with_nonce(d@, hash@, k)
                == Err::<Option<(int, int)>, EcError>(e),
{
    let one = BigNum::from_u64(1);
    let mut attempt: u32 = 0;
    while attempt < MAX_SIGN_ATTEMPTS
        invariant
            params@.well_formed(),
            one@ == 1,
        decreases MAX_SIGN_ATTEMPTS - attempt,
    {
        let k = random_in_range(rng, &one, params.n());
        match sign_with_nonce(params, d, hash, &k) {
            Ok(Some(sig)) => {
                return Ok(sig);
            },
            Ok(None) => {},
            Err(e) => {
                return Err(e);
            },
        }
        attempt += 1;
    }
    Err(EcError::SigningRetryExhausted)
}

/// Checks a signature of the digest `hash` against the public point `q`.
///
/// Fails with `InvalidSignatureComponent` exactly when `r` or `s` is
/// outside `[1, n-1]`. Otherwise, with `w = s^(-1) mod n`,
/// `u1 = hash * w mod n` and `u2 = r * w mod n`, the signature is valid if
/// and only if `u1 * G + u2 * q` is an affine point with `x mod n == r`.
/// A step without a value makes the signature invalid; it is no error.
pub fn check_signature(
    params: &CurveParameters,
    q: &CurvePoint,
    hash: &BigNum,
    sig: &Signature,
) -> (res: Result<bool, EcError>)
    requires
        params@.well_formed(),
    ensures
        res is Err <==> !(params@.in_scalar_range(sig.r@) && params@.in_scalar_range(sig.s@)),
        res matches Err(e) ==> e == EcError::InvalidSignatureComponent,
        res matches Ok(valid) ==> valid == params@.accepts(q@, hash@, sig.r@, sig.s@),
{
    if !in_scalar_range(&sig.r, params) || !in_scalar_range(&sig.s, params) {
        return Err(EcError::InvalidSignatureComponent);
    }
    let n = params.n();
    let w = match modinv(&sig.s, n) {
        Ok(w) => w,
        Err(_) => {
            return Ok(false);
        },
    };
    let u1 = mod_mul(hash, &w, n);
    let u2 = mod_mul(&sig.r, &w, n);
    let from_g = match multiple(&u1, params.g(), params) {
        Ok(from_g) => from_g,
        Err(_) => {
            return Ok(false);
        },
    };
    let from_q = match multiple(&u2, q, params) {
        Ok(from_q) => from_q,
        Err(_) => {
            return Ok(false);
        },
    };
    match crate::curve::add(&from_g, &from_q, params) {
        Ok(CurvePoint::Affine { x, y }) => Ok(normalize(&x, n).equals(&sig.r)),
        _ => Ok(false),
    }
}

/// Whether `sig` is a valid signature of the digest `hash` under the
/// public point `q`. A signature with a component outside `[1, n-1]` is
/// invalid.
pub fn verify(params: &CurveParameters, q: &CurvePoint, hash: &BigNum, sig: &Signature) -> (valid:
    bool)
    requires
        params@.well_formed(),
    ensures
        valid == params@.accepts(q@, hash@, sig.r@, sig.s@),
{
    match check_signature(params, q, hash, sig) {
        Ok(valid) => valid,
        Err(_) => false,
    }
}

} // verus!
