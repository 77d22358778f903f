//! Arbitrary-precision signed integers.
//!
//! A [`BigNum`] keeps its value as big-endian two's-complement bytes, the
//! interchange form of `num_bigint::BigInt`. The arithmetic itself is done by
//! `num_bigint`: each operation reads its operands with
//! `BigInt::from_signed_bytes_be` and writes its result with
//! `BigInt::to_signed_bytes_be`, and [`be_signed`] is the value that these
//! two give to a byte string. What the operations return is taken on trust
//! from `num_bigint`. What this module proves is everything that can be
//! read off the bytes directly: sign, zero test, comparison of differences,
//! construction from machine integers and from byte strings.

use num_bigint::{BigInt, RandBigInt};
use rand::rngs::ThreadRng;
use vstd::arithmetic::power::pow;
use vstd::prelude::*;

verus! {

/// Value of a byte string read as an unsigned big-endian number.
pub open spec fn be_nat(s: Seq<u8>) -> nat
    decreases s.len(),
{
    if s.len() == 0 {
        0
    } else {
        be_nat(s.drop_last()) * 256 + s.last() as nat
    }
}

/// Value of a byte string read as a big-endian two's-complement number.
/// The empty string stands for zero.
pub open spec fn be_signed(s: Seq<u8>) -> int {
    if s.len() > 0 && s[0] >= 128 {
        be_nat(s) - pow(256, s.len())
    } else {
        be_nat(s) as int
    }
}

/// An unsigned big-endian number is below `256^len`.
pub proof fn lemma_be_nat_bound(s: Seq<u8>)
    ensures
        be_nat(s) < pow(256, s.len()),
    decreases s.len(),
{
    reveal_with_fuel(pow, 2);
    if s.len() > 0 {
        lemma_be_nat_bound(s.drop_last());
        assert(pow(256, s.len()) == 256 * pow(256, (s.len() - 1) as nat));
    }
}

/// An arbitrary-precision signed integer.
pub struct BigNum {
    bytes: Vec<u8>,
}

impl View for BigNum {
    type V = int;

    closed spec fn view(&self) -> int {
        be_signed(self.bytes@)
    }
}

/// Quotient of `a` by a positive `b`, rounded toward zero.
pub open spec fn trunc_div(a: int, b: int) -> int {
    if a >= 0 {
        a / b
    } else {
        -((-a) / b)
    }
}

/// Remainder of `a` by a positive `b` that goes with [`trunc_div`]: it has
/// the sign of `a`.
pub open spec fn trunc_rem(a: int, b: int) -> int {
    if a >= 0 {
        a % b
    } else {
        -((-a) % b)
    }
}

/// `x` is the inverse of `a` modulo `m`, taken from `[0, m)`.
pub open spec fn is_inverse(a: int, x: int, m: int) -> bool {
    0 <= x < m && (a * x) % m == 1int % m
}

/// `num_bigint::BigInt` addition (`a + b`): the exact integer sum.
#[verifier::external_body]
pub(crate) fn big_add(a: &BigNum, b: &BigNum) -> (r: BigNum)
    ensures
        r@ == a@ + b@,
{
    let sum = BigInt::from_signed_bytes_be(&a.bytes) + BigInt::from_signed_bytes_be(&b.bytes);
    BigNum { bytes: sum.to_signed_bytes_be() }
}

/// `num_bigint::BigInt` subtraction (`a - b`): the exact integer difference.
#[verifier::external_body]
pub(crate) fn big_sub(a: &BigNum, b: &BigNum) -> (r: BigNum)
    ensures
        r@ == a@ - b@,
{
    let diff = BigInt::from_signed_bytes_be(&a.bytes) - BigInt::from_signed_bytes_be(&b.bytes);
    BigNum { bytes: diff.to_signed_bytes_be() }
}

/// `num_bigint::BigInt` multiplication (`a * b`): the exact integer product.
#[verifier::external_body]
pub(crate) fn big_mul(a: &BigNum, b: &BigNum) -> (r: BigNum)
    ensures
        r@ == a@ * b@,
{
    let prod = BigInt::from_signed_bytes_be(&a.bytes) * BigInt::from_signed_bytes_be(&b.bytes);
    BigNum { bytes: prod.to_signed_bytes_be() }
}

/// `num_bigint::BigInt` division (`a / b`), which rounds toward zero and
/// panics on a zero divisor. Stated for positive divisors only.
#[verifier::external_body]
pub(crate) fn big_div(a: &BigNum, b: &BigNum) -> (r: BigNum)
    requires
        b@ > 0,
    ensures
        r@ == trunc_div(a@, b@),
{
    let quot = BigInt::from_signed_bytes_be(&a.bytes) / BigInt::from_signed_bytes_be(&b.bytes);
    BigNum { bytes: quot.to_signed_bytes_be() }
}

/// `num_bigint::BigInt` remainder (`a % b`), whose result has the sign of
/// `a` and which panics on a zero divisor. Stated for positive divisors only.
#[verifier::external_body]
pub(crate) fn big_rem(a: &BigNum, b: &BigNum) -> (r: BigNum)
    requires
        b@ > 0,
    ensures
        r@ == trunc_rem(a@, b@),
{
    let rem = BigInt::from_signed_bytes_be(&a.bytes) % BigInt::from_signed_bytes_be(&b.bytes);
    BigNum { bytes: rem.to_signed_bytes_be() }
}

/// `num_bigint::BigInt::modpow`: `base^exp` reduced into `[0, m)`. It panics
/// on a negative exponent or a zero modulus. Stated for positive moduli only.
#[verifier::external_body]
pub(crate) fn big_modpow(base: &BigNum, exp: &BigNum, m: &BigNum) -> (r: BigNum)
    requires
        exp@ >= 0,
        m@ > 0,
    ensures
        r@ == pow(base@, exp@ as nat) % m@,
{
    let b = BigInt::from_signed_bytes_be(&base.bytes);
    let e = BigInt::from_signed_bytes_be(&exp.bytes);
    let power = b.modpow(&e, &BigInt::from_signed_bytes_be(&m.bytes));
    BigNum { bytes: power.to_signed_bytes_be() }
}

/// `num_bigint::BigInt::modinv`: the inverse of `a` modulo `m` from
/// `[0, m)`, or `None` when `a` has no inverse. It panics on a zero modulus.
/// Stated for a non-negative `a` and a positive `m` only.
#[verifier::external_body]
pub(crate) fn big_modinv(a: &BigNum, m: &BigNum) -> (r: Option<BigNum>)
    requires
        a@ >= 0,
        m@ > 0,
    ensures
        match r {
            Some(x) => is_inverse(a@, x@, m@),
            None => forall|x: int| !is_inverse(a@, x, m@),
        },
{
    let inv = BigInt::from_signed_bytes_be(&a.bytes).modinv(&BigInt::from_signed_bytes_be(&m.bytes));
    match inv {
        Some(x) => Some(BigNum { bytes: x.to_signed_bytes_be() }),
        None => None,
    }
}

/// The thread-local random number generator of `rand`.
#[verifier::external_type_specification]
#[verifier::external_body]
pub struct ExThreadRng(ThreadRng);

/// `num_bigint::RandBigInt::gen_bigint_range`: a random number that is at
/// least `low` and below `high`. It panics unless `low` is below `high`.
/// Nothing is claimed of how the numbers are distributed.
#[verifier::external_body]
pub(crate) fn random_in_range(rng: &mut ThreadRng, low: &BigNum, high: &BigNum) -> (r: BigNum)
    requires
        low@ < high@,
    ensures
        low@ <= r@ < high@,
{
    let lo = BigInt::from_signed_bytes_be(&low.bytes);
    let drawn = rng.gen_bigint_range(&lo, &BigInt::from_signed_bytes_be(&high.bytes));
    BigNum { bytes: drawn.to_signed_bytes_be() }
}

/// Appending a byte shifts the value up by one byte and adds it in.
proof fn lemma_be_nat_push(s: Seq<u8>, b: u8)
    ensures
        be_nat(s.push(b)) == be_nat(s) * 256 + b,
{
    assert(s.push(b).drop_last() =~= s);
}

/// An unsigned big-endian number is zero exactly when all its bytes are.
proof fn lemma_be_nat_zero(s: Seq<u8>)
    ensures
        be_nat(s) == 0 <==> forall|i: int| 0 <= i < s.len() ==> s[i] == 0,
    decreases s.len(),
{
    if s.len() > 0 {
        let t = s.drop_last();
        lemma_be_nat_zero(t);
        if be_nat(s) == 0 {
            assert forall|i: int| 0 <= i < s.len() implies s[i] == 0 by {
                if i < t.len() {
                    assert(t[i] == s[i]);
                }
            }
        }
        if forall|i: int| 0 <= i < s.len() ==> s[i] == 0 {
            assert forall|i: int| 0 <= i < t.len() implies t[i] == 0 by {
                assert(t[i] == s[i]);
            }
        }
    }
}

fn push_byte(bytes: &mut Vec<u8>, b: u8)
    ensures
        final(bytes)@ == old(bytes)@.push(b),
        be_nat(final(bytes)@) == be_nat(old(bytes)@) * 256 + b,
{
    proof {
        lemma_be_nat_push(bytes@, b);
    }
    bytes.push(b);
}

/// A copy of a byte string.
fn copy_bytes(bytes: &[u8]) -> (r: Vec<u8>)
    ensures
        r@ == bytes@,
{
    let mut out: Vec<u8> = Vec::new();
    let mut i: usize = 0;
    while i < bytes.len()
        invariant
            i <= bytes.len(),
            out@ == bytes@.take(i as int),
        decreases bytes.len() - i,
    {
        out.push(bytes[i]);
        i += 1;
        assert(out@ =~= bytes@.take(i as int));
    }
    assert(bytes@.take(i as int) =~= bytes@);
    out
}

impl Clone for BigNum {
    fn clone(&self) -> (r: Self)
        ensures
            r@ == self@,
    {
        BigNum { bytes: copy_bytes(self.bytes.as_slice()) }
    }
}

impl BigNum {
    /// The number `v`.
    pub fn from_u64(v: u64) -> (r: BigNum)
        ensures
            r@ == v,
    {
        let x1: u64 = v / 256;
        let x2: u64 = x1 / 256;
        let x3: u64 = x2 / 256;
        let x4: u64 = x3 / 256;
        let x5: u64 = x4 / 256;
        let x6: u64 = x5 / 256;
        let x7: u64 = x6 / 256;
        let mut bytes: Vec<u8> = Vec::new();
        push_byte(&mut bytes, 0);
        push_byte(&mut bytes, x7 as u8);
        push_byte(&mut bytes, (x6 % 256) as u8);
        push_byte(&mut bytes, (x5 % 256) as u8);
        push_byte(&mut bytes, (x4 % 256) as u8);
        push_byte(&mut bytes, (x3 % 256) as u8);
        push_byte(&mut bytes, (x2 % 256) as u8);
        push_byte(&mut bytes, (x1 % 256) as u8);
        push_byte(&mut bytes, (v % 256) as u8);
        assert(be_nat(Seq::<u8>::empty()) == 0);
        BigNum { bytes }
    }

    /// The number `v`.
    pub fn from_i64(v: i64) -> (r: BigNum)
        ensures
            r@ == v,
    {
        if v >= 0 {
            return BigNum::from_u64(v as u64);
        }
        // the low 63 bits of the two's-complement form of v
        let low: u64 = (v + 1 + i64::MAX) as u64;
        let x1: u64 = low / 256;
        let x2: u64 = x1 / 256;
        let x3: u64 = x2 / 256;
        let x4: u64 = x3 / 256;
        let x5: u64 = x4 / 256;
        let x6: u64 = x5 / 256;
        let x7: u64 = x6 / 256;
        let mut bytes: Vec<u8> = Vec::new();
        push_byte(&mut bytes, (128 + x7) as u8);
        push_byte(&mut bytes, (x6 % 256) as u8);
        push_byte(&mut bytes, (x5 % 256) as u8);
        push_byte(&mut bytes, (x4 % 256) as u8);
        push_byte(&mut bytes, (x3 % 256) as u8);
        push_byte(&mut bytes, (x2 % 256) as u8);
        push_byte(&mut bytes, (x1 % 256) as u8);
        push_byte(&mut bytes, (low % 256) as u8);
        proof {
            assert(be_nat(Seq::<u8>::empty()) == 0);
            assert(pow(256, 8) == 0x1_0000_0000_0000_0000) by {
                reveal_with_fuel(pow, 9);
            }
            assert(be_nat(bytes@) == low + 0x8000_0000_0000_0000);
        }
        BigNum { bytes }
    }

    /// The number that `bytes` spell as a big-endian two's-complement
    /// string; the empty string spells zero.
    pub fn from_signed_bytes_be(bytes: &[u8]) -> (r: BigNum)
        ensures
            r@ == be_signed(bytes@),
    {
        BigNum { bytes: copy_bytes(bytes) }
    }

    /// A big-endian two's-complement string that spells the number.
    pub fn to_signed_bytes_be(&self) -> (r: Vec<u8>)
        ensures
            be_signed(r@) == self@,
    {
        copy_bytes(self.bytes.as_slice())
    }

    /// The number that `bytes` spell as an unsigned big-endian string; the
    /// empty string spells zero.
    pub fn from_bytes_be(bytes: &[u8]) -> (r: BigNum)
        ensures
            r@ == be_nat(bytes@),
    {
        let mut out: Vec<u8> = Vec::new();
        push_byte(&mut out, 0);
        let mut i: usize = 0;
        assert(bytes@.take(0) =~= Seq::<u8>::empty());
        while i < bytes.len()
            invariant
                i <= bytes.len(),
                out@.len() == i + 1,
                out@[0] == 0,
                be_nat(out@) == be_nat(bytes@.take(i as int)),
            decreases bytes.len() - i,
        {
            proof {
                assert(bytes@.take(i + 1).drop_last() =~= bytes@.take(i as int));
            }
            push_byte(&mut out, bytes[i]);
            i += 1;
        }
        assert(bytes@.take(i as int) =~= bytes@);
        BigNum { bytes: out }
    }

    /// Whether the value is negative: the sign bit of the first byte.
    pub fn is_negative(&self) -> (r: bool)
        ensures
            r == (self@ < 0),
    {
        proof {
            lemma_be_nat_bound(self.bytes@);
        }
        self.bytes.len() > 0 && self.bytes[0] >= 128
    }

    /// Whether the value is zero: no byte is set.
    pub fn is_zero(&self) -> (r: bool)
        ensures
            r == (self@ == 0),
    {
        let mut i: usize = 0;
        while i < self.bytes.len()
            invariant
                i <= self.bytes.len(),
                forall|j: int| 0 <= j < i ==> self.bytes@[j] == 0,
            decreases self.bytes.len() - i,
        {
            if self.bytes[i] != 0 {
                proof {
                    lemma_be_nat_bound(self.bytes@);
                    lemma_be_nat_zero(self.bytes@);
                }
                return false;
            }
            i += 1;
        }
        proof {
            lemma_be_nat_zero(self.bytes@);
        }
        true
    }

    /// Whether the two values are the same number.
    pub fn equals(&self, other: &BigNum) -> (r: bool)
        ensures
            r == (self@ == other@),
    {
        big_sub(self, other).is_zero()
    }

    /// Whether `self` is strictly below `other`.
    pub fn less_than(&self, other: &BigNum) -> (r: bool)
        ensures
            r == (self@ < other@),
    {
        big_sub(self, other).is_negative()
    }
}

} // verus!
