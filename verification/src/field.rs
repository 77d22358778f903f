//! Arithmetic modulo a positive integer: canonical residues, sums,
//! products, powers and inverses, and what is special about a prime
//! modulus.

use crate::bignum::{
    big_add, big_modinv, big_modpow, big_mul, big_rem, is_inverse, trunc_rem, BigNum,
};
use crate::error::EcError;
use vstd::arithmetic::div_mod::{
    lemma_add_mod_noop, lemma_fundamental_div_mod, lemma_fundamental_div_mod_converse,
    lemma_mod_bound, lemma_mod_multiples_vanish, lemma_mod_twice, lemma_mul_mod_noop,
    lemma_mul_mod_noop_general, lemma_small_mod, lemma_sub_mod_noop,
};
use vstd::arithmetic::power::pow;
use vstd::prelude::*;

verus! {

/// `a` and `b` leave the same residue modulo `m`.
pub open spec fn cong(a: int, b: int, m: int) -> bool {
    a % m == b % m
}

/// Some number in `[0, m)` is an inverse of `a` modulo `m`.
pub open spec fn has_inverse(a: int, m: int) -> bool {
    exists|x: int| is_inverse(a, x, m)
}

/// The inverse of `a` modulo `m` from `[0, m)`, where there is one.
pub open spec fn mod_inverse(a: int, m: int) -> int {
    choose|x: int| is_inverse(a, x, m)
}

/// Congruences can be added.
pub proof fn lemma_cong_add(a: int, b: int, c: int, d: int, m: int)
    requires
        m > 0,
        cong(a, b, m),
        cong(c, d, m),
    ensures
        cong(a + c, b + d, m),
{
    lemma_add_mod_noop(a, c, m);
    lemma_add_mod_noop(b, d, m);
}

/// Congruences can be subtracted.
pub proof fn lemma_cong_sub(a: int, b: int, c: int, d: int, m: int)
    requires
        m > 0,
        cong(a, b, m),
        cong(c, d, m),
    ensures
        cong(a - c, b - d, m),
{
    lemma_sub_mod_noop(a, c, m);
    lemma_sub_mod_noop(b, d, m);
}

/// Congruences can be multiplied.
pub proof fn lemma_cong_mul(a: int, b: int, c: int, d: int, m: int)
    requires
        m > 0,
        cong(a, b, m),
        cong(c, d, m),
    ensures
        cong(a * c, b * d, m),
{
    lemma_mul_mod_noop(a, c, m);
    lemma_mul_mod_noop(b, d, m);
}

/// A number is congruent to its residue.
pub proof fn lemma_cong_residue(a: int, m: int)
    requires
        m > 0,
    ensures
        cong(a % m, a, m),
        0 <= a % m < m,
{
    lemma_mod_twice(a, m);
    lemma_mod_bound(a, m);
}

/// A number congruent to zero is a multiple of the modulus.
pub proof fn lemma_cong_zero_factor(a: int, m: int) -> (k: int)
    requires
        m > 0,
        cong(a, 0, m),
    ensures
        a == k * m,
{
    lemma_fundamental_div_mod(a, m);
    assert(m * (a / m) == (a / m) * m) by (nonlinear_arith);
    a / m
}

/// There is at most one inverse in `[0, m)`.
pub proof fn lemma_inverse_unique(a: int, x: int, y: int, m: int)
    requires
        m > 0,
        is_inverse(a, x, m),
        is_inverse(a, y, m),
    ensures
        x == y,
{
    // x = x * 1 = x * (a * y) = (x * a) * y = 1 * y = y, modulo m
    lemma_cong_mul(x, x, a * y, 1, m);
    lemma_cong_mul(a * x, 1, y, y, m);
    assert(x * (a * y) == (a * x) * y) by (nonlinear_arith);
    assert(x * 1 == x && 1 * y == y);
    lemma_small_mod(x as nat, m as nat);
    lemma_small_mod(y as nat, m as nat);
}

/// The inverse that a search found is the one that `mod_inverse` names.
pub proof fn lemma_inverse_found(a: int, x: int, m: int)
    requires
        m > 0,
        is_inverse(a, x, m),
    ensures
        has_inverse(a, m),
        mod_inverse(a, m) == x,
{
    lemma_inverse_unique(a, x, mod_inverse(a, m), m);
}

/// Inverses depend on the residue of `a` alone.
pub proof fn lemma_inverse_of_residue(a: int, x: int, m: int)
    requires
        m > 0,
    ensures
        is_inverse(a % m, x, m) == is_inverse(a, x, m),
{
    lemma_mul_mod_noop_general(a, x, m);
}

/// The greatest common divisor, by Euclid's algorithm.
pub open spec fn gcd(a: nat, b: nat) -> nat
    decreases b,
{
    if b == 0 {
        a
    } else {
        gcd(b, a % b)
    }
}

/// The greatest common divisor divides both numbers.
proof fn lemma_gcd_divides(a: nat, b: nat)
    ensures
        gcd(a, b) == 0 ==> a == 0 && b == 0,
        gcd(a, b) > 0 ==> a % gcd(a, b) == 0 && b % gcd(a, b) == 0,
    decreases b,
{
    let g = gcd(a, b);
    if b > 0 {
        lemma_gcd_divides(b, a % b);
        lemma_fundamental_div_mod(a as int, b as int);
        lemma_small_mod(0, g);
        let kb = lemma_cong_zero_factor(b as int, g as int);
        let q = (a / b) as int;
        assert((b as int) * q == (g as int) * (kb * q)) by (nonlinear_arith)
            requires
                b as int == kb * (g as int),
        ;
        lemma_mod_multiples_vanish(kb * q, (a % b) as int, g as int);
    } else if a > 0 {
        vstd::arithmetic::div_mod::lemma_mod_self_0(a as int);
        lemma_small_mod(0, a);
    }
}

/// Bezout's identity: the greatest common divisor is a combination of the
/// two numbers.
proof fn lemma_bezout(a: nat, b: nat) -> (xy: (int, int))
    ensures
        a * xy.0 + b * xy.1 == gcd(a, b),
    decreases b,
{
    if b == 0 {
        (1, 0)
    } else {
        let (x, y) = lemma_bezout(b, a % b);
        let q = (a / b) as int;
        lemma_fundamental_div_mod(a as int, b as int);
        assert(a * y + b * (x - q * y) == b * x + (a % b) * y) by (nonlinear_arith)
            requires
                a as int == (b as int) * q + (a % b) as int,
        ;
        (y, x - q * y)
    }
}

/// A number has an inverse modulo `m` if and only if its residue and `m`
/// have no common divisor but one.
pub proof fn lemma_inverse_iff_coprime(a: int, m: int)
    requires
        m > 0,
    ensures
        has_inverse(a, m) <==> gcd((a % m) as nat, m as nat) == 1,
{
    lemma_mod_bound(a, m);
    let r = (a % m) as nat;
    let g = gcd(r, m as nat);
    lemma_gcd_divides(r, m as nat);
    if g == 1 {
        let (x, y) = lemma_bezout(r, m as nat);
        assert(r * x == m * (-y) + 1) by (nonlinear_arith)
            requires
                r * x + m * y == 1,
        ;
        lemma_mod_multiples_vanish(-y, 1, m);
        lemma_mul_mod_noop_general(r as int, x, m);
        lemma_mod_bound(x, m);
        assert(is_inverse(r as int, x % m, m));
        lemma_inverse_of_residue(a, x % m, m);
    }
    if has_inverse(a, m) && g != 1 {
        let x = mod_inverse(a, m);
        lemma_inverse_of_residue(a, x, m);
        // g divides r * x and m, hence also 1 = r * x - m * k
        lemma_small_mod(0, g);
        let kr = lemma_cong_zero_factor(r as int, g as int);
        let km = lemma_cong_zero_factor(m, g as int);
        lemma_fundamental_div_mod(r * x, m);
        let k = (r * x) / m;
        if m == 1 {
            assert(gcd(0, 1) == gcd(1, 0));
        } else {
            lemma_small_mod(1, m as nat);
            assert(1 == (g as int) * (kr * x - km * k)) by (nonlinear_arith)
                requires
                    r * x == m * k + 1,
                    r as int == kr * (g as int),
                    m == km * (g as int),
            ;
            lemma_mod_multiples_vanish(kr * x - km * k, 0, g as int);
            lemma_small_mod(1, g);
        }
    }
}

/// `p` is a prime number.
pub open spec fn is_prime(p: int) -> bool {
    p >= 2 && forall|d: int| 1 < d < p ==> #[trigger] (p % d) != 0
}

/// Modulo a prime every number in `(0, p)` has an inverse. The proof runs
/// down the remainders of `p`: with `p = q*a + r`, an inverse `x` of `r`
/// gives the inverse `-q*x` of `a`.
proof fn lemma_prime_inverse_below(a: int, p: int) -> (x: int)
    requires
        is_prime(p),
        0 < a < p,
    ensures
        is_inverse(a, x, p),
    decreases a,
{
    if a == 1 {
        lemma_small_mod(1, p as nat);
        1
    } else {
        let q = p / a;
        let r = p % a;
        lemma_fundamental_div_mod(p, a);
        lemma_mod_bound(p, a);
        assert(r != 0);
        let xr = lemma_prime_inverse_below(r, p);
        let y = -q * xr;
        assert(a * y == p * (-xr) + r * xr) by (nonlinear_arith)
            requires
                p == a * q + r,
                y == -q * xr,
        ;
        lemma_mod_multiples_vanish(-xr, r * xr, p);
        lemma_mul_mod_noop_general(a, y, p);
        lemma_mod_bound(y, p);
        y % p
    }
}

/// Modulo a prime every number that is no multiple of it has an inverse.
pub proof fn lemma_prime_has_inverse(a: int, p: int)
    requires
        is_prime(p),
        a % p != 0,
    ensures
        has_inverse(a, p),
{
    lemma_mod_bound(a, p);
    let x = lemma_prime_inverse_below(a % p, p);
    lemma_inverse_of_residue(a, x, p);
}

/// Modulo a prime exactly the multiples of the prime have no inverse.
pub proof fn lemma_prime_inverse_iff_nonzero(a: int, p: int)
    requires
        is_prime(p),
    ensures
        has_inverse(a, p) <==> a % p != 0,
{
    if a % p != 0 {
        lemma_prime_has_inverse(a, p);
    } else if has_inverse(a, p) {
        let x = mod_inverse(a, p);
        lemma_small_mod(0, p as nat);
        lemma_small_mod(1, p as nat);
        lemma_cong_mul(a, 0, x, x, p);
        assert(0 * x == 0);
    }
}

/// A prime that divides a product divides one of the factors.
pub proof fn lemma_prime_divides_product(a: int, b: int, p: int)
    requires
        is_prime(p),
        (a * b) % p == 0,
    ensures
        a % p == 0 || b % p == 0,
{
    if a % p != 0 {
        lemma_prime_has_inverse(a, p);
        let x = mod_inverse(a, p);
        // b = (x * a) * b = x * (a * b) = 0, modulo p
        assert(a * x == x * a) by (nonlinear_arith);
        lemma_small_mod(1, p as nat);
        lemma_small_mod(0, p as nat);
        lemma_cong_mul(x * a, 1, b, b, p);
        lemma_cong_mul(x, x, a * b, 0, p);
        assert((x * a) * b == x * (a * b)) by (nonlinear_arith);
        assert(1 * b == b && x * 0 == 0);
    }
}

/// A number strictly between `-p` and `p` that is a multiple of `p` is zero.
pub proof fn lemma_small_multiple_is_zero(d: int, p: int)
    requires
        p > 0,
        -p < d < p,
        d % p == 0,
    ensures
        d == 0,
{
    lemma_small_mod(0, p as nat);
    let k = lemma_cong_zero_factor(d, p);
    assert(k == 0) by (nonlinear_arith)
        requires
            d == k * p,
            -p < d < p,
            p > 0,
    ;
}

/// How the remainder that rounds toward zero relates to the residue.
pub proof fn lemma_trunc_rem_residue(x: int, m: int)
    requires
        m > 0,
    ensures
        x % m == if trunc_rem(x, m) < 0 {
            trunc_rem(x, m) + m
        } else {
            trunc_rem(x, m)
        },
{
    if x < 0 {
        let q = (-x) / m;
        let r = (-x) % m;
        lemma_fundamental_div_mod(-x, m);
        lemma_mod_bound(-x, m);
        if r == 0 {
            assert(x == (-q) * m + 0) by (nonlinear_arith)
                requires
                    -x == m * q + r,
                    r == 0,
            ;
            lemma_fundamental_div_mod_converse(x, m, -q, 0);
        } else {
            assert(x == (-q - 1) * m + (m - r)) by (nonlinear_arith)
                requires
                    -x == m * q + r,
            ;
            lemma_fundamental_div_mod_converse(x, m, -q - 1, m - r);
        }
    } else {
        lemma_mod_bound(x, m);
    }
}

/// The residue of `x` modulo `m`, from `[0, m)`.
pub fn normalize(x: &BigNum, m: &BigNum) -> (r: BigNum)
    requires
        m@ > 0,
    ensures
        r@ == x@ % m@,
        0 <= r@ < m@,
{
    proof {
        lemma_trunc_rem_residue(x@, m@);
        lemma_mod_bound(x@, m@);
    }
    let r = big_rem(x, m);
    if r.is_negative() {
        big_add(&r, m)
    } else {
        r
    }
}

/// `(a + b) mod m`.
pub fn mod_add(a: &BigNum, b: &BigNum, m: &BigNum) -> (r: BigNum)
    requires
        m@ > 0,
    ensures
        r@ == (a@ + b@) % m@,
        0 <= r@ < m@,
{
    normalize(&big_add(a, b), m)
}

/// `(a * b) mod m`.
pub fn mod_mul(a: &BigNum, b: &BigNum, m: &BigNum) -> (r: BigNum)
    requires
        m@ > 0,
    ensures
        r@ == (a@ * b@) % m@,
        0 <= r@ < m@,
{
    normalize(&big_mul(a, b), m)
}

/// `base^exp mod m`, from `[0, m)`.
pub fn modpow(base: &BigNum, exp: &BigNum, m: &BigNum) -> (r: BigNum)
    requires
        exp@ >= 0,
        m@ > 0,
    ensures
        r@ == pow(base@, exp@ as nat) % m@,
        0 <= r@ < m@,
{
    proof {
        lemma_mod_bound(pow(base@, exp@ as nat), m@);
    }
    big_modpow(base, exp, m)
}

/// The inverse of `a` modulo `m`: the one `x` in `[0, m)` with
/// `a * x ≡ 1 (mod m)`. Fails with `NoInverse` exactly when there is none,
/// which is when `a` and `m` share a factor; modulo a prime that is when
/// `a` is a multiple of it.
pub fn modinv(a: &BigNum, m: &BigNum) -> (r: Result<BigNum, EcError>)
    requires
        m@ > 0,
    ensures
        r is Ok <==> has_inverse(a@, m@),
        r is Ok <==> gcd((a@ % m@) as nat, m@ as nat) == 1,
        is_prime(m@) ==> (r is Ok <==> a@ % m@ != 0),
        r matches Ok(x) ==> is_inverse(a@, x@, m@) && x@ == mod_inverse(a@, m@),
        r matches Err(e) ==> e == EcError::NoInverse,
{
    proof {
        lemma_inverse_iff_coprime(a@, m@);
        if is_prime(m@) {
            lemma_prime_inverse_iff_nonzero(a@, m@);
        }
    }
    let reduced = normalize(a, m);
    match big_modinv(&reduced, m) {
        Some(x) => {
            proof {
                lemma_inverse_of_residue(a@, x@, m@);
                lemma_inverse_found(a@, x@, m@);
            }
            Ok(x)
        },
        None => {
            proof {
                assert forall|x: int| !is_inverse(a@, x, m@) by {
                    lemma_inverse_of_residue(a@, x, m@);
                }
            }
            Err(EcError::NoInverse)
        },
    }
}

} // verus!
