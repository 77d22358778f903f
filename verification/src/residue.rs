//! Quadratic residues modulo a prime: Euler's criterion and the
//! Tonelli-Shanks square root.

use crate::bignum::{big_add, big_div, big_mul, big_rem, big_sub, BigNum};
use crate::field::{
    cong, is_prime, lemma_cong_mul, lemma_cong_residue, lemma_cong_sub, mod_mul, modpow,
    normalize,
};
use crate::primes::{
    lemma_fermat_little, lemma_power_minus_one, lemma_root_bound, lemma_square_roots_of_one,
    one_to, poly_eval, power_minus_one,
};
use vstd::arithmetic::div_mod::{lemma_mod_bound, lemma_mul_mod_noop, lemma_small_mod};
use vstd::arithmetic::power::{
    lemma1_pow, lemma_pow0, lemma_pow1, lemma_pow_adds, lemma_pow_distributes,
    lemma_pow_mod_noop, lemma_pow_multiplies, pow,
};
use vstd::arithmetic::power2::{lemma_pow2, lemma_pow2_adds, pow2};
use vstd::prelude::*;

verus! {

/// Euler's criterion: `n` is a multiple of `p`, or
/// `n^((p-1)/2) ≡ 1 (mod p)`. For a prime `p` this says that `n` is a
/// square modulo `p`.
pub open spec fn is_residue(n: int, p: int) -> bool {
    n % p == 0 || pow(n, ((p - 1) / 2) as nat) % p == 1
}

/// What is left of `m` when every factor two is taken out.
pub open spec fn odd_part(m: int) -> int
    decreases m,
{
    if m <= 0 || m % 2 != 0 {
        m
    } else {
        odd_part(m / 2)
    }
}

/// How many factors two `m` has.
pub open spec fn two_adicity(m: int) -> int
    decreases m,
{
    if m <= 0 || m % 2 != 0 {
        0
    } else {
        1 + two_adicity(m / 2)
    }
}

/// The least number in `[z, p)` that fails Euler's criterion.
pub open spec fn least_non_residue_from(z: int, p: int) -> Option<int>
    decreases p - z,
{
    if z >= p {
        None
    } else if !is_residue(z, p) {
        Some(z)
    } else {
        least_non_residue_from(z + 1, p)
    }
}

/// The least `j` in `[i, m)` with `t^(2^j) ≡ 1 (mod p)`.
pub open spec fn least_unit_exponent(t: int, p: int, i: int, m: int) -> Option<int>
    decreases m - i,
{
    if i >= m || i < 0 {
        None
    } else if pow(t, pow2(i as nat)) % p == 1 {
        Some(i)
    } else {
        least_unit_exponent(t, p, i + 1, m)
    }
}

/// The loop of Tonelli-Shanks from the state `(m, c, t, r)`: done with `r`
/// when `t` is one; otherwise, with the least `i` in `[1, m)` for which
/// `t^(2^i) ≡ 1` and `b = c^(2^(m-i-1))`, on to
/// `(i, b^2, t*b^2, r*b)`. Without such an `i` there is no result.
pub open spec fn tonelli_shanks_from(p: int, m: int, c: int, t: int, r: int) -> Option<int>
    decreases m,
{
    if t == 1 {
        Some(r)
    } else {
        match least_unit_exponent(t, p, 1, m) {
            Some(i) if 1 <= i < m => {
                let b = pow(c, pow2((m - i - 1) as nat)) % p;
                let cc = (b * b) % p;
                tonelli_shanks_from(p, i, cc, (t * cc) % p, (r * b) % p)
            },
            _ => None,
        }
    }
}

/// The square root that Tonelli-Shanks finds for `n` modulo `p`: zero for
/// a multiple of `p`; nothing where Euler's criterion fails; otherwise,
/// with `p - 1 = q * 2^s` for an odd `q` and the least `z >= 2` that fails
/// the criterion, the result of the loop from
/// `(s, z^q, n^q, n^((q+1)/2))`.
pub open spec fn sqrt_mod_of(n: int, p: int) -> Option<int> {
    if n % p == 0 {
        Some(0)
    } else if !is_residue(n, p) {
        None
    } else {
        let q = odd_part(p - 1);
        match least_non_residue_from(2, p) {
            None => None,
            Some(z) => tonelli_shanks_from(
                p,
                two_adicity(p - 1),
                pow(z, q as nat) % p,
                pow(n, q as nat) % p,
                pow(n, ((q + 1) / 2) as nat) % p,
            ),
        }
    }
}

/// What a search returned, as the mathematics sees it.
pub open spec fn option_view(r: Option<BigNum>) -> Option<int> {
    match r {
        Some(x) => Some(x@),
        None => None,
    }
}

proof fn lemma_pow2_step(i: nat)
    ensures
        pow2(i + 1) == 2 * pow2(i),
        pow2(i) >= 1,
    decreases i,
{
    lemma_pow2(i);
    lemma_pow2(i + 1);
    reveal(pow);
    if i > 0 {
        lemma_pow2_step((i - 1) as nat);
    }
}

/// Squaring the residue of `t^(2^i)` gives the residue of `t^(2^(i+1))`.
proof fn lemma_square_doubles_exponent(t: int, p: int, i: nat)
    requires
        p > 0,
    ensures
        ((pow(t, pow2(i)) % p) * (pow(t, pow2(i)) % p)) % p == pow(t, pow2(i + 1)) % p,
{
    let e = pow2(i);
    lemma_pow2_step(i);
    lemma_pow_adds(t, e, e);
    lemma_mul_mod_noop(pow(t, e), pow(t, e), p);
}

/// The odd part of a positive number is odd and positive.
proof fn lemma_odd_part(m: int)
    requires
        m >= 1,
    ensures
        odd_part(m) % 2 == 1,
        odd_part(m) >= 1,
        two_adicity(m) >= 0,
    decreases m,
{
    if m % 2 == 0 {
        lemma_odd_part(m / 2);
    }
}

/// The loop keeps `r^2 ≡ t * n`, so what it returns is a square root of
/// `n` from `[0, p)`.
proof fn lemma_tonelli_shanks_root(p: int, m: int, c: int, t: int, r: int, n: int)
    requires
        p > 0,
        0 <= r < p,
        cong(r * r, t * n, p),
    ensures
        tonelli_shanks_from(p, m, c, t, r) matches Some(x) ==> 0 <= x < p && cong(x * x, n, p),
    decreases m,
{
    if t != 1 {
        match least_unit_exponent(t, p, 1, m) {
            Some(i) if 1 <= i < m => {
                let b = pow(c, pow2((m - i - 1) as nat)) % p;
                let cc = (b * b) % p;
                let t2 = (t * cc) % p;
                let r2 = (r * b) % p;
                // r2^2 = r^2 * b^2 = t * n * b^2 = t2 * n, modulo p
                lemma_cong_residue(r * b, p);
                lemma_cong_mul(r2, r * b, r2, r * b, p);
                assert((r * b) * (r * b) == (r * r) * (b * b)) by (nonlinear_arith);
                lemma_cong_residue(b * b, p);
                lemma_cong_mul(r * r, t * n, b * b, cc, p);
                assert((t * n) * cc == (t * cc) * n) by (nonlinear_arith);
                lemma_cong_residue(t * cc, p);
                lemma_cong_mul(t * cc, t2, n, n, p);
                lemma_tonelli_shanks_root(p, i, cc, t2, r2, n);
            },
            _ => {},
        }
    }
}

/// The result of Tonelli-Shanks is a square root of `n` from `[0, p)`.
pub proof fn lemma_sqrt_mod_squares(n: int, p: int)
    requires
        p > 0,
    ensures
        sqrt_mod_of(n, p) matches Some(x) ==> 0 <= x < p && cong(x * x, n, p),
{
    if n % p == 0 {
        lemma_small_mod(0, p as nat);
    } else if is_residue(n, p) {
        assert(p >= 2);
        let q = odd_part(p - 1);
        lemma_odd_part(p - 1);
        let h = ((q + 1) / 2) as nat;
        match least_non_residue_from(2, p) {
            None => {},
            Some(z) => {
                let t = pow(n, q as nat) % p;
                let r = pow(n, h) % p;
                // r^2 = n^(q+1) = n^q * n = t * n, modulo p
                lemma_cong_residue(pow(n, h), p);
                lemma_cong_mul(r, pow(n, h), r, pow(n, h), p);
                lemma_pow_adds(n, h, h);
                lemma_pow_adds(n, q as nat, 1);
                lemma_pow1(n);
                lemma_cong_residue(pow(n, q as nat), p);
                lemma_cong_mul(pow(n, q as nat), t, n, n, p);
                lemma_tonelli_shanks_root(p, two_adicity(p - 1), pow(z, q as nat) % p, t, r, n);
            },
        }
    }
}

/// `y` is a square root of `n` modulo `p`, from `[0, p)`.
pub open spec fn is_root_mod(y: int, n: int, p: int) -> bool {
    0 <= y < p && cong(y * y, n, p)
}

/// `n` is a square modulo `p`.
pub open spec fn is_square_mod(n: int, p: int) -> bool {
    exists|y: int| is_root_mod(y, n, p)
}

/// Congruent bases give congruent powers.
proof fn lemma_pow_cong(x: int, y: int, e: nat, p: int)
    requires
        p > 0,
        cong(x, y, p),
    ensures
        cong(pow(x, e), pow(y, e), p),
{
    lemma_pow_mod_noop(x, e, p);
    lemma_pow_mod_noop(y, e, p);
}

/// A positive number is its odd part times two to the number of its
/// factors two.
proof fn lemma_split_powers(m: int)
    requires
        m >= 1,
    ensures
        two_adicity(m) >= 0,
        odd_part(m) * pow2(two_adicity(m) as nat) == m,
    decreases m,
{
    lemma_odd_part(m);
    if m % 2 == 0 {
        lemma_split_powers(m / 2);
        lemma_odd_part(m / 2);
        let k = two_adicity(m / 2) as nat;
        lemma_pow2_step(k);
        assert(odd_part(m / 2) * (2 * pow2(k)) == 2 * (odd_part(m / 2) * pow2(k)))
            by (nonlinear_arith);
    } else {
        lemma_pow2(0);
        lemma_pow0(2);
    }
}

/// What the search for a number that fails the criterion returns is the
/// least such number in the range of the search; it returns nothing only
/// where every number in the range passes.
proof fn lemma_least_non_residue_fails(lo: int, p: int)
    ensures
        match least_non_residue_from(lo, p) {
            Some(w) => lo <= w < p && !is_residue(w, p) && forall|v: int|
                lo <= v < w ==> is_residue(v, p),
            None => forall|v: int| lo <= v < p ==> is_residue(v, p),
        },
    decreases p - lo,
{
    if lo < p && is_residue(lo, p) {
        lemma_least_non_residue_fails(lo + 1, p);
    }
}

/// Where a number in the range fails the criterion, the search finds one.
proof fn lemma_least_non_residue_exists(lo: int, z: int, p: int)
    requires
        lo <= z < p,
        !is_residue(z, p),
    ensures
        least_non_residue_from(lo, p) is Some,
    decreases z - lo,
{
    if is_residue(lo, p) {
        lemma_least_non_residue_exists(lo + 1, z, p);
    }
}

/// Modulo an odd prime some number in `[2, p)` fails Euler's criterion:
/// otherwise `X^((p-1)/2) - 1` would have `p - 1` roots.
proof fn lemma_euler_fails_somewhere(p: int) -> (z: int)
    requires
        is_prime(p),
        p >= 3,
    ensures
        2 <= z < p,
        !is_residue(z, p),
{
    if exists|z: int| 2 <= z < p && !is_residue(z, p) {
        choose|z: int| 2 <= z < p && !is_residue(z, p)
    } else {
        let h = ((p - 1) / 2) as nat;
        let c = power_minus_one(h);
        let roots = one_to((p - 1) as nat);
        lemma_small_mod(1, p as nat);
        assert forall|i: int| 0 <= i < roots.len() implies 0 <= #[trigger] roots[i] < p
            && poly_eval(c, roots[i]) % p == 0 by {
            let x = i + 1;
            lemma_small_mod(x as nat, p as nat);
            if x == 1 {
                lemma1_pow(h);
            } else {
                assert(is_residue(x, p));
            }
            lemma_power_minus_one(h, x);
            lemma_cong_sub(pow(x, h), 1, 1, 1, p);
            lemma_small_mod(0, p as nat);
        }
        lemma_root_bound(c, roots, p);
        assert(false);
        0
    }
}

/// What the search for the least exponent returns is the least `i` in the
/// range with `t^(2^i) ≡ 1`; it returns nothing only where there is none.
proof fn lemma_least_unit_exponent(t: int, p: int, lo: int, m: int)
    requires
        0 <= lo,
    ensures
        match least_unit_exponent(t, p, lo, m) {
            Some(i) => lo <= i < m && pow(t, pow2(i as nat)) % p == 1 && forall|k: int|
                lo <= k < i ==> pow(t, #[trigger] pow2(k as nat)) % p != 1,
            None => forall|k: int| lo <= k < m ==> pow(t, #[trigger] pow2(k as nat)) % p != 1,
        },
    decreases m - lo,
{
    if lo < m && pow(t, pow2(lo as nat)) % p != 1 {
        lemma_least_unit_exponent(t, p, lo + 1, m);
    }
}

/// Where `t^(2^j) ≡ 1` for some `j` in the range, the search for the
/// least such exponent finds it.
proof fn lemma_least_unit_exists(t: int, p: int, lo: int, j: int, m: int)
    requires
        0 <= lo <= j < m,
        pow(t, pow2(j as nat)) % p == 1,
    ensures
        least_unit_exponent(t, p, lo, m) matches Some(i) && lo <= i <= j && pow(
            t,
            pow2(i as nat),
        ) % p == 1 && forall|k: int| lo <= k < i ==> pow(t, #[trigger] pow2(k as nat)) % p != 1,
    decreases j - lo,
{
    if pow(t, pow2(lo as nat)) % p != 1 {
        lemma_least_unit_exists(t, p, lo + 1, j, m);
    }
}

/// Modulo an odd prime the loop of Tonelli-Shanks comes to an end with a
/// result from every state in which `c^(2^(m-1)) ≡ -1` and
/// `t^(2^(m-1)) ≡ 1`.
proof fn lemma_tonelli_shanks_ends(p: int, m: int, c: int, t: int, r: int)
    requires
        is_prime(p),
        m >= 1,
        0 <= t < p,
        cong(pow(c, pow2((m - 1) as nat)), -1, p),
        cong(pow(t, pow2((m - 1) as nat)), 1, p),
    ensures
        tonelli_shanks_from(p, m, c, t, r) is Some,
    decreases m,
{
    lemma_small_mod(1, p as nat);
    lemma_small_mod(t as nat, p as nat);
    if t != 1 {
        lemma_pow2(0);
        lemma_pow0(2);
        lemma_pow1(t);
        assert(m >= 2);
        lemma_least_unit_exists(t, p, 1, m - 1, m);
        let i = least_unit_exponent(t, p, 1, m)->Some_0;
        let low = pow2((m - i - 1) as nat);
        let b = pow(c, low) % p;
        let cc = (b * b) % p;
        let t2 = (t * cc) % p;
        let e = pow2((i - 1) as nat);
        // cc = c^(2^(m-i))
        lemma_cong_residue(pow(c, low), p);
        lemma_cong_residue(b * b, p);
        lemma_cong_mul(b, pow(c, low), b, pow(c, low), p);
        lemma_pow_adds(c, low, low);
        lemma_pow2_step((m - i - 1) as nat);
        assert(cong(cc, pow(c, pow2((m - i) as nat)), p));
        // cc^(2^(i-1)) = c^(2^(m-1)) = -1
        lemma_pow_cong(cc, pow(c, pow2((m - i) as nat)), e, p);
        lemma_pow_multiplies(c, pow2((m - i) as nat), e);
        lemma_pow2_adds((m - i) as nat, (i - 1) as nat);
        assert(cong(pow(cc, e), -1, p));
        // u = t^(2^(i-1)) is a square root of one other than one
        let u = pow(t, e);
        lemma_pow_adds(t, e, e);
        lemma_pow2_step((i - 1) as nat);
        assert(cong(u * u, 1, p));
        assert(u % p != 1) by {
            if i >= 2 {
                assert(pow(t, pow2((i - 1) as nat)) % p != 1);
            }
        }
        lemma_square_roots_of_one(u, p);
        assert(cong(u, -1, p));
        // t2^(2^(i-1)) = u * cc^(2^(i-1)) = (-1) * (-1)
        lemma_cong_residue(t * cc, p);
        lemma_pow_cong(t2, t * cc, e, p);
        lemma_pow_distributes(t, cc, e);
        lemma_cong_mul(u, -1, pow(cc, e), -1, p);
        assert((-1) * (-1) == 1) by (nonlinear_arith);
        lemma_mod_bound(t * cc, p);
        lemma_tonelli_shanks_ends(p, i, cc, t2, (r * b) % p);
    }
}

/// Modulo an odd prime Tonelli-Shanks returns a root for every number that
/// passes Euler's criterion.
pub proof fn lemma_sqrt_mod_complete(n: int, p: int)
    requires
        is_prime(p),
        p >= 3,
        is_residue(n, p),
    ensures
        sqrt_mod_of(n, p) is Some,
{
    if n % p != 0 {
        let h = ((p - 1) / 2) as nat;
        let q = odd_part(p - 1);
        let s = two_adicity(p - 1);
        assert(p % 2 != 0);
        lemma_split_powers(p - 1);
        lemma_odd_part(p - 1);
        lemma_odd_part((p - 1) / 2);
        assert(s >= 1);
        let half = pow2((s - 1) as nat);
        lemma_pow2_step((s - 1) as nat);
        assert(q * half == h) by (nonlinear_arith)
            requires
                q * (2 * half) == p - 1,
                h == (p - 1) / 2,
        ;
        let found = lemma_euler_fails_somewhere(p);
        lemma_least_non_residue_exists(2, found, p);
        lemma_least_non_residue_fails(2, p);
        let z = least_non_residue_from(2, p)->Some_0;
        lemma_small_mod(z as nat, p as nat);
        lemma_small_mod(1, p as nat);
        // c0^(2^(s-1)) = z^h, a square root of one other than one
        let c0 = pow(z, q as nat) % p;
        lemma_cong_residue(pow(z, q as nat), p);
        lemma_pow_cong(c0, pow(z, q as nat), half, p);
        lemma_pow_multiplies(z, q as nat, half);
        let v = pow(z, h);
        lemma_pow_adds(z, h, h);
        lemma_fermat_little(z, p);
        assert(cong(v * v, 1, p));
        lemma_square_roots_of_one(v, p);
        assert(cong(pow(c0, half), -1, p));
        // t0^(2^(s-1)) = n^h = 1
        let t0 = pow(n, q as nat) % p;
        lemma_cong_residue(pow(n, q as nat), p);
        lemma_pow_cong(t0, pow(n, q as nat), half, p);
        lemma_pow_multiplies(n, q as nat, half);
        lemma_mod_bound(pow(n, q as nat), p);
        lemma_tonelli_shanks_ends(p, s, c0, t0, pow(n, ((q + 1) / 2) as nat) % p);
    }
}

/// Euler's criterion: modulo an odd prime a number passes the criterion if
/// and only if it is a square.
pub proof fn lemma_euler_criterion(n: int, p: int)
    requires
        is_prime(p),
        p >= 3,
    ensures
        is_residue(n, p) <==> is_square_mod(n, p),
{
    lemma_small_mod(0, p as nat);
    lemma_small_mod(1, p as nat);
    if is_residue(n, p) {
        lemma_sqrt_mod_complete(n, p);
        lemma_sqrt_mod_squares(n, p);
        assert(is_root_mod(sqrt_mod_of(n, p)->Some_0, n, p));
    }
    if is_square_mod(n, p) && n % p != 0 {
        let y = choose|y: int| is_root_mod(y, n, p);
        let h = ((p - 1) / 2) as nat;
        assert(p % 2 != 0);
        if y % p == 0 {
            lemma_cong_mul(y, 0, y, 0, p);
            assert(0 * 0 == 0) by (nonlinear_arith);
        }
        // n^h = (y^2)^h = y^(p-1) = 1
        lemma_pow_cong(n, y * y, h, p);
        lemma_pow_distributes(y, y, h);
        lemma_pow_adds(y, h, h);
        lemma_fermat_little(y, p);
    }
}

/// Whether `n` passes Euler's criterion modulo `p`: `n ≡ 0`, or
/// `n^((p-1)/2) ≡ 1 (mod p)`.
pub fn is_quadratic_residue(n: &BigNum, p: &BigNum) -> (r: bool)
    requires
        p@ > 0,
    ensures
        r == is_residue(n@, p@),
        is_prime(p@) && p@ >= 3 ==> r == is_square_mod(n@, p@),
{
    proof {
        if is_prime(p@) && p@ >= 3 {
            lemma_euler_criterion(n@, p@);
        }
    }
    if normalize(n, p).is_zero() {
        return true;
    }
    let one = BigNum::from_u64(1);
    let half = big_div(&big_sub(p, &one), &BigNum::from_u64(2));
    modpow(n, &half, p).equals(&one)
}

/// Splits a positive `m` into its odd part and the number of factors two:
/// `m = q * 2^s` with `q` odd.
pub fn split_powers_of_two(m: &BigNum) -> (r: (BigNum, BigNum))
    requires
        m@ >= 1,
    ensures
        r.0@ == odd_part(m@),
        r.1@ == two_adicity(m@),
        r.0@ % 2 == 1,
        r.1@ >= 0,
        r.0@ * pow2(r.1@ as nat) == m@,
{
    proof {
        lemma_split_powers(m@);
    }
    let one = BigNum::from_u64(1);
    let two = BigNum::from_u64(2);
    let mut q = m.clone();
    let mut s = BigNum::from_u64(0);
    while big_rem(&q, &two).is_zero()
        invariant
            one@ == 1,
            two@ == 2,
            q@ >= 1,
            odd_part(m@) == odd_part(q@),
            two_adicity(m@) == s@ + two_adicity(q@),
        decreases q@,
    {
        s = big_add(&s, &one);
        q = big_div(&q, &two);
    }
    (q, s)
}

/// The least `z` in `[2, p)` that fails Euler's criterion, if there is one.
/// An odd prime has one.
pub fn least_non_residue(p: &BigNum) -> (r: Option<BigNum>)
    requires
        p@ > 0,
    ensures
        option_view(r) == least_non_residue_from(2, p@),
        match r {
            Some(z) => 2 <= z@ < p@ && !is_residue(z@, p@) && forall|v: int|
                2 <= v < z@ ==> is_residue(v, p@),
            None => forall|v: int| 2 <= v < p@ ==> is_residue(v, p@),
        },
        is_prime(p@) && p@ >= 3 ==> r is Some,
{
    proof {
        lemma_least_non_residue_fails(2, p@);
        if is_prime(p@) && p@ >= 3 {
            let z = lemma_euler_fails_somewhere(p@);
            lemma_least_non_residue_exists(2, z, p@);
        }
    }
    let one = BigNum::from_u64(1);
    let mut z = BigNum::from_u64(2);
    while z.less_than(p)
        invariant
            one@ == 1,
            p@ > 0,
            z@ >= 2,
            least_non_residue_from(2, p@) == least_non_residue_from(z@, p@),
        decreases p@ - z@,
    {
        if !is_quadratic_residue(&z, p) {
            proof {
                lemma_least_non_residue_fails(2, p@);
            }
            return Some(z);
        }
        z = big_add(&z, &one);
    }
    None
}

/// `2^e`.
pub fn power_of_two(e: &BigNum) -> (r: BigNum)
    requires
        e@ >= 0,
    ensures
        r@ == pow2(e@ as nat),
{
    let one = BigNum::from_u64(1);
    let two = BigNum::from_u64(2);
    let mut acc = BigNum::from_u64(1);
    let mut j = BigNum::from_u64(0);
    proof {
        lemma_pow2(0);
        lemma_pow0(2);
    }
    while j.less_than(e)
        invariant
            one@ == 1,
            two@ == 2,
            0 <= j@ <= e@,
            acc@ == pow2(j@ as nat),
        decreases e@ - j@,
    {
        proof {
            lemma_pow2_step(j@ as nat);
        }
        acc = big_mul(&acc, &two);
        j = big_add(&j, &one);
    }
    acc
}

/// The least `i` in `[1, m)` with `t^(2^i) ≡ 1 (mod p)`, found by squaring
/// `t` again and again.
pub fn find_unit_exponent(t: &BigNum, p: &BigNum, m: &BigNum) -> (r: Option<BigNum>)
    requires
        p@ > 0,
        0 <= t@ < p@,
    ensures
        option_view(r) == least_unit_exponent(t@, p@, 1, m@),
        match r {
            Some(i) => 1 <= i@ < m@ && pow(t@, pow2(i@ as nat)) % p@ == 1 && forall|k: int|
                1 <= k < i@ ==> pow(t@, #[trigger] pow2(k as nat)) % p@ != 1,
            None => forall|k: int| 1 <= k < m@ ==> pow(t@, #[trigger] pow2(k as nat)) % p@ != 1,
        },
{
    proof {
        lemma_least_unit_exponent(t@, p@, 1, m@);
    }
    let one = BigNum::from_u64(1);
    let mut i = BigNum::from_u64(1);
    let mut power = mod_mul(t, t, p);
    proof {
        lemma_pow2(0);
        lemma_pow0(2);
        lemma_pow1(t@);
        lemma_small_mod(t@ as nat, p@ as nat);
        lemma_square_doubles_exponent(t@, p@, 0);
    }
    while i.less_than(m)
        invariant
            one@ == 1,
            p@ > 0,
            i@ >= 1,
            power@ == pow(t@, pow2(i@ as nat)) % p@,
            least_unit_exponent(t@, p@, 1, m@) == least_unit_exponent(t@, p@, i@, m@),
        decreases m@ - i@,
    {
        if power.equals(&one) {
            proof {
                lemma_least_unit_exponent(t@, p@, 1, m@);
            }
            return Some(i);
        }
        proof {
            lemma_square_doubles_exponent(t@, p@, i@ as nat);
        }
        power = mod_mul(&power, &power, p);
        i = big_add(&i, &one);
    }
    None
}

/// A square root of `n` modulo `p` by Tonelli-Shanks.
///
/// Returns zero for a multiple of `p` and nothing for a number that fails
/// Euler's criterion. Otherwise `p - 1` is split as `q * 2^s` with `q`
/// odd, the least `z >= 2` that fails the criterion is found, and from
/// `M = s`, `C = z^q`, `T = n^q`, `R = n^((q+1)/2)` the loop runs until `T`
/// is one: with the least `i` in `[1, M)` for which `T^(2^i) ≡ 1` and
/// `b = C^(2^(M-i-1))`, it sets `M = i`, `C = b^2`, `T = T*b^2`,
/// `R = R*b`. The exponent `2^(M-i-1)` is computed in full.
///
/// Whatever is returned is a root: its square is congruent to `n`. Modulo
/// an odd prime a root is returned for every square. For another modulus
/// the search for `z` or for `i` can come up empty, and then nothing is
/// returned.
pub fn sqrt_mod(n: &BigNum, p: &BigNum) -> (r: Option<BigNum>)
    requires
        p@ > 0,
    ensures
        option_view(r) == sqrt_mod_of(n@, p@),
        r matches Some(x) ==> is_root_mod(x@, n@, p@),
        !is_residue(n@, p@) ==> r is None,
        is_prime(p@) && p@ >= 3 ==> (r is Some <==> is_square_mod(n@, p@)),
{
    proof {
        lemma_sqrt_mod_squares(n@, p@);
        if is_prime(p@) && p@ >= 3 {
            lemma_euler_criterion(n@, p@);
            if is_residue(n@, p@) {
                lemma_sqrt_mod_complete(n@, p@);
            }
        }
    }
    if normalize(n, p).is_zero() {
        return Some(BigNum::from_u64(0));
    }
    if !is_quadratic_residue(n, p) {
        return None;
    }
    let one = BigNum::from_u64(1);
    let two = BigNum::from_u64(2);
    let (q, s) = split_powers_of_two(&big_sub(p, &one));
    proof {
        lemma_odd_part(p@ - 1);
    }
    let z = match least_non_residue(p) {
        Some(z) => z,
        None => {
            return None;
        },
    };
    let mut m = s;
    let mut c = modpow(&z, &q, p);
    let mut t = modpow(n, &q, p);
    let mut r = modpow(n, &big_div(&big_add(&q, &one), &two), p);
    while !t.equals(&one)
        invariant
            one@ == 1,
            p@ > 0,
            0 <= t@ < p@,
            sqrt_mod_of(n@, p@) == tonelli_shanks_from(p@, m@, c@, t@, r@),
            is_prime(p@) && p@ >= 3 ==> (sqrt_mod_of(n@, p@) is Some <==> is_square_mod(n@, p@)),
        decreases m@,
    {
        let i = match find_unit_exponent(&t, p, &m) {
            Some(i) => i,
            None => {
                return None;
            },
        };
        let shift = big_sub(&big_sub(&m, &i), &one);
        let b = modpow(&c, &power_of_two(&shift), p);
        m = i;
        c = mod_mul(&b, &b, p);
        t = mod_mul(&t, &c, p);
        r = mod_mul(&r, &b, p);
    }
    Some(r)
}

} // verus!
