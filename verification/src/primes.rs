//! Number theory modulo a prime: Fermat's little theorem, the two square
//! roots of one, and the bound on the roots of a polynomial.

use crate::field::{
    cong, is_prime, lemma_cong_mul, lemma_cong_residue, lemma_cong_sub,
    lemma_prime_divides_product, lemma_small_multiple_is_zero,
};
use vstd::arithmetic::div_mod::{lemma_mod_bound, lemma_mul_mod_noop_general, lemma_small_mod};
use vstd::arithmetic::power::{lemma_pow0, pow};
use vstd::prelude::*;
use vstd::seq_lib::lemma_fold_right_permutation;
use vstd::set_lib::lemma_subset_equality;

verus! {

/// The numbers `1, 2, .., n`.
pub open spec fn one_to(n: nat) -> Seq<int> {
    Seq::new(n, |i: int| i + 1)
}

/// The residues of `a*1, a*2, .., a*n` modulo `p`.
pub open spec fn multiples_of(a: int, n: nat, p: int) -> Seq<int> {
    Seq::new(n, |i: int| (a * (i + 1)) % p)
}

/// The product of the numbers of a sequence.
pub open spec fn product(s: Seq<int>) -> int
    decreases s.len(),
{
    if s.len() == 0 {
        1
    } else {
        product(s.drop_last()) * s.last()
    }
}

/// Multiplication into an accumulator that is kept reduced modulo `p`.
pub open spec fn times_mod(p: int) -> spec_fn(int, int) -> int {
    |x: int, acc: int| (x * acc) % p
}

/// Modulo a prime a factor that is no multiple of it can be cancelled.
pub proof fn lemma_cancel_factor(a: int, x: int, y: int, p: int)
    requires
        is_prime(p),
        a % p != 0,
        cong(a * x, a * y, p),
    ensures
        cong(x, y, p),
{
    lemma_cong_sub(a * x, a * y, a * y, a * y, p);
    assert(a * x - a * y == a * (x - y)) by (nonlinear_arith);
    lemma_small_mod(0, p as nat);
    lemma_prime_divides_product(a, x - y, p);
    vstd::arithmetic::div_mod::lemma_mod_equivalence(x, y, p);
}

/// Folding with `times_mod` multiplies the accumulator by the product.
proof fn lemma_fold_is_product(s: Seq<int>, acc: int, p: int)
    requires
        p > 0,
        0 <= acc < p,
    ensures
        s.fold_right(times_mod(p), acc) == (product(s) * acc) % p,
    decreases s.len(),
{
    if s.len() == 0 {
        lemma_small_mod(acc as nat, p as nat);
    } else {
        let next = (s.last() * acc) % p;
        lemma_mod_bound(s.last() * acc, p);
        lemma_fold_is_product(s.drop_last(), next, p);
        let front = product(s.drop_last());
        lemma_cong_residue(s.last() * acc, p);
        lemma_cong_mul(front, front, next, s.last() * acc, p);
        assert(front * (s.last() * acc) == (front * s.last()) * acc) by (nonlinear_arith);
    }
}

proof fn lemma_times_mod_commutes(p: int)
    requires
        p > 0,
    ensures
        vstd::seq_lib::commutative_foldr(times_mod(p)),
{
    let f = times_mod(p);
    assert forall|x: int, y: int, v: int| #[trigger] f(x, f(y, v)) == f(y, f(x, v)) by {
        lemma_mul_mod_noop_general(x, y * v, p);
        lemma_mul_mod_noop_general(y, x * v, p);
        assert(x * (y * v) == y * (x * v)) by (nonlinear_arith);
    }
}

/// The product of `a*1, .., a*n` reduced is congruent to `a^n * n!`.
proof fn lemma_product_of_multiples(a: int, n: nat, p: int)
    requires
        p > 0,
    ensures
        cong(product(multiples_of(a, n, p)), pow(a, n) * product(one_to(n)), p),
    decreases n,
{
    if n == 0 {
        lemma_pow0(a);
    } else {
        let m = (n - 1) as nat;
        lemma_product_of_multiples(a, m, p);
        assert(multiples_of(a, n, p).drop_last() =~= multiples_of(a, m, p));
        assert(one_to(n).drop_last() =~= one_to(m));
        let front = product(multiples_of(a, m, p));
        let fact = product(one_to(m));
        lemma_cong_residue(a * n, p);
        lemma_cong_mul(front, pow(a, m) * fact, (a * n) % p, a * n, p);
        assert(pow(a, n) == a * pow(a, m)) by {
            reveal(pow);
        }
        assert((pow(a, m) * fact) * (a * n) == (a * pow(a, m)) * (fact * n)) by (nonlinear_arith);
    }
}

/// The product of `1, .., n` is no multiple of a prime above `n`.
proof fn lemma_factorial_not_multiple(n: nat, p: int)
    requires
        is_prime(p),
        n < p,
    ensures
        product(one_to(n)) % p != 0,
    decreases n,
{
    if n == 0 {
        lemma_small_mod(1, p as nat);
    } else {
        let m = (n - 1) as nat;
        lemma_factorial_not_multiple(m, p);
        assert(one_to(n).drop_last() =~= one_to(m));
        if product(one_to(n)) % p == 0 {
            lemma_prime_divides_product(product(one_to(m)), n as int, p);
            lemma_small_mod(n, p as nat);
        }
    }
}

/// Multiplying `1, .., p-1` by `a` and reducing only shuffles them.
proof fn lemma_multiples_shuffle(a: int, p: int)
    requires
        is_prime(p),
        a % p != 0,
    ensures
        multiples_of(a, (p - 1) as nat, p).to_multiset() == one_to((p - 1) as nat).to_multiset(),
{
    let n = (p - 1) as nat;
    let s = one_to(n);
    let t = multiples_of(a, n, p);
    assert(s.no_duplicates());
    assert forall|i: int, j: int| 0 <= i < t.len() && 0 <= j < t.len() && i != j implies t[i]
        != t[j] by {
        if t[i] == t[j] {
            lemma_cancel_factor(a, i + 1, j + 1, p);
            lemma_small_mod((i + 1) as nat, p as nat);
            lemma_small_mod((j + 1) as nat, p as nat);
        }
    }
    assert(t.no_duplicates());
    assert forall|v: int| t.to_set().contains(v) implies s.to_set().contains(v) by {
        let i = choose|i: int| 0 <= i < t.len() && t[i] == v;
        lemma_mod_bound(a * (i + 1), p);
        if v == 0 {
            lemma_prime_divides_product(a, i + 1, p);
            lemma_small_mod((i + 1) as nat, p as nat);
        }
        assert(s[v - 1] == v);
    }
    s.unique_seq_to_set();
    t.unique_seq_to_set();
    vstd::seq_lib::seq_to_set_is_finite(s);
    vstd::seq_lib::seq_to_set_is_finite(t);
    lemma_subset_equality(t.to_set(), s.to_set());
    s.lemma_multiset_has_no_duplicates();
    t.lemma_multiset_has_no_duplicates();
    s.to_multiset_ensures();
    t.to_multiset_ensures();
    assert forall|v: int| s.to_multiset().count(v) == t.to_multiset().count(v) by {
        assert(s.contains(v) == s.to_set().contains(v));
        assert(t.contains(v) == t.to_set().contains(v));
    }
    assert(t.to_multiset() =~= s.to_multiset());
}

/// Fermat's little theorem: `a^(p-1) ≡ 1` modulo a prime `p` that does not
/// divide `a`.
pub proof fn lemma_fermat_little(a: int, p: int)
    requires
        is_prime(p),
        a % p != 0,
    ensures
        pow(a, (p - 1) as nat) % p == 1,
{
    let n = (p - 1) as nat;
    let s = one_to(n);
    let t = multiples_of(a, n, p);
    let fact = product(s);
    lemma_small_mod(1, p as nat);
    lemma_multiples_shuffle(a, p);
    lemma_times_mod_commutes(p);
    lemma_fold_right_permutation(t, s, times_mod(p), 1);
    lemma_fold_is_product(s, 1, p);
    lemma_fold_is_product(t, 1, p);
    assert(product(t) * 1 == product(t) && fact * 1 == fact);
    lemma_product_of_multiples(a, n, p);
    // a^(p-1) * (p-1)! = 1 * (p-1)!, and (p-1)! cancels
    assert(pow(a, n) * fact == fact * pow(a, n)) by (nonlinear_arith);
    assert(fact * 1 == fact);
    lemma_factorial_not_multiple(n, p);
    lemma_cancel_factor(fact, pow(a, n), 1, p);
}

/// Modulo a prime the only square roots of one are one and minus one.
pub proof fn lemma_square_roots_of_one(x: int, p: int)
    requires
        is_prime(p),
        cong(x * x, 1, p),
    ensures
        cong(x, 1, p) || cong(x, -1, p),
{
    lemma_cong_sub(x * x, 1, 1, 1, p);
    assert(x * x - 1 == (x - 1) * (x + 1)) by (nonlinear_arith);
    lemma_small_mod(0, p as nat);
    lemma_prime_divides_product(x - 1, x + 1, p);
    vstd::arithmetic::div_mod::lemma_mod_equivalence(x, 1, p);
    vstd::arithmetic::div_mod::lemma_mod_equivalence(x, -1, p);
}

/// The value at `x` of the polynomial with the coefficients `c`, highest
/// power first.
pub open spec fn poly_eval(c: Seq<int>, x: int) -> int
    decreases c.len(),
{
    if c.len() == 0 {
        0
    } else {
        poly_eval(c.drop_last(), x) * x + c.last()
    }
}

/// The quotient of the polynomial `c` by `X - r`: its coefficients are the
/// values at `r` of the leading parts of `c`.
pub open spec fn poly_quotient(c: Seq<int>, r: int) -> Seq<int> {
    Seq::new((c.len() - 1) as nat, |i: int| poly_eval(c.take(i + 1), r))
}

/// Division by `X - r` leaves the value at `r` as the remainder.
proof fn lemma_poly_division(c: Seq<int>, r: int, x: int)
    requires
        c.len() >= 1,
    ensures
        poly_eval(c, x) == (x - r) * poly_eval(poly_quotient(c, r), x) + poly_eval(c, r),
    decreases c.len(),
{
    let g = poly_quotient(c, r);
    if c.len() == 1 {
        assert(c.drop_last().len() == 0);
        assert(poly_eval(c.drop_last(), x) == 0 && poly_eval(c.drop_last(), r) == 0);
        assert(poly_eval(g, x) == 0);
        assert((x - r) * 0 == 0);
    } else {
        let front = c.drop_last();
        let gf = poly_quotient(front, r);
        lemma_poly_division(front, r, x);
        assert(g.drop_last() =~= gf) by {
            assert forall|i: int| 0 <= i < gf.len() implies g.drop_last()[i] == gf[i] by {
                assert(c.take(i + 1) =~= front.take(i + 1));
            }
        }
        assert(c.take(c.len() - 1) =~= front);
        let e = poly_eval(front, r);
        let gx = poly_eval(gf, x);
        assert(g.last() == e);
        assert(poly_eval(g, x) == gx * x + e);
        assert(((x - r) * gx + e) * x + c.last() == (x - r) * (gx * x + e) + (e * r + c.last()))
            by (nonlinear_arith);
    }
}

/// Lagrange's bound: modulo a prime a polynomial whose leading coefficient
/// is no multiple of the prime has at most as many roots among the
/// residues as its degree.
pub proof fn lemma_root_bound(c: Seq<int>, roots: Seq<int>, p: int)
    requires
        is_prime(p),
        c.len() >= 1,
        c[0] % p != 0,
        roots.no_duplicates(),
        forall|i: int|
            0 <= i < roots.len() ==> 0 <= #[trigger] roots[i] < p && poly_eval(c, roots[i]) % p
                == 0,
    ensures
        roots.len() <= c.len() - 1,
    decreases c.len(),
{
    lemma_small_mod(0, p as nat);
    if roots.len() > 0 {
        let r = roots.last();
        let rest = roots.drop_last();
        let g = poly_quotient(c, r);
        assert(c.take(1).drop_last().len() == 0);
        assert(poly_eval(c.take(1), r) == 0 * r + c[0]) by {
            assert(poly_eval(c.take(1).drop_last(), r) == 0);
            assert(c.take(1).last() == c[0]);
        }
        if c.len() == 1 {
            assert(c.take(1) =~= c);
            assert(false);
        } else {
            assert(g[0] == c[0]);
            assert forall|i: int| 0 <= i < rest.len() implies 0 <= #[trigger] rest[i] < p
                && poly_eval(g, rest[i]) % p == 0 by {
                let x = rest[i];
                assert(x == roots[i]);
                assert(x != r);
                lemma_poly_division(c, r, x);
                // (x - r) * g(x) = c(x) - c(r) = 0 modulo p, and x - r is no multiple of p
                lemma_cong_sub(poly_eval(c, x), 0, poly_eval(c, r), 0, p);
                lemma_prime_divides_product(x - r, poly_eval(g, x), p);
                if (x - r) % p == 0 {
                    lemma_small_multiple_is_zero(x - r, p);
                }
            }
            lemma_root_bound(g, rest, p);
        }
    }
}

/// The coefficients of `X^h - 1`.
pub open spec fn power_minus_one(h: nat) -> Seq<int> {
    Seq::new(
        h + 1,
        |i: int|
            if i == 0 {
                1int
            } else if i == h {
                -1int
            } else {
                0int
            },
    )
}

proof fn lemma_power_prefix(h: nat, k: nat, x: int)
    requires
        1 <= k <= h,
    ensures
        poly_eval(power_minus_one(h).take(k as int), x) == pow(x, (k - 1) as nat),
    decreases k,
{
    let c = power_minus_one(h).take(k as int);
    if k == 1 {
        assert(c.drop_last().len() == 0);
        assert(poly_eval(c.drop_last(), x) == 0);
        lemma_pow0(x);
    } else {
        lemma_power_prefix(h, (k - 1) as nat, x);
        assert(c.drop_last() =~= power_minus_one(h).take(k - 1));
        assert(c.last() == 0);
        assert(pow(x, (k - 1) as nat) == x * pow(x, (k - 2) as nat)) by {
            reveal(pow);
        }
        assert(pow(x, (k - 2) as nat) * x == x * pow(x, (k - 2) as nat)) by (nonlinear_arith);
    }
}

/// The polynomial `X^h - 1` has the value `x^h - 1` at `x`.
pub proof fn lemma_power_minus_one(h: nat, x: int)
    requires
        h >= 1,
    ensures
        poly_eval(power_minus_one(h), x) == pow(x, h) - 1,
{
    let c = power_minus_one(h);
    lemma_power_prefix(h, h, x);
    assert(c.drop_last() =~= c.take(h as int));
    assert(pow(x, h) == x * pow(x, (h - 1) as nat)) by {
        reveal(pow);
    }
    assert(pow(x, (h - 1) as nat) * x == x * pow(x, (h - 1) as nat)) by (nonlinear_arith);
}

} // verus!
