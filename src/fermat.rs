//! Fermat's little theorem and the fact that every odd prime is a strong
//! probable prime to every base it does not divide.

use vstd::prelude::*;
use vstd::arithmetic::power::{pow, lemma_pow0, lemma_pow1};
use vstd::arithmetic::power2::pow2;
use vstd::arithmetic::div_mod::{
    lemma_fundamental_div_mod, lemma_mod_multiples_basic, lemma_mul_mod_noop_general, lemma_small_mod,
    lemma_mod_bound,
};
use crate::primes::is_prime;
use crate::primality::{mr_bases, mr_term, odd_split, passes_mr64, strong_probable_prime, trial_primes};

verus! {

/// The binomial coefficient `n choose k`, by Pascal's rule.
pub open spec fn binom(n: nat, k: nat) -> int
    decreases n,
{
    if k == 0 {
        1
    } else if n == 0 {
        0
    } else {
        binom((n - 1) as nat, (k - 1) as nat) + binom((n - 1) as nat, k)
    }
}

/// `sum of binom(n, i) * x^i for i from 0 to k`.
pub open spec fn binom_sum(n: nat, k: nat, x: int) -> int
    decreases k,
{
    if k == 0 {
        binom(n, 0)
    } else {
        binom_sum(n, (k - 1) as nat, x) + binom(n, k) * pow(x, k)
    }
}

proof fn lemma_binom_above(n: nat, k: nat)
    requires
        k > n,
    ensures
        binom(n, k) == 0,
    decreases n,
{
    if n > 0 {
        lemma_binom_above((n - 1) as nat, (k - 1) as nat);
        lemma_binom_above((n - 1) as nat, k);
    }
}

proof fn lemma_binom_diag(n: nat)
    ensures
        binom(n, n) == 1,
    decreases n,
{
    if n > 0 {
        lemma_binom_diag((n - 1) as nat);
        lemma_binom_above((n - 1) as nat, n);
    }
}

proof fn lemma_binom_sum_step(n: nat, k: nat, x: int)
    requires
        k >= 1,
    ensures
        binom_sum(n + 1, k, x) == binom_sum(n, k, x) + x * binom_sum(n, (k - 1) as nat, x),
    decreases k,
{
    assert(binom(n + 1, k) == binom(n, (k - 1) as nat) + binom(n, k));
    reveal(pow);
    lemma_pow1(x);
    if k == 1 {
        assert(binom_sum(n + 1, 0, x) == 1 && binom_sum(n, 0, x) == 1);
        assert(pow(x, 1) == x * pow(x, 0));
        lemma_pow0(x);
        assert(binom(n, 0) == 1);
        assert(binom_sum(n + 1, 1, x) == 1 + (binom(n, 0) + binom(n, 1)) * x);
        assert((binom(n, 0) + binom(n, 1)) * x == binom(n, 1) * x + x * 1) by (nonlinear_arith)
            requires binom(n, 0) == 1;
    } else {
        lemma_binom_sum_step(n, (k - 1) as nat, x);
        let a = binom(n, (k - 1) as nat);
        let b = binom(n, k);
        let pk = pow(x, k);
        let pk1 = pow(x, (k - 1) as nat);
        assert(pk == x * pk1);
        assert((a + b) * pk == b * pk + x * (a * pk1)) by (nonlinear_arith)
            requires pk == x * pk1;
        assert(binom_sum(n, (k - 1) as nat, x) == binom_sum(n, (k - 2) as nat, x) + a * pk1);
        assert(x * binom_sum(n, (k - 1) as nat, x) == x * binom_sum(n, (k - 2) as nat, x) + x * (a
            * pk1)) by (nonlinear_arith)
            requires binom_sum(n, (k - 1) as nat, x) == binom_sum(n, (k - 2) as nat, x) + a * pk1;
    }
}

/// The binomial theorem: `(1 + x)^n = sum of binom(n, i) * x^i`.
pub proof fn lemma_binomial(n: nat, x: int)
    ensures
        pow(1 + x, n) == binom_sum(n, n, x),
    decreases n,
{
    if n == 0 {
        lemma_pow0(1 + x);
    } else {
        let m = (n - 1) as nat;
        reveal(pow);
        lemma_binomial(m, x);
        lemma_binom_sum_step(m, n, x);
        lemma_binom_above(m, n);
        assert(binom_sum(m, n, x) == binom_sum(m, m, x));
        assert(pow(1 + x, n) == (1 + x) * pow(1 + x, m));
        assert((1 + x) * binom_sum(m, m, x) == binom_sum(m, m, x) + x * binom_sum(m, m, x))
            by (nonlinear_arith);
    }
}

/// `k * binom(n, k) = n * binom(n - 1, k - 1)`.
proof fn lemma_absorption(n: nat, k: nat)
    requires
        n >= 1,
        k >= 1,
    ensures
        k * binom(n, k) == n * binom((n - 1) as nat, (k - 1) as nat),
    decreases n,
{
    if n == 1 {
        if k >= 2 {
            lemma_binom_above(1, k);
            lemma_binom_above(0, (k - 1) as nat);
            assert(k * 0 == 1 * 0) by (nonlinear_arith);
        } else {
            assert(binom(1, 1) == binom(0, 0) + binom(0, 1));
            assert(binom(0, 1) == 0);
            assert(1 * binom(1, 1) == 1 * binom(0, 0)) by (nonlinear_arith)
                requires binom(1, 1) == 1, binom(0, 0) == 1;
        }
    } else {
        let m = (n - 1) as nat;
        assert(binom(n, k) == binom(m, (k - 1) as nat) + binom(m, k));
        lemma_absorption(m, k);
        if k == 1 {
            assert(binom(m, 0) == 1);
            assert(binom((m - 1) as nat, 0) == 1);
            assert(binom(m, 1) == m) by (nonlinear_arith)
                requires 1 * binom(m, 1) == m * binom((m - 1) as nat, 0), binom((m - 1) as nat, 0) == 1;
            assert(binom(n, 1) == n);
            assert(1 * binom(n, 1) == n * binom(m, 0)) by (nonlinear_arith)
                requires binom(n, 1) == n, binom(m, 0) == 1;
        } else {
            lemma_absorption(m, (k - 1) as nat);
            assert(binom(m, (k - 1) as nat) == binom((m - 1) as nat, (k - 2) as nat) + binom(
                (m - 1) as nat,
                (k - 1) as nat,
            ));
            let c = binom(m, (k - 1) as nat);
            let c2 = binom((m - 1) as nat, (k - 2) as nat);
            let c1 = binom((m - 1) as nat, (k - 1) as nat);
            assert(k * (c + binom(m, k)) == n * c) by (nonlinear_arith)
                requires
                    k * binom(m, k) == m * c1,
                    (k - 1) * c == m * c2,
                    c == c2 + c1,
                    n == m + 1,
            ;
        }
    }
}

/// Euclid's lemma for a factor below the prime: `p | k b` with `0 < k < p`
/// gives `p | b`.
proof fn lemma_euclid_small(p: int, k: int, b: int)
    requires
        is_prime(p),
        0 < k < p,
        (k * b) % p == 0,
    ensures
        b % p == 0,
    decreases k,
{
    if k == 1 {
        assert(k * b == b) by (nonlinear_arith)
            requires k == 1;
    } else {
        let r = p % k;
        assert(p % k != 0);
        lemma_fundamental_div_mod(p, k);
        lemma_mod_bound(p, k);
        let q = p / k;
        lemma_fundamental_div_mod(k * b, p);
        let m = (k * b) / p;
        assert(r * b == p * (b - q * m)) by (nonlinear_arith)
            requires p == k * q + r, k * b == p * m + 0;
        lemma_mod_multiples_basic(b - q * m, p);
        assert((b - q * m) * p == p * (b - q * m)) by (nonlinear_arith);
        lemma_euclid_small(p, r, b);
    }
}

/// Euclid's lemma: a prime dividing a product divides a factor.
pub proof fn lemma_euclid(p: int, a: int, b: int)
    requires
        is_prime(p),
        (a * b) % p == 0,
    ensures
        a % p == 0 || b % p == 0,
{
    lemma_mod_bound(a, p);
    lemma_mul_mod_noop_general(a, b, p);
    if a % p != 0 {
        lemma_euclid_small(p, a % p, b);
    }
}

/// A prime divides `binom(p, k)` for `0 < k < p`.
proof fn lemma_prime_divides_binom(p: nat, k: nat)
    requires
        is_prime(p as int),
        0 < k < p,
    ensures
        binom(p, k) % (p as int) == 0,
{
    lemma_absorption(p, k);
    let c = binom((p - 1) as nat, (k - 1) as nat);
    lemma_mod_multiples_basic(c, p as int);
    assert(c * p == p * c) by (nonlinear_arith);
    lemma_euclid_small(p as int, k as int, binom(p, k));
}

/// Every term of the sum but the first is a multiple of `p`, for `k < p`.
proof fn lemma_binom_sum_mod(p: nat, k: nat, x: int)
    requires
        is_prime(p as int),
        k < p,
    ensures
        (binom_sum(p, k, x) - 1) % (p as int) == 0,
    decreases k,
{
    if k == 0 {
        assert(binom_sum(p, 0, x) == 1);
        lemma_small_mod(0, p);
    } else {
        lemma_binom_sum_mod(p, (k - 1) as nat, x);
        lemma_prime_divides_binom(p, k);
        let s = binom_sum(p, (k - 1) as nat, x) - 1;
        let c = binom(p, k);
        lemma_fundamental_div_mod(s, p as int);
        lemma_fundamental_div_mod(c, p as int);
        let (s1, c1) = (s / (p as int), c / (p as int));
        assert(binom_sum(p, k, x) - 1 == (p as int) * (s1 + c1 * pow(x, k))) by (nonlinear_arith)
            requires
                s == (p as int) * s1 + 0,
                c == (p as int) * c1 + 0,
                binom_sum(p, k, x) - 1 == s + c * pow(x, k),
        ;
        lemma_mod_multiples_basic(s1 + c1 * pow(x, k), p as int);
        assert((s1 + c1 * pow(x, k)) * (p as int) == (p as int) * (s1 + c1 * pow(x, k)))
            by (nonlinear_arith);
    }
}

/// Fermat: `a^p = a (mod p)` for a prime `p` and `a >= 0`.
pub proof fn lemma_fermat(p: nat, a: nat)
    requires
        is_prime(p as int),
    ensures
        (pow(a as int, p) - a) % (p as int) == 0,
    decreases a,
{
    let pi = p as int;
    if a == 0 {
        vstd::arithmetic::power::lemma0_pow(p);
        assert((0int) % pi == 0) by {
            lemma_small_mod(0, p);
        }
    } else {
        let b = (a - 1) as nat;
        lemma_fermat(p, b);
        lemma_binomial(p, b as int);
        lemma_binom_sum_mod(p, (p - 1) as nat, b as int);
        lemma_binom_diag(p);
        assert(binom_sum(p, p, b as int) == binom_sum(p, (p - 1) as nat, b as int) + pow(b as int, p));
        let u = pow(b as int, p) - b;
        let v = binom_sum(p, (p - 1) as nat, b as int) - 1;
        lemma_fundamental_div_mod(u, pi);
        lemma_fundamental_div_mod(v, pi);
        assert(pow(a as int, p) - a == pi * (u / pi + v / pi)) by (nonlinear_arith)
            requires
                u == pi * (u / pi) + 0,
                v == pi * (v / pi) + 0,
                pow(a as int, p) == binom_sum(p, (p - 1) as nat, b as int) + pow(b as int, p),
                u == pow(b as int, p) - b,
                v == binom_sum(p, (p - 1) as nat, b as int) - 1,
                a == b + 1,
        ;
        lemma_mod_multiples_basic(u / pi + v / pi, pi);
        assert((u / pi + v / pi) * pi == pi * (u / pi + v / pi)) by (nonlinear_arith);
    }
}

/// Fermat's little theorem: `a^(p-1) = 1 (mod p)` when `p` does not divide `a`.
pub proof fn lemma_fermat_little(p: nat, a: nat)
    requires
        is_prime(p as int),
        (a as int) % (p as int) != 0,
    ensures
        pow(a as int, (p - 1) as nat) % (p as int) == 1,
{
    let pi = p as int;
    lemma_fermat(p, a);
    let t = pow(a as int, (p - 1) as nat);
    reveal(pow);
    assert(pow(a as int, p) == a * t);
    assert((a as int) * (t - 1) == pow(a as int, p) - a) by (nonlinear_arith)
        requires pow(a as int, p) == a * t;
    lemma_euclid(pi, a as int, t - 1);
    lemma_fundamental_div_mod(t - 1, pi);
    let w = (t - 1) / pi;
    assert(t == pi * w + 1);
    vstd::arithmetic::div_mod::lemma_mod_multiples_vanish(w, 1, pi);
    lemma_small_mod(1, p);
}

/// The only square roots of 1 modulo a prime are 1 and -1.
proof fn lemma_sqrt_one(p: int, x: int)
    requires
        is_prime(p),
        0 <= x < p,
        (x * x) % p == 1,
    ensures
        x == 1 || x == p - 1,
{
    if x == 0 {
        assert(x * x == 0);
        lemma_small_mod(0, p as nat);
    } else {
        lemma_fundamental_div_mod(x * x, p);
        let m = (x * x) / p;
        assert((x - 1) * (x + 1) == p * m) by (nonlinear_arith)
            requires x * x == p * m + 1;
        lemma_mod_multiples_basic(m, p);
        assert(m * p == p * m) by (nonlinear_arith);
        lemma_euclid(p, x - 1, x + 1);
        if (x - 1) % p == 0 {
            lemma_small_mod((x - 1) as nat, p as nat);
        } else {
            if x + 1 < p {
                lemma_small_mod((x + 1) as nat, p as nat);
            }
        }
    }
}

/// From `x_j = 1` back to `x_0 != 1`, some term that is not 1 squares to 1.
proof fn lemma_last_not_one(n: int, a: int, d: nat, j: nat) -> (i: nat)
    requires
        n > 0,
        mr_term(n, a, d, 0) != 1,
        mr_term(n, a, d, j) == 1,
    ensures
        i < j,
        mr_term(n, a, d, i) != 1,
        mr_term(n, a, d, i + 1) == 1,
    decreases j,
{
    let k = (j - 1) as nat;
    if mr_term(n, a, d, k) != 1 {
        k
    } else {
        lemma_last_not_one(n, a, d, k)
    }
}

/// `x = odd part * 2^k` for the split of `x`.
pub proof fn lemma_odd_split(x: nat)
    ensures
        odd_split(x).0 * pow2(odd_split(x).1) == x,
        x > 0 && x % 2 == 0 ==> odd_split(x).1 >= 1,
    decreases x,
{
    vstd::arithmetic::power2::lemma2_to64();
    if x == 0 || x % 2 == 1 {
        assert(odd_split(x) == (x, 0nat));
        assert(x * pow2(0) == x) by (nonlinear_arith)
            requires pow2(0) == 1;
    } else {
        let s = odd_split(x / 2);
        assert(odd_split(x) == (s.0, s.1 + 1));
        lemma_odd_split(x / 2);
        vstd::arithmetic::power2::lemma_pow2_unfold(s.1 + 1);
        assert(s.0 * pow2(s.1 + 1) == 2 * (s.0 * pow2(s.1))) by (nonlinear_arith)
            requires pow2(s.1 + 1) == 2 * pow2(s.1);
        assert(x == 2 * (x / 2));
    }
}

/// An odd prime `p` is a strong probable prime to every base `a` with
/// `0 < a < p`.
pub proof fn lemma_prime_is_spp(p: int, a: int)
    requires
        is_prime(p),
        p % 2 == 1,
        0 < a < p,
    ensures
        strong_probable_prime(p, a, odd_split((p - 1) as nat).0, odd_split((p - 1) as nat).1),
{
    let d = odd_split((p - 1) as nat).0;
    let s = odd_split((p - 1) as nat).1;
    lemma_odd_split((p - 1) as nat);
    lemma_small_mod(a as nat, p as nat);
    lemma_fermat_little(p as nat, a as nat);
    assert(mr_term(p, a, d, s) == 1);
    if mr_term(p, a, d, 0) != 1 {
        let i = lemma_last_not_one(p, a, d, s);
        crate::primality::lemma_mr_term_next(p, a, d, i);
        let x = mr_term(p, a, d, i);
        lemma_mod_bound(pow(a, d * pow2(i)), p);
        lemma_sqrt_one(p, x);
        assert(mr_term(p, a, d, i) == p - 1);
    }
}

/// The deterministic 64-bit test accepts every prime: no trial prime divides
/// a prime other than itself, and a prime is a strong probable prime to each
/// base.
pub proof fn lemma_primes_pass_mr64(n: int)
    requires
        is_prime(n),
        n <= u64::MAX,
    ensures
        passes_mr64(n),
{
    let tp = trial_primes();
    if !tp.contains(n as u64) {
        assert forall|i: int| 0 <= i < tp.len() implies n % (#[trigger] tp[i] as int) != 0 by {
            let d = tp[i] as int;
            assert(d >= 2);
            if n % d == 0 {
                if d > n {
                    lemma_small_mod(n as nat, d as nat);
                } else if d == n {
                    assert(tp[i] == n as u64);
                    assert(tp.contains(n as u64));
                }
            }
        }
        assert(tp[0] == 2);
        assert(n % 2 == 1);
        assert forall|i: int| 0 <= i < mr_bases().len() implies (#[trigger] mr_bases()[i] as int) % n == 0
            || strong_probable_prime(
            n,
            (mr_bases()[i] as int) % n,
            odd_split((n - 1) as nat).0,
            odd_split((n - 1) as nat).1,
        ) by {
            let a = (mr_bases()[i] as int) % n;
            lemma_mod_bound(mr_bases()[i] as int, n);
            if a != 0 {
                lemma_prime_is_spp(n, a);
            }
        }
    }
}

} // verus!
