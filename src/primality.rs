//! Modular exponentiation and the Miller-Rabin test on 64-bit integers.

use vstd::prelude::*;
use vstd::arithmetic::power::{
    pow, lemma_pow_adds, lemma_pow_mod_noop, lemma_pow_multiplies, lemma_square_is_pow2, lemma_pow0,
    lemma_pow1,
};
use vstd::arithmetic::power2::{pow2, lemma_pow2_unfold};
use vstd::arithmetic::div_mod::lemma_mul_mod_noop_general;
use crate::primes::is_prime;

verus! {

/// One squaring step of binary exponentiation keeps `res * b^e` the same
/// modulo `m`.
proof fn lemma_modexp_step(res: int, b: int, e: nat, m: int)
    requires
        m > 0,
    ensures
        ((if e % 2 == 1 { (res * b) % m } else { res }) * pow((b * b) % m, e / 2)) % m == (res
            * pow(b, e)) % m,
{
    let h = e / 2;
    let t = (e % 2) as nat;
    assert(e == t + 2 * h);
    lemma_pow_adds(b, t, 2 * h);
    lemma_pow_multiplies(b, 2, h);
    lemma_square_is_pow2(b);
    let big = pow(b * b, h);
    assert(pow(b, e) == pow(b, t) * big);
    lemma_pow_mod_noop(b * b, h, m);
    let small = pow((b * b) % m, h);
    assert(small % m == big % m);
    if e % 2 == 1 {
        lemma_pow1(b);
        lemma_mul_mod_noop_general(res * b, small, m);
        lemma_mul_mod_noop_general(res * b, big, m);
        assert(res * pow(b, e) == (res * b) * big) by (nonlinear_arith)
            requires pow(b, e) == b * big;
    } else {
        lemma_pow0(b);
        lemma_mul_mod_noop_general(res, small, m);
        lemma_mul_mod_noop_general(res, big, m);
    }
}

/// `base ^ exp mod m`, by binary exponentiation with 128-bit intermediate
/// products.
pub fn modexp(base: u64, exp: u64, m: u64) -> (r: u64)
    requires
        m > 0,
    ensures
        r == pow(base as int, exp as nat) % (m as int),
        r < m,
{
    let mut result: u64 = 1 % m;
    let mut b: u64 = base % m;
    let mut e: u64 = exp;
    proof {
        lemma_pow_mod_noop(base as int, exp as nat, m as int);
        lemma_mul_mod_noop_general(1, pow(b as int, exp as nat), m as int);
    }
    while e > 0
        invariant
            m > 0,
            result < m,
            b < m,
            ((result as int) * pow(b as int, e as nat)) % (m as int) == pow(base as int, exp as nat)
                % (m as int),
        decreases e,
    {
        proof {
            lemma_modexp_step(result as int, b as int, e as nat, m as int);
        }
        assert((result as int) * (b as int) <= u128::MAX) by (nonlinear_arith)
            requires result < m, b < m, m <= u64::MAX;
        assert((b as int) * (b as int) <= u128::MAX) by (nonlinear_arith)
            requires b < m, m <= u64::MAX;
        if e % 2 == 1 {
            result = ((result as u128 * b as u128) % (m as u128)) as u64;
        }
        b = ((b as u128 * b as u128) % (m as u128)) as u64;
        e = e / 2;
    }
    proof {
        lemma_pow0(b as int);
        vstd::arithmetic::div_mod::lemma_small_mod(result as nat, m as nat);
    }
    result
}

/// The `i`-th term of the Miller-Rabin sequence of `a` for `n`:
/// `a ^ (d * 2^i) mod n`.
pub open spec fn mr_term(n: int, a: int, d: nat, i: nat) -> int {
    pow(a, d * pow2(i)) % n
}

/// `n` is a strong probable prime to base `a`, where `n - 1 = d * 2^r`:
/// `a^d` is 1, or one of `a^(d * 2^i)` for `i < r` is `n - 1`, modulo `n`.
pub open spec fn strong_probable_prime(n: int, a: int, d: nat, r: nat) -> bool {
    mr_term(n, a, d, 0) == 1 || exists|i: nat| i < r && #[trigger] mr_term(n, a, d, i) == n - 1
}

/// Each term of the Miller-Rabin sequence is the square of the one before,
/// modulo `n`.
pub proof fn lemma_mr_term_next(n: int, a: int, d: nat, i: nat)
    requires
        n > 0,
    ensures
        mr_term(n, a, d, i + 1) == (mr_term(n, a, d, i) * mr_term(n, a, d, i)) % n,
{
    lemma_pow2_unfold(i + 1);
    let k = d * pow2(i);
    assert(d * pow2(i + 1) == k * 2) by (nonlinear_arith)
        requires pow2(i + 1) == 2 * pow2(i), k == d * pow2(i);
    lemma_pow_multiplies(a, k, 2);
    lemma_square_is_pow2(pow(a, k));
    lemma_mul_mod_noop_general(pow(a, k), pow(a, k), n);
}

/// Single-witness strong probable-prime check of `n` to base `a`, where
/// `n - 1 = d * 2^r`.
pub fn miller_rabin_check(n: u64, a: u64, d: u64, r: u32) -> (res: bool)
    requires
        n >= 2,
        r >= 1,
    ensures
        res == strong_probable_prime(n as int, a as int, d as nat, r as nat),
{
    let mut x: u64 = modexp(a, d, n);
    proof {
        vstd::arithmetic::power2::lemma2_to64();
        assert(d * pow2(0) == d);
    }
    if x == 1 || x == n - 1 {
        return true;
    }
    let mut i: u32 = 1;
    while i < r
        invariant
            n >= 2,
            1 <= i <= r,
            x == mr_term(n as int, a as int, d as nat, (i - 1) as nat),
            mr_term(n as int, a as int, d as nat, 0) != 1,
            forall|j: nat| j < i ==> #[trigger] mr_term(n as int, a as int, d as nat, j) != n - 1,
        decreases r - i,
    {
        proof {
            lemma_mr_term_next(n as int, a as int, d as nat, (i - 1) as nat);
            lemma_square_is_pow2(x as int);
        }
        x = modexp(x, 2, n);
        if x == n - 1 {
            assert(mr_term(n as int, a as int, d as nat, i as nat) == n - 1);
            return true;
        }
        i = i + 1;
    }
    false
}

/// The odd part of `x` and the power of two that it was divided by.
pub open spec fn odd_split(x: nat) -> (nat, nat)
    decreases x,
{
    if x == 0 || x % 2 == 1 {
        (x, 0)
    } else {
        let s = odd_split(x / 2);
        (s.0, s.1 + 1)
    }
}

/// The primes up to 23, by which a candidate is first divided.
pub open spec fn trial_primes() -> Seq<u64> {
    seq![2u64, 3, 5, 7, 11, 13, 17, 19, 23]
}

/// The seven Miller-Rabin bases that decide primality below `2^64`.
pub open spec fn mr_bases() -> Seq<u64> {
    seq![2u64, 325, 9375, 28178, 450775, 9780504, 1795265022]
}

/// What the deterministic 64-bit test accepts: `n` is one of the trial
/// primes, or it has none of them as a factor and is a strong probable prime
/// to each base that is not a multiple of `n` (taken modulo `n`).
pub open spec fn passes_mr64(n: int) -> bool {
    &&& n >= 2
    &&& (trial_primes().contains(n as u64) || {
        &&& forall|i: int| 0 <= i < trial_primes().len() ==> n % (#[trigger] trial_primes()[i] as int) != 0
        &&& forall|i: int|
            0 <= i < mr_bases().len() ==> (#[trigger] mr_bases()[i] as int) % n == 0
                || strong_probable_prime(
                n,
                (mr_bases()[i] as int) % n,
                odd_split((n - 1) as nat).0,
                odd_split((n - 1) as nat).1,
            )
    })
}

/// The deterministic Miller-Rabin test for 64-bit integers: trial division by
/// the primes up to 23, then the strong probable-prime check to seven fixed
/// bases. Every prime passes.
pub fn is_64bit_prime(n: u64) -> (r: bool)
    ensures
        r == passes_mr64(n as int),
        is_prime(n as int) ==> r,
{
    proof {
        if is_prime(n as int) {
            crate::fermat::lemma_primes_pass_mr64(n as int);
        }
    }
    if n < 2 {
        return false;
    }
    let small: [u64; 9] = [2, 3, 5, 7, 11, 13, 17, 19, 23];
    assert(small@ == trial_primes());
    let mut k: usize = 0;
    while k < 9
        invariant
            n >= 2,
            small@ == trial_primes(),
            k <= 9,
            forall|i: int| 0 <= i < k ==> (n as int) % (#[trigger] trial_primes()[i] as int) != 0 && n
                != trial_primes()[i],
        decreases 9 - k,
    {
        let p = small[k];
        if n == p {
            assert(trial_primes().contains(n));
            return true;
        }
        if n % p == 0 {
            proof {
                if trial_primes().contains(n) {
                    let t = choose|t: int| 0 <= t < trial_primes().len() && trial_primes()[t] == n;
                    assert((n as int) % (trial_primes()[t] as int) == 0) by {
                        vstd::arithmetic::div_mod::lemma_mod_self_0(n as int);
                    }
                    assert(n == p) by {
                        reveal_with_fuel(Seq::contains, 1);
                    }
                }
            }
            return false;
        }
        k = k + 1;
    }
    assert(!trial_primes().contains(n));
    assert(trial_primes()[0] == 2);
    assert(n % 2 == 1);
    let mut d: u64 = n - 1;
    let mut r: u32 = 0;
    proof {
        vstd::arithmetic::power2::lemma2_to64();
    }
    while d % 2 == 0
        invariant
            d >= 1,
            r <= 63,
            n % 2 == 1,
            r == 0 ==> d == n - 1,
            !trial_primes().contains(n),
            d * pow2(r as nat) == n - 1,
            odd_split((n - 1) as nat) == (odd_split(d as nat).0, (odd_split(d as nat).1 + r) as nat),
        decreases d,
    {
        proof {
            lemma_pow2_unfold((r + 1) as nat);
            assert((d / 2) * pow2((r + 1) as nat) == n - 1) by (nonlinear_arith)
                requires d % 2 == 0, d * pow2(r as nat) == n - 1, pow2((r + 1) as nat) == 2 * pow2(r as nat);
            assert(r < 63) by {
                vstd::arithmetic::power2::lemma2_to64_rest();
                if r >= 63 {
                    if r > 63 {
                        vstd::arithmetic::power2::lemma_pow2_strictly_increases(63, r as nat);
                    }
                    assert(d * pow2(r as nat) >= 2 * pow2(63)) by (nonlinear_arith)
                        requires d >= 2, pow2(r as nat) >= pow2(63);
                }
            }
        }
        d = d / 2;
        r = r + 1;
    }
    assert(odd_split(d as nat) == (d as nat, 0nat));
    assert(r >= 1);
    let bases: [u64; 7] = [2, 325, 9375, 28178, 450775, 9780504, 1795265022];
    assert(bases@ == mr_bases());
    let mut j: usize = 0;
    while j < 7
        invariant
            n >= 2,
            r >= 1,
            bases@ == mr_bases(),
            j <= 7,
            is_prime(n as int) ==> passes_mr64(n as int),
            !trial_primes().contains(n),
            d as nat == odd_split((n - 1) as nat).0,
            r as nat == odd_split((n - 1) as nat).1,
            forall|i: int|
                0 <= i < j ==> (#[trigger] mr_bases()[i] as int) % (n as int) == 0
                    || strong_probable_prime(
                    n as int,
                    (mr_bases()[i] as int) % (n as int),
                    d as nat,
                    r as nat,
                ),
        decreases 7 - j,
    {
        let a: u64 = bases[j] % n;
        assert(mr_bases()[j as int] == bases[j as int]);
        if a != 0 {
            if !miller_rabin_check(n, a, d, r) {
                assert(!((mr_bases()[j as int] as int) % (n as int) == 0 || strong_probable_prime(
                    n as int,
                    (mr_bases()[j as int] as int) % (n as int),
                    odd_split((n - 1) as nat).0,
                    odd_split((n - 1) as nat).1,
                )));
                return false;
            }
        }
        j = j + 1;
    }
    true
}

/// The base of round `i` of the probabilistic test of `n`: the numbers of
/// `[2, n - 2]` taken in turn.
pub open spec fn round_base(n: int, i: int) -> int {
    2 + i % (n - 3)
}

/// What the probabilistic test accepts: 2 and 3, and an odd `n` of at least 5
/// that is a strong probable prime to the base of each of `rounds` rounds.
pub open spec fn passes_rounds(n: int, rounds: nat) -> bool {
    n == 2 || n == 3 || (n >= 5 && n % 2 == 1 && forall|i: int|
        0 <= i < rounds ==> #[trigger] strong_probable_prime(
            n,
            round_base(n, i),
            odd_split((n - 1) as nat).0,
            odd_split((n - 1) as nat).1,
        ))
}

/// The Miller-Rabin test with a chosen number of rounds, the bases taken in
/// turn from `[2, n - 2]`: numbers below 2 and even numbers above 2 are
/// refused at once, and any failing round proves `n` composite. A composite
/// passes each round with probability at most 1/4. Every prime passes.
pub fn is_probable_prime(n: u64, rounds: u32) -> (r: bool)
    ensures
        r == passes_rounds(n as int, rounds as nat),
        is_prime(n as int) ==> r,
{
    if n < 2 {
        return false;
    }
    if n == 2 || n == 3 {
        return true;
    }
    if n % 2 == 0 {
        proof {
            if is_prime(n as int) {
                assert((n as int) % 2 == 0);
            }
        }
        return false;
    }
    let mut d: u64 = n - 1;
    let mut s: u32 = 0;
    proof {
        vstd::arithmetic::power2::lemma2_to64();
    }
    while d % 2 == 0
        invariant
            d >= 1,
            s <= 63,
            n % 2 == 1,
            s == 0 ==> d == n - 1,
            d * pow2(s as nat) == n - 1,
            odd_split((n - 1) as nat) == (odd_split(d as nat).0, (odd_split(d as nat).1 + s) as nat),
        decreases d,
    {
        proof {
            lemma_pow2_unfold((s + 1) as nat);
            assert((d / 2) * pow2((s + 1) as nat) == n - 1) by (nonlinear_arith)
                requires d % 2 == 0, d * pow2(s as nat) == n - 1, pow2((s + 1) as nat) == 2 * pow2(s as nat);
            assert(s < 63) by {
                vstd::arithmetic::power2::lemma2_to64_rest();
                if s >= 63 {
                    if s > 63 {
                        vstd::arithmetic::power2::lemma_pow2_strictly_increases(63, s as nat);
                    }
                    assert(d * pow2(s as nat) >= 2 * pow2(63)) by (nonlinear_arith)
                        requires d >= 2, pow2(s as nat) >= pow2(63);
                }
            }
        }
        d = d / 2;
        s = s + 1;
    }
    assert(odd_split(d as nat) == (d as nat, 0nat));
    proof {
        if is_prime(n as int) {
            assert forall|j: int| 0 <= j implies #[trigger] strong_probable_prime(
                n as int,
                round_base(n as int, j),
                d as nat,
                s as nat,
            ) by {
                vstd::arithmetic::div_mod::lemma_mod_bound(j, n - 3);
                crate::fermat::lemma_prime_is_spp(n as int, round_base(n as int, j));
            }
        }
    }
    let mut i: u32 = 0;
    while i < rounds
        invariant
            n >= 5,
            n % 2 == 1,
            s >= 1,
            d as nat == odd_split((n - 1) as nat).0,
            s as nat == odd_split((n - 1) as nat).1,
            i <= rounds,
            forall|j: int| 0 <= j < i ==> #[trigger] strong_probable_prime(
                n as int,
                round_base(n as int, j),
                d as nat,
                s as nat,
            ),
            is_prime(n as int) ==> forall|j: int| 0 <= j ==> #[trigger] strong_probable_prime(
                n as int,
                round_base(n as int, j),
                d as nat,
                s as nat,
            ),
        decreases rounds - i,
    {
        let a: u64 = 2 + (i as u64) % (n - 3);
        if !miller_rabin_check(n, a, d, s) {
            assert(!strong_probable_prime(n as int, round_base(n as int, i as int), d as nat, s as nat));
            return false;
        }
        i = i + 1;
    }
    true
}

} // verus!
