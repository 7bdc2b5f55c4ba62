//! What a prime is, the primes of a range, and the facts about them that the
//! sieves rely on.

use vstd::prelude::*;
use vstd::arithmetic::div_mod::{lemma_fundamental_div_mod, lemma_mod_multiples_basic};

verus! {

/// `n` has no divisor strictly between 1 and itself.
pub open spec fn is_prime(n: int) -> bool {
    n >= 2 && forall|d: int| 2 <= d < n ==> #[trigger] (n % d) != 0
}

/// The primes of `[lo, hi]`, in ascending order.
pub open spec fn primes_in(lo: int, hi: int) -> Seq<u64>
    decreases hi + 1 - lo,
{
    if hi < lo {
        seq![]
    } else if is_prime(hi) {
        primes_in(lo, hi - 1).push(hi as u64)
    } else {
        primes_in(lo, hi - 1)
    }
}

/// `k` has a prime factor `e` below `bound` with `e * e <= k`.
pub open spec fn struck(k: int, bound: int) -> bool {
    exists|e: int| 2 <= e < bound && is_prime(e) && #[trigger] (k % e) == 0 && e * e <= k
}

/// The smallest divisor of `n` that is at least `d` (or `n` itself).
pub open spec fn least_factor_from(n: int, d: int) -> int
    decreases n - d,
{
    if d >= n {
        n
    } else if n % d == 0 {
        d
    } else {
        least_factor_from(n, d + 1)
    }
}

/// Divisibility is transitive.
pub proof fn lemma_divides_trans(x: int, q: int, e: int)
    requires
        x >= 0,
        q > 0,
        e > 0,
        x % q == 0,
        q % e == 0,
    ensures
        x % e == 0,
{
    lemma_fundamental_div_mod(x, q);
    lemma_fundamental_div_mod(q, e);
    let a = x / q;
    let b = q / e;
    assert(x == e * (b * a)) by (nonlinear_arith)
        requires x == q * a, q == e * b;
    lemma_mod_multiples_basic(b * a, e);
    assert(e * (b * a) == (b * a) * e) by (nonlinear_arith);
}

proof fn lemma_least_factor(n: int, d: int)
    requires
        n >= 2,
        2 <= d <= n,
        forall|e: int| 2 <= e < d ==> #[trigger] (n % e) != 0,
    ensures
        2 <= least_factor_from(n, d) <= n,
        n % least_factor_from(n, d) == 0,
        forall|e: int| 2 <= e < least_factor_from(n, d) ==> #[trigger] (n % e) != 0,
    decreases n - d,
{
    if d >= n {
        assert(n % n == 0) by {
            lemma_mod_multiples_basic(1, n);
        }
    } else if n % d == 0 {
    } else {
        lemma_least_factor(n, d + 1);
    }
}

/// A number of at least 2 that is not prime has a prime factor whose square
/// does not exceed it.
pub proof fn lemma_composite_has_small_prime_factor(x: int) -> (q: int)
    requires
        x >= 2,
        !is_prime(x),
    ensures
        is_prime(q),
        x % q == 0,
        q * q <= x,
{
    lemma_least_factor(x, 2);
    let q = least_factor_from(x, 2);
    assert forall|e: int| 2 <= e < q implies #[trigger] (q % e) != 0 by {
        if q % e == 0 {
            lemma_divides_trans(x, q, e);
        }
    }
    let w = choose|d: int| 2 <= d < x && #[trigger] (x % d) == 0;
    assert(q <= w);
    lemma_fundamental_div_mod(x, q);
    let a = x / q;
    assert(x == q * a);
    assert(a >= 2) by (nonlinear_arith)
        requires x == q * a, q < x, q >= 2;
    assert(x % a == 0) by {
        lemma_mod_multiples_basic(q, a);
        assert(q * a == a * q) by (nonlinear_arith);
    }
    assert(a >= q) by {
        if a < q {
            assert(x % a != 0);
        }
    }
    assert(q * q <= x) by (nonlinear_arith)
        requires x == q * a, a >= q, q >= 0;
    q
}

/// Below a bound whose square exceeds `k`, the numbers not struck off are
/// exactly the primes.
pub proof fn lemma_unstruck_iff_prime(k: int, bound: int)
    requires
        k >= 2,
        bound >= 0,
        bound * bound > k,
    ensures
        !struck(k, bound) <==> is_prime(k),
{
    if is_prime(k) {
        if struck(k, bound) {
            let e = choose|e: int|
                2 <= e < bound && is_prime(e) && #[trigger] (k % e) == 0 && e * e <= k;
            assert(e >= k);
            assert(e * e > k) by (nonlinear_arith)
                requires e >= k, k >= 2;
        }
    } else {
        let q = lemma_composite_has_small_prime_factor(k);
        assert(q < bound) by {
            if q >= bound {
                assert(q * q >= bound * bound) by (nonlinear_arith)
                    requires q >= bound, bound >= 0;
            }
        }
        assert(struck(k, bound));
    }
}

/// The primes of `[lo, hi]` lie in that range, ascend strictly, and are primes.
pub proof fn lemma_primes_in_facts(lo: int, hi: int)
    requires
        0 <= lo,
        hi <= u64::MAX,
    ensures
        forall|i: int| 0 <= i < primes_in(lo, hi).len() ==> {
            let p = #[trigger] primes_in(lo, hi)[i];
            lo <= p <= hi && is_prime(p as int)
        },
        forall|i: int, j: int|
            0 <= i < j < primes_in(lo, hi).len() ==> primes_in(lo, hi)[i] < primes_in(lo, hi)[j],
        primes_in(lo, hi).len() <= if hi < lo { 0 } else { hi - lo + 1 },
    decreases hi + 1 - lo,
{
    if hi >= lo {
        lemma_primes_in_facts(lo, hi - 1);
    }
}

/// Cutting a range in two and joining the primes of the parts gives the
/// primes of the whole range.
pub proof fn lemma_primes_in_split(lo: int, mid: int, hi: int)
    requires
        lo <= mid + 1,
        mid <= hi,
    ensures
        primes_in(lo, mid) + primes_in(mid + 1, hi) == primes_in(lo, hi),
    decreases hi - mid,
{
    if hi == mid {
        assert(primes_in(mid + 1, hi) =~= seq![]);
        assert(primes_in(lo, mid) + primes_in(mid + 1, hi) =~= primes_in(lo, hi));
    } else {
        lemma_primes_in_split(lo, mid, hi - 1);
        if is_prime(hi) {
            assert(primes_in(lo, mid) + primes_in(mid + 1, hi) =~= (primes_in(lo, mid)
                + primes_in(mid + 1, hi - 1)).push(hi as u64));
        }
    }
}

/// Each prime of `[lo, hi]` appears among the primes of that range.
pub proof fn lemma_primes_in_contains(lo: int, hi: int, q: int)
    requires
        lo <= q <= hi,
        0 <= q <= u64::MAX,
        is_prime(q),
    ensures
        exists|i: int| 0 <= i < primes_in(lo, hi).len() && #[trigger] primes_in(lo, hi)[i] == q,
    decreases hi + 1 - lo,
{
    if q == hi {
        let s = primes_in(lo, hi);
        assert(primes_in(lo, hi)[s.len() - 1] == q);
    } else {
        lemma_primes_in_contains(lo, hi - 1, q);
        let i = choose|i: int| 0 <= i < primes_in(lo, hi - 1).len() && #[trigger] primes_in(lo, hi - 1)[i] == q;
        if is_prime(hi) {
            assert(primes_in(lo, hi)[i] == q);
        } else {
            assert(primes_in(lo, hi)[i] == q);
        }
    }
}

} // verus!
