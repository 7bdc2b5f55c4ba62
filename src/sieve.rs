//! Sieves of Eratosthenes: the plain one that yields the base primes, and the
//! segmented one that sieves one window of a range with them.

use std::sync::Arc;
use std::sync::atomic::{AtomicBool, Ordering};
use vstd::prelude::*;
use crate::bits::{bits_get, bits_of, bits_repeat, bits_set};
use crate::isqrt::integer_sqrt;
use crate::primes::{
    is_prime, lemma_composite_has_small_prime_factor, lemma_primes_in_contains, lemma_primes_in_facts,
    lemma_primes_in_split,
    lemma_unstruck_iff_prime, primes_in, struck,
};

verus! {

/// The primes up to `limit`, in ascending order: a sieve over `[0, limit]`
/// that strikes, for each prime `i` up to the square root of `limit`, the
/// multiples of `i` from `i * i` on.
pub fn simple_sieve(limit: u64) -> (r: Vec<u64>)
    requires
        limit < usize::MAX,
    ensures
        r@ == primes_in(0, limit as int),
{
    let size: usize = (limit as usize) + 1;
    let mut is_prime_mask: Vec<bool> = vec![true; size];
    assert(is_prime_mask@.len() == size);
    is_prime_mask.set(0, false);
    if limit >= 1 {
        is_prime_mask.set(1, false);
    }
    let lim_sqrt: u64 = integer_sqrt(limit);
    let mut i: u64 = 2;
    while i <= lim_sqrt
        invariant
            is_prime_mask@.len() == size,
            size == limit + 1,
            limit < usize::MAX,
            lim_sqrt * lim_sqrt <= limit,
            2 <= i,
            i <= lim_sqrt + 1 || i == 2,
            forall|k: int|
                0 <= k <= limit ==> #[trigger] is_prime_mask@[k] == (k >= 2 && !struck(k, i as int)),
        decreases lim_sqrt + 1 - i,
    {
        assert(i * i <= limit) by (nonlinear_arith)
            requires i <= lim_sqrt, lim_sqrt * lim_sqrt <= limit, 2 <= i;
        proof {
            // The mark of `i` itself tells whether it is prime.
            assert(i * i > i) by (nonlinear_arith) requires i >= 2;
            assert(is_prime_mask@[i as int] == is_prime(i as int)) by {
                if is_prime(i as int) {
                    if struck(i as int, i as int) {
                        let e = choose|e: int|
                            2 <= e < i && is_prime(e) && #[trigger] ((i as int) % e) == 0
                                && e * e <= i;
                        assert((i as int) % e != 0);
                    }
                } else {
                    let q = lemma_composite_has_small_prime_factor(i as int);
                    assert(q < i) by {
                        if q >= i {
                            assert(q * q >= i * i) by (nonlinear_arith) requires q >= i, i >= 0;
                        }
                    }
                    assert(struck(i as int, i as int));
                }
            }
        }
        if is_prime_mask[i as usize] {
            let ghost before = is_prime_mask@;
            let mut j: u64 = i * i;
            proof {
                vstd::arithmetic::div_mod::lemma_mod_multiples_basic(i as int, i as int);
            }
            while j <= limit
                invariant_except_break
                    i * i <= j,
                    j <= limit + i,
                    (j as int) % (i as int) == 0,
                    forall|k: int|
                        0 <= k <= limit ==> #[trigger] is_prime_mask@[k] == (before[k] && !(
                        i * i <= k < j && k % (i as int) == 0)),
                invariant
                    is_prime_mask@.len() == size,
                    size == limit + 1,
                    limit < usize::MAX,
                    2 <= i,
                    before.len() == size,
                ensures
                    forall|k: int|
                        0 <= k <= limit ==> #[trigger] is_prime_mask@[k] == (before[k] && !(
                        i * i <= k && k % (i as int) == 0)),
                decreases limit + i - j,
            {
                is_prime_mask.set(j as usize, false);
                proof {
                    assert forall|k: int| 0 <= k <= limit implies #[trigger] is_prime_mask@[k]
                        == (before[k] && !(i * i <= k < j + i && k % (i as int) == 0)) by {
                        if j < k < j + i && k % (i as int) == 0 {
                            assert(false) by (nonlinear_arith)
                                requires j < k < j + i, k % (i as int) == 0, (j as int) % (i as int) == 0, i >= 2;
                        }
                    }
                }
                match j.checked_add(i) {
                    Some(v) => {
                        assert((j + i) as int % (i as int) == 0) by (nonlinear_arith)
                            requires (j as int) % (i as int) == 0, i >= 2;
                        j = v;
                    },
                    None => {
                        break;
                    },
                }
            }
            proof {
                assert forall|k: int| 0 <= k <= limit implies #[trigger] is_prime_mask@[k] == (k >= 2
                    && !struck(k, i + 1)) by {
                    if k >= 2 && k % (i as int) == 0 && i * i <= k {
                        assert(struck(k, i + 1));
                    }
                    if struck(k, i + 1) && !struck(k, i as int) {
                        let e = choose|e: int|
                            2 <= e < i + 1 && is_prime(e) && #[trigger] (k % e) == 0 && e * e <= k;
                        assert(e == i);
                    }
                }
            }
        } else {
            proof {
                assert forall|k: int| 0 <= k <= limit implies #[trigger] is_prime_mask@[k] == (k >= 2
                    && !struck(k, i + 1)) by {
                    if struck(k, i + 1) && !struck(k, i as int) {
                        let e = choose|e: int|
                            2 <= e < i + 1 && is_prime(e) && #[trigger] (k % e) == 0 && e * e <= k;
                        assert(e == i);
                    }
                }
            }
        }
        i = i + 1;
    }
    assert(limit < i * i) by (nonlinear_arith)
        requires i > lim_sqrt, limit < (lim_sqrt + 1) * (lim_sqrt + 1), lim_sqrt >= 0;
    let mut primes: Vec<u64> = Vec::new();
    let mut k: u64 = 0;
    while k <= limit
        invariant
            is_prime_mask@.len() == size,
            size == limit + 1,
            limit < usize::MAX,
            k <= limit + 1,
            limit < i * i,
            forall|k: int|
                0 <= k <= limit ==> #[trigger] is_prime_mask@[k] == (k >= 2 && !struck(k, i as int)),
            primes@ == primes_in(0, k - 1),
        decreases limit + 1 - k,
    {
        proof {
            if k >= 2 {
                assert((i as int) * (i as int) > k) by (nonlinear_arith)
                    requires k <= limit, limit < i * i;
                lemma_unstruck_iff_prime(k as int, i as int);
            }
        }
        if is_prime_mask[k as usize] {
            primes.push(k);
        }
        k = k + 1;
    }
    primes
}

/// At step `i` of a sieve that has struck the multiples of every prime below
/// `i` from its square on, the mark of `i` tells whether it is prime.
proof fn lemma_mark_of_next(i: int)
    requires
        i >= 2,
    ensures
        !struck(i, i) <==> is_prime(i),
{
    if is_prime(i) {
        if struck(i, i) {
            let e = choose|e: int| 2 <= e < i && is_prime(e) && #[trigger] (i % e) == 0 && e * e <= i;
            assert(i % e != 0);
        }
    } else {
        let q = lemma_composite_has_small_prime_factor(i);
        assert(q < i) by {
            if q >= i {
                assert(q * q >= i * i) by (nonlinear_arith)
                    requires q >= i, i >= 0;
                assert(i * i > i) by (nonlinear_arith)
                    requires i >= 2;
            }
        }
        assert(struck(i, i));
    }
}

/// The first `n` primes below `sieve_size` (fewer when there are not as
/// many), ascending: a bit-packed sieve that stops as soon as `n` primes are
/// found.
pub fn generate_small_primes(n: usize, sieve_size: usize) -> (r: Vec<u64>)
    requires
        2 <= sieve_size <= usize::MAX / 8,
    ensures
        r@ == primes_in(0, sieve_size - 1).take(
            if n <= primes_in(0, sieve_size - 1).len() {
                n as int
            } else {
                primes_in(0, sieve_size - 1).len() as int
            },
        ),
{
    let ghost all = primes_in(0, sieve_size - 1);
    proof {
        lemma_primes_in_split(0, -1, sieve_size - 1);
    }
    if n == 0 {
        assert(all.take(0) =~= Seq::<u64>::empty());
        return Vec::new();
    }
    let mut bits = bits_repeat(true, sieve_size);
    bits_set(&mut bits, 0, false);
    bits_set(&mut bits, 1, false);
    let mut primes: Vec<u64> = Vec::new();
    let mut num: usize = 2;
    assert(!is_prime(0) && !is_prime(1));
    assert(primes_in(0, -1) =~= Seq::<u64>::empty());
    assert(primes_in(0, 0) == primes_in(0, -1));
    assert(primes_in(0, 1) == primes_in(0, 0));
    while num < sieve_size
        invariant_except_break
            primes@.len() < n,
            primes@ == primes_in(0, num - 1),
        invariant
            bits_of(bits).len() == sieve_size,
            2 <= num <= sieve_size,
            sieve_size <= usize::MAX / 8,
            n >= 1,
            all == primes_in(0, sieve_size - 1),
            forall|k: int|
                0 <= k < sieve_size ==> #[trigger] bits_of(bits)[k] == (k >= 2 && !struck(k, num as int)),
        ensures
            primes@ == all.take(
                if n <= all.len() {
                    n as int
                } else {
                    all.len() as int
                },
            ),
        decreases sieve_size - num,
    {
        proof {
            lemma_mark_of_next(num as int);
            lemma_primes_in_split(0, num as int, sieve_size - 1);
            crate::primes::lemma_primes_in_facts(0, num as int);
        }
        let ghost before = bits_of(bits);
        if bits_get(&bits, num) {
            primes.push(num as u64);
            assert(primes@ == primes_in(0, num as int));
            if primes.len() >= n {
                assert(primes@ =~= all.take(n as int));
                break;
            }
            match num.checked_mul(num) {
                Some(start) => if start < sieve_size {
                    let mut j: usize = start;
                    proof {
                        vstd::arithmetic::div_mod::lemma_mod_multiples_basic(num as int, num as int);
                    }
                    while j < sieve_size
                        invariant_except_break
                            num * num <= j,
                            j <= sieve_size + num,
                            (j as int) % (num as int) == 0,
                            forall|k: int|
                                0 <= k < sieve_size ==> #[trigger] bits_of(bits)[k] == (before[k] && !(
                                num * num <= k < j && k % (num as int) == 0)),
                        invariant
                            bits_of(bits).len() == sieve_size,
                            before.len() == sieve_size,
                            2 <= num,
                            start == num * num,
                        ensures
                            forall|k: int|
                                0 <= k < sieve_size ==> #[trigger] bits_of(bits)[k] == (before[k] && !(
                                num * num <= k && k % (num as int) == 0)),
                        decreases sieve_size + num - j,
                    {
                        bits_set(&mut bits, j, false);
                        proof {
                            assert forall|k: int| 0 <= k < sieve_size implies #[trigger] bits_of(bits)[k]
                                == (before[k] && !(num * num <= k < j + num && k % (num as int) == 0)) by {
                                if j < k < j + num && k % (num as int) == 0 {
                                    assert(false) by (nonlinear_arith)
                                        requires
                                            j < k < j + num,
                                            k % (num as int) == 0,
                                            (j as int) % (num as int) == 0,
                                            num >= 2,
                                    ;
                                }
                            }
                        }
                        match j.checked_add(num) {
                            Some(v) => {
                                assert((j + num) as int % (num as int) == 0) by (nonlinear_arith)
                                    requires (j as int) % (num as int) == 0, num >= 2;
                                j = v;
                            },
                            None => {
                                break;
                            },
                        }
                    }
                },
                None => {},
            }
            proof {
                assert forall|k: int| 0 <= k < sieve_size implies #[trigger] bits_of(bits)[k] == (k >= 2
                    && !struck(k, num + 1)) by {
                    if k >= 2 && k % (num as int) == 0 && num * num <= k {
                        assert(struck(k, num + 1));
                    }
                    if struck(k, num + 1) && !struck(k, num as int) {
                        let e = choose|e: int|
                            2 <= e < num + 1 && is_prime(e) && #[trigger] (k % e) == 0 && e * e <= k;
                        assert(e == num);
                    }
                }
            }
        } else {
            assert(primes@ == primes_in(0, num as int));
            proof {
                assert forall|k: int| 0 <= k < sieve_size implies #[trigger] bits_of(bits)[k] == (k >= 2
                    && !struck(k, num + 1)) by {
                    if struck(k, num + 1) && !struck(k, num as int) {
                        let e = choose|e: int|
                            2 <= e < num + 1 && is_prime(e) && #[trigger] (k % e) == 0 && e * e <= k;
                        assert(e == num);
                    }
                }
            }
        }
        num = num + 1;
    }
    primes
}

/// The entries of `s` within `[lo, hi]`, in order.
pub open spec fn keep_in_range(s: Seq<u64>, lo: int, hi: int) -> Seq<u64>
    decreases s.len(),
{
    if s.len() == 0 {
        seq![]
    } else if lo <= s.last() <= hi {
        keep_in_range(s.drop_last(), lo, hi).push(s.last())
    } else {
        keep_in_range(s.drop_last(), lo, hi)
    }
}

/// Where sieving resumes past a cache of small primes: one past the last
/// cached prime (2 with an empty cache), but not below `lo`.
pub open spec fn resume_point(cached: Seq<u64>, lo: int) -> int {
    let past = if cached.len() == 0 {
        2
    } else {
        cached.last() + 1
    };
    if past < lo {
        lo
    } else {
        past
    }
}

/// Splits a run over `[prime_min, prime_max]` at a cache of small primes:
/// the cached primes within the range, and the first number left to sieve
/// (none when the cache already reaches past `prime_max`).
pub fn split_at_cache(cached: &[u64], prime_min: u64, prime_max: u64) -> (r: (Vec<u64>, Option<u64>))
    requires
        cached@.len() == 0 || cached@.last() < u64::MAX,
    ensures
        r.0@ == keep_in_range(cached@, prime_min as int, prime_max as int),
        r.1 == (if resume_point(cached@, prime_min as int) <= prime_max {
            Some(resume_point(cached@, prime_min as int) as u64)
        } else {
            None::<u64>
        }),
{
    let mut kept: Vec<u64> = Vec::new();
    let mut i: usize = 0;
    while i < cached.len()
        invariant
            i <= cached@.len(),
            kept@ == keep_in_range(cached@.subrange(0, i as int), prime_min as int, prime_max as int),
        decreases cached@.len() - i,
    {
        let ghost pre = cached@.subrange(0, i as int);
        let ghost post = cached@.subrange(0, i + 1);
        assert(post.drop_last() =~= pre);
        let p = cached[i];
        if prime_min <= p && p <= prime_max {
            kept.push(p);
        }
        i = i + 1;
    }
    assert(cached@.subrange(0, cached@.len() as int) =~= cached@);
    let past: u64 = if cached.len() == 0 {
        2
    } else {
        cached[cached.len() - 1] + 1
    };
    let start: u64 = if past < prime_min { prime_min } else { past };
    if start <= prime_max {
        (kept, Some(start))
    } else {
        (kept, None)
    }
}

/// A list of base primes fit for sieving windows that end at `high`: each
/// entry is at least 2, the list ascends, and it holds every prime whose
/// square is at most `high`.
pub open spec fn base_primes_for(small: Seq<u64>, high: int) -> bool {
    &&& forall|i: int| 0 <= i < small.len() ==> #[trigger] small[i] >= 2
    &&& forall|i: int, j: int| 0 <= i < j < small.len() ==> small[i] <= small[j]
    &&& forall|q: int|
        #[trigger] is_prime(q) && q * q <= high ==> exists|i: int|
            0 <= i < small.len() && small[i] == q
}

/// The primes up to `limit` are base primes for every window ending at
/// `high`, when `limit * limit > high`.
pub proof fn lemma_base_primes(limit: int, high: int)
    requires
        0 <= limit < u64::MAX,
        limit * limit > high,
    ensures
        base_primes_for(primes_in(0, limit), high),
{
    lemma_primes_in_facts(0, limit);
    let s = primes_in(0, limit);
    assert forall|q: int| #[trigger] is_prime(q) && q * q <= high implies exists|i: int|
        0 <= i < s.len() && s[i] == q by {
        assert(q < limit) by {
            if q >= limit {
                assert(q * q >= limit * limit) by (nonlinear_arith)
                    requires q >= limit, limit >= 0;
            }
        }
        lemma_primes_in_contains(0, limit, q);
    }
    assert forall|i: int, j: int| 0 <= i < j < s.len() implies s[i] <= s[j] by {}
}

/// `x` is a multiple of one of the first `j` base primes, at or above its
/// square.
pub open spec fn hit(small: Seq<u64>, x: int, j: int) -> bool {
    exists|t: int| 0 <= t < j && #[trigger] (x % (small[t] as int)) == 0 && small[t] * small[t] <= x
}

/// The least multiple of `p` that is at least `low`, where it fits in 64 bits.
fn first_multiple_at_least(low: u64, p: u64) -> (r: Option<u64>)
    requires
        p >= 1,
    ensures
        match r {
            Some(m) => m >= low && m < low + p && (m as int) % (p as int) == 0 && forall|x: int|
                low <= x && #[trigger] (x % (p as int)) == 0 ==> m <= x,
            None => forall|x: int| low <= x && #[trigger] (x % (p as int)) == 0 ==> x > u64::MAX,
        },
{
    let rem: u64 = low % p;
    if rem == 0 {
        return Some(low);
    }
    let gap: u64 = p - rem;
    proof {
        let a = (low as int) / (p as int);
        vstd::arithmetic::div_mod::lemma_fundamental_div_mod(low as int, p as int);
        assert((p as int) * (a + 1) == low + gap) by (nonlinear_arith)
            requires low == (p as int) * a + rem, gap == p - rem;
        assert(((low + gap) as int) % (p as int) == 0) by {
            vstd::arithmetic::div_mod::lemma_mod_multiples_basic(a + 1, p as int);
            assert((a + 1) * (p as int) == (p as int) * (a + 1)) by (nonlinear_arith);
        }
        assert forall|x: int| low <= x && #[trigger] (x % (p as int)) == 0 implies low + gap
            <= x by {
            vstd::arithmetic::div_mod::lemma_fundamental_div_mod(x, p as int);
            let y = x / (p as int);
            assert(x == (p as int) * y);
            if x < low + gap {
                assert((p as int) * a < (p as int) * y) by (nonlinear_arith)
                    requires low == (p as int) * a + rem, rem > 0, low <= x, x == (p as int) * y;
                assert((p as int) * y < (p as int) * (a + 1));
                assert(a < y) by (nonlinear_arith)
                    requires (p as int) * a < (p as int) * y, p >= 1;
                assert(y < a + 1) by (nonlinear_arith)
                    requires (p as int) * y < (p as int) * (a + 1), p >= 1;
            }
        }
    }
    low.checked_add(gap)
}

/// Whether a stop has been requested; never, without a flag.
fn stop_requested(stop: Option<&AtomicBool>) -> (r: bool)
    ensures
        stop.is_none() ==> !r,
{
    match stop {
        Some(flag) => flag.load(Ordering::SeqCst),
        None => false,
    }
}

/// Sieves the window `[low, high]` with the base primes, polling `stop`
/// before each base prime, at each marking step and at each step of the final
/// scan. On a stop while marking nothing is returned; on one while scanning,
/// the primes found so far. The flag returned tells whether the sieve ran to
/// its end, which it always does without a stop flag.
pub fn sieve_window(small_primes: &[u64], low: u64, high: u64, stop: Option<&AtomicBool>) -> (r: (
    Vec<u64>,
    bool,
))
    requires
        low <= high,
        high - low < usize::MAX / 8,
        base_primes_for(small_primes@, high as int),
    ensures
        r.0@.is_prefix_of(primes_in(low as int, high as int)),
        r.1 ==> r.0@ == primes_in(low as int, high as int),
        stop.is_none() ==> r.1,
{
    let size: usize = (high - low + 1) as usize;
    let mut mask = bits_repeat(true, size);
    if low == 0 {
        bits_set(&mut mask, 0, false);
        if size > 1 {
            bits_set(&mut mask, 1, false);
        }
    } else if low == 1 {
        bits_set(&mut mask, 0, false);
    }
    let ghost small = small_primes@;
    let mut j: usize = 0;
    while j < small_primes.len()
        invariant
            small == small_primes@,
            base_primes_for(small, high as int),
            bits_of(mask).len() == size,
            size == high - low + 1,
            low <= high,
            j <= small.len(),
            forall|k: int|
                0 <= k < size ==> #[trigger] bits_of(mask)[k] == (low + k >= 2 && !hit(
                    small,
                    low + k,
                    j as int,
                )),
        ensures
            j == small.len() || small[j as int] * small[j as int] > high,
        decreases small.len() - j,
    {
        if stop_requested(stop) {
            return (Vec::new(), false);
        }
        let p: u64 = small_primes[j];
        let pp: u64 = match p.checked_mul(p) {
            Some(v) => v,
            None => {
                break;
            },
        };
        if pp > high {
            break;
        }
        let ghost before = bits_of(mask);
        match first_multiple_at_least(low, p) {
            Some(first) => {
                let mut m: u64 = if first < pp { pp } else { first };
                let ghost m0 = m;
                proof {
                    vstd::arithmetic::div_mod::lemma_mod_multiples_basic(p as int, p as int);
                }
                while m <= high
                    invariant_except_break
                        m <= high + p,
                        (m as int) % (p as int) == 0,
                        forall|k: int|
                            0 <= k < size ==> #[trigger] bits_of(mask)[k] == (before[k] && !(m0 <= low + k
                                < m && (low + k) % (p as int) == 0)),
                    invariant
                        bits_of(mask).len() == size,
                        before.len() == size,
                        size == high - low + 1,
                        low <= high,
                        p >= 2,
                        pp == p * p,
                        m0 >= pp,
                        m0 >= low,
                        m0 <= m,
                        forall|x: int|
                            low <= x <= high && #[trigger] (x % (p as int)) == 0 && pp <= x ==> m0
                                <= x,
                    ensures
                        forall|k: int|
                            0 <= k < size ==> #[trigger] bits_of(mask)[k] == (before[k] && !((low + k) % (
                            p as int) == 0 && pp <= low + k)),
                    decreases high + p - m,
                {
                    if stop_requested(stop) {
                        return (Vec::new(), false);
                    }
                    bits_set(&mut mask, (m - low) as usize, false);
                    proof {
                        assert forall|k: int| 0 <= k < size implies #[trigger] bits_of(mask)[k] == (before[k]
                            && !(m0 <= low + k < m + p && (low + k) % (p as int) == 0)) by {
                            let x = low + k;
                            if m < x < m + p && x % (p as int) == 0 {
                                assert(false) by (nonlinear_arith)
                                    requires
                                        m < x < m + p,
                                        x % (p as int) == 0,
                                        (m as int) % (p as int) == 0,
                                        p >= 2,
                                ;
                            }
                        }
                    }
                    match m.checked_add(p) {
                        Some(v) => {
                            assert((m + p) as int % (p as int) == 0) by (nonlinear_arith)
                                requires (m as int) % (p as int) == 0, p >= 2;
                            m = v;
                        },
                        None => {
                            break;
                        },
                    }
                }
            },
            None => {},
        }
        proof {
            assert forall|k: int| 0 <= k < size implies #[trigger] bits_of(mask)[k] == (low + k >= 2 && !hit(
                small,
                low + k,
                j + 1,
            )) by {
                let x = low + k;
                if x % (p as int) == 0 && pp <= x {
                    assert(hit(small, x, j + 1));
                }
                if hit(small, x, j + 1) && !hit(small, x, j as int) {
                    let t = choose|t: int|
                        0 <= t < j + 1 && #[trigger] (x % (small[t] as int)) == 0 && small[t]
                            * small[t] <= x;
                    assert(t == j);
                }
            }
        }
        j = j + 1;
    }
    let ghost done = j;
    proof {
        // A prime whose square is at most `high` sits before `done`.
        assert forall|t: int| 0 <= t < small.len() && small[t] * small[t] <= high implies t
            < done by {
            if t >= done {
                assert(small[done as int] <= small[t]);
                assert(small[done as int] * small[done as int] <= small[t] * small[t])
                    by (nonlinear_arith)
                    requires small[done as int] <= small[t], small[done as int] >= 2;
            }
        }
    }
    let mut primes: Vec<u64> = Vec::new();
    let mut i: usize = 0;
    while i < size
        invariant
            small == small_primes@,
            base_primes_for(small, high as int),
            bits_of(mask).len() == size,
            size == high - low + 1,
            low <= high,
            i <= size,
            done <= small.len(),
            forall|t: int| 0 <= t < small.len() && small[t] * small[t] <= high ==> t < done,
            forall|k: int|
                0 <= k < size ==> #[trigger] bits_of(mask)[k] == (low + k >= 2 && !hit(
                    small,
                    low + k,
                    done as int,
                )),
            primes@ == primes_in(low as int, low + i - 1),
        decreases size - i,
    {
        proof {
            lemma_primes_in_split(low as int, low + i - 1, high as int);
        }
        if stop_requested(stop) {
            return (primes, false);
        }
        proof {
            let x = low + i;
            if x >= 2 {
                if is_prime(x) {
                    if hit(small, x, done as int) {
                        let t = choose|t: int|
                            0 <= t < done && #[trigger] (x % (small[t] as int)) == 0 && small[t]
                                * small[t] <= x;
                        assert(small[t] >= x);
                        assert(small[t] * small[t] > x) by (nonlinear_arith)
                            requires small[t] >= x, x >= 2;
                    }
                } else {
                    let q = lemma_composite_has_small_prime_factor(x);
                    let t = choose|t: int| 0 <= t < small.len() && small[t] == q;
                    assert((x % (small[t] as int)) == 0);
                    assert(hit(small, x, done as int));
                }
            }
        }
        if bits_get(&mask, i) {
            primes.push(low + i as u64);
        }
        i = i + 1;
    }
    proof {
        lemma_primes_in_split(low as int, high as int, high as int);
    }
    (primes, true)
}

/// The primes of `[low, high]`, sieved with the base primes, stopping early
/// when `stop_flag` is set: the result is then a prefix of those primes
/// (nothing, when the stop came before the final scan), so it never holds
/// a number that a partly marked window would have let through.
pub fn segmented_sieve(small_primes: &[u64], low: u64, high: u64, stop_flag: &Arc<AtomicBool>) -> (r: Vec<u64>)
    requires
        low <= high,
        high - low < usize::MAX / 8,
        base_primes_for(small_primes@, high as int),
    ensures
        r@.is_prefix_of(primes_in(low as int, high as int)),
        forall|i: int| 0 <= i < r@.len() ==> low <= #[trigger] r@[i] <= high && is_prime(r@[i] as int),
        forall|i: int, j: int| 0 <= i < j < r@.len() ==> r@[i] < r@[j],
{
    let flag: &AtomicBool = &**stop_flag;
    let r = sieve_window(small_primes, low, high, Some(flag)).0;
    proof {
        lemma_primes_in_facts(low as int, high as int);
        assert forall|i: int| 0 <= i < r@.len() implies r@[i] == primes_in(low as int, high as int)[i] by {}
    }
    r
}

/// All the primes of `[low, high]`, sieved with the base primes.
pub fn sieve_segment(small_primes: &[u64], low: u64, high: u64) -> (r: Vec<u64>)
    requires
        low <= high,
        high - low < usize::MAX / 8,
        base_primes_for(small_primes@, high as int),
    ensures
        r@ == primes_in(low as int, high as int),
{
    sieve_window(small_primes, low, high, None).0
}

} // verus!
