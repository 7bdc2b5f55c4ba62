//! Exact integer square root.

use vstd::prelude::*;

verus! {

/// Largest `r` with `r * r <= n`, found by binary search over `[0, n]`.
/// A midpoint whose square overflows counts as too large.
pub fn integer_sqrt(n: u64) -> (r: u64)
    ensures
        r * r <= n,
        n < (r + 1) * (r + 1),
{
    let mut low: u64 = 0;
    let mut high: u64 = n;
    assert(n < (n + 1) * (n + 1)) by (nonlinear_arith);
    while low <= high
        invariant
            high <= n,
            low <= high + 1,
            low == 0 || (low - 1) * (low - 1) <= n,
            n < (high + 1) * (high + 1),
        decreases high + 1 - low,
    {
        let mid: u64 = low + (high - low) / 2;
        match mid.checked_mul(mid) {
            Some(val) => {
                if val == n {
                    assert(n < (mid + 1) * (mid + 1)) by (nonlinear_arith)
                        requires mid * mid == n, 0 <= mid;
                    return mid;
                } else if val < n {
                    assert(mid < n) by (nonlinear_arith)
                        requires mid * mid < n, 0 <= mid;
                    low = mid + 1;
                } else {
                    assert(mid != 0) by (nonlinear_arith)
                        requires mid * mid > n, n >= 0;
                    high = mid - 1;
                }
            },
            None => {
                assert(mid != 0) by (nonlinear_arith)
                    requires mid * mid > u64::MAX;
                high = mid - 1;
            },
        }
    }
    assert(high * high <= n);
    high
}

} // verus!
