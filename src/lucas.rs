//! The Jacobi symbol, the strong Lucas probable-prime test with Selfridge's
//! parameters, and the Baillie-PSW test built from it and Miller-Rabin.

use vstd::prelude::*;
use vstd::arithmetic::div_mod::{
    lemma_fundamental_div_mod, lemma_mod_multiples_vanish, lemma_small_mod, lemma_mul_mod_noop_general,
    lemma_add_mod_noop, lemma_mod_bound,
};
use vstd::arithmetic::power2::{pow2, lemma_pow2_unfold};
use crate::isqrt::integer_sqrt;
use crate::primality::{is_64bit_prime, odd_split, passes_mr64};

verus! {

/// `U_k` of the Lucas sequence with `P = 1` and the given `Q`.
pub open spec fn lucas_u(q: int, k: nat) -> int
    decreases k,
{
    if k == 0 {
        0
    } else if k == 1 {
        1
    } else {
        lucas_u(q, (k - 1) as nat) - q * lucas_u(q, (k - 2) as nat)
    }
}

/// `V_k` of the Lucas sequence with `P = 1` and the given `Q`.
pub open spec fn lucas_v(q: int, k: nat) -> int
    decreases k,
{
    if k == 0 {
        2
    } else if k == 1 {
        1
    } else {
        lucas_v(q, (k - 1) as nat) - q * lucas_v(q, (k - 2) as nat)
    }
}

/// `2 U_(m+1) = U_m + V_m` and `2 V_(m+1) = D U_m + V_m`, with `D = 1 - 4Q`.
proof fn lemma_lucas_next(q: int, m: nat)
    ensures
        2 * lucas_u(q, m + 1) == lucas_u(q, m) + lucas_v(q, m),
        2 * lucas_v(q, m + 1) == (1 - 4 * q) * lucas_u(q, m) + lucas_v(q, m),
    decreases m,
{
    if m >= 2 {
        lemma_lucas_next(q, (m - 1) as nat);
        lemma_lucas_next(q, (m - 2) as nat);
        let (u1, u2, v1, v2) = (lucas_u(q, (m - 1) as nat), lucas_u(q, (m - 2) as nat), lucas_v(
            q,
            (m - 1) as nat,
        ), lucas_v(q, (m - 2) as nat));
        assert(lucas_u(q, m + 1) == lucas_u(q, m) - q * u1);
        assert(lucas_v(q, m + 1) == lucas_v(q, m) - q * v1);
        assert(lucas_u(q, m) == u1 - q * u2);
        assert(lucas_v(q, m) == v1 - q * v2);
        assert(2 * (lucas_u(q, m) - q * u1) == lucas_u(q, m) + lucas_v(q, m)) by (nonlinear_arith)
            requires
                2 * lucas_u(q, m) == u1 + v1,
                2 * u1 == u2 + v2,
                lucas_u(q, m) == u1 - q * u2,
                lucas_v(q, m) == v1 - q * v2,
        ;
        assert(2 * (lucas_v(q, m) - q * v1) == (1 - 4 * q) * lucas_u(q, m) + lucas_v(q, m))
            by (nonlinear_arith)
            requires
                2 * lucas_v(q, m) == (1 - 4 * q) * u1 + v1,
                2 * v1 == (1 - 4 * q) * u2 + v2,
                lucas_u(q, m) == u1 - q * u2,
                lucas_v(q, m) == v1 - q * v2,
        ;
    } else if m == 1 {
        reveal_with_fuel(lucas_u, 3);
        reveal_with_fuel(lucas_v, 3);
        assert(lucas_u(q, 2) == 1);
        assert(lucas_v(q, 2) == 1 - 2 * q);
        assert(2 * (1 - 2 * q) == (1 - 4 * q) * 1 + 1) by (nonlinear_arith);
    } else {
        assert(lucas_u(q, 0) == 0 && lucas_v(q, 0) == 2 && lucas_u(q, 1) == 1 && lucas_v(q, 1) == 1);
        assert((1 - 4 * q) * 0 == 0) by (nonlinear_arith);
    }
}

/// `2 U_(m+n) = U_m V_n + U_n V_m` and `2 V_(m+n) = V_m V_n + D U_m U_n`.
proof fn lemma_lucas_add(q: int, m: nat, n: nat)
    ensures
        2 * lucas_u(q, m + n) == lucas_u(q, m) * lucas_v(q, n) + lucas_u(q, n) * lucas_v(q, m),
        2 * lucas_v(q, m + n) == lucas_v(q, m) * lucas_v(q, n) + (1 - 4 * q) * lucas_u(q, m)
            * lucas_u(q, n),
    decreases n,
{
    let (um, vm) = (lucas_u(q, m), lucas_v(q, m));
    if n == 0 {
        assert(m + n == m);
    } else if n == 1 {
        lemma_lucas_next(q, m);
        assert(m + n == m + 1);
    } else {
        lemma_lucas_add(q, m, (n - 1) as nat);
        lemma_lucas_add(q, m, (n - 2) as nat);
        let k = m + n;
        assert(k >= 2);
        assert(lucas_u(q, k) == lucas_u(q, (k - 1) as nat) - q * lucas_u(q, (k - 2) as nat));
        assert(lucas_v(q, k) == lucas_v(q, (k - 1) as nat) - q * lucas_v(q, (k - 2) as nat));
        assert((k - 1) as nat == m + (n - 1) as nat);
        assert((k - 2) as nat == m + (n - 2) as nat);
        let (a1, a2) = (lucas_u(q, (k - 1) as nat), lucas_u(q, (k - 2) as nat));
        let (b1, b2) = (lucas_v(q, (k - 1) as nat), lucas_v(q, (k - 2) as nat));
        let (un1, un2) = (lucas_u(q, (n - 1) as nat), lucas_u(q, (n - 2) as nat));
        let (vn1, vn2) = (lucas_v(q, (n - 1) as nat), lucas_v(q, (n - 2) as nat));
        assert(lucas_u(q, n) == un1 - q * un2);
        assert(lucas_v(q, n) == vn1 - q * vn2);
        assert(2 * (a1 - q * a2) == um * lucas_v(q, n) + lucas_u(q, n) * vm) by (nonlinear_arith)
            requires
                2 * a1 == um * vn1 + un1 * vm,
                2 * a2 == um * vn2 + un2 * vm,
                lucas_u(q, n) == un1 - q * un2,
                lucas_v(q, n) == vn1 - q * vn2,
        ;
        assert(2 * (b1 - q * b2) == vm * lucas_v(q, n) + (1 - 4 * q) * um * lucas_u(q, n))
            by (nonlinear_arith)
            requires
                2 * b1 == vm * vn1 + (1 - 4 * q) * um * un1,
                2 * b2 == vm * vn2 + (1 - 4 * q) * um * un2,
                lucas_u(q, n) == un1 - q * un2,
                lucas_v(q, n) == vn1 - q * vn2,
        ;
    }
}

/// Halving modulo an odd `n` is unique: `2y = 2z (mod n)` gives `y = z (mod n)`.
proof fn lemma_half_unique(n: int, y: int, z: int)
    requires
        n > 0,
        n % 2 == 1,
        0 <= y < n,
        (2 * y) % n == (2 * z) % n,
    ensures
        y == z % n,
{
    lemma_fundamental_div_mod(2 * y, n);
    lemma_fundamental_div_mod(2 * z, n);
    let k = (2 * y) / n - (2 * z) / n;
    assert(2 * (y - z) == n * k) by (nonlinear_arith)
        requires
            2 * y == n * ((2 * y) / n) + (2 * y) % n,
            2 * z == n * ((2 * z) / n) + (2 * z) % n,
            (2 * y) % n == (2 * z) % n,
            k == (2 * y) / n - (2 * z) / n,
    ;
    lemma_fundamental_div_mod(k, 2);
    lemma_fundamental_div_mod(n, 2);
    let j = k / 2;
    assert(k % 2 == 0) by {
        if k % 2 != 0 {
            lemma_mod_bound(k, 2);
            let i = n / 2;
            assert(k == 2 * j + 1);
            assert(n == 2 * i + 1);
            assert(n * k == 2 * (2 * i * j + i + j) + 1) by (nonlinear_arith)
                requires k == 2 * j + 1, n == 2 * i + 1;
            assert(false);
        }
    }
    assert(y == n * j + z) by (nonlinear_arith)
        requires 2 * (y - z) == n * k, k == 2 * j + 0;
    lemma_mod_multiples_vanish(j, z, n);
    lemma_small_mod(y as nat, n as nat);
}

/// The Jacobi symbol `(a / n)` for odd positive `n`, by its reduction laws:
/// `(a / n) = (a mod n / n)`; `(0 / n)` is 1 for `n = 1` and 0 otherwise;
/// `(2a / n) = -(a / n)` exactly when `n = 3, 5 (mod 8)`; and for odd `a`,
/// `(a / n) = -(n / a)` exactly when `a = n = 3 (mod 4)`. It is 0 for even
/// or zero `n`.
pub open spec fn jacobi_symbol(a: nat, n: nat) -> int
    decreases n, a,
{
    if n == 0 || n % 2 == 0 {
        0
    } else if a >= n {
        jacobi_symbol(a % n, n)
    } else if a == 0 {
        if n == 1 {
            1
        } else {
            0
        }
    } else if a % 2 == 0 {
        (if n % 8 == 3 || n % 8 == 5 {
            -1int
        } else {
            1int
        }) * jacobi_symbol(a / 2, n)
    } else {
        (if a % 4 == 3 && n % 4 == 3 {
            -1int
        } else {
            1int
        }) * jacobi_symbol(n, a)
    }
}

/// The Jacobi symbol `(a / n)`, with `a` of either sign reduced modulo `n`
/// first; 0 for even or zero `n`.
pub fn jacobi(a: i64, n: u64) -> (r: i32)
    ensures
        r == jacobi_symbol(((a as int) % (n as int)) as nat, n as nat),
        -1 <= r <= 1,
{
    if n == 0 || n % 2 == 0 {
        return 0;
    }
    let mut x: u64 = if a >= 0 {
        (a as u64) % n
    } else {
        let mag: u64 = ((-(a + 1)) as u64) + 1;
        let rem: u64 = mag % n;
        if rem == 0 {
            0
        } else {
            n - rem
        }
    };
    proof {
        if a < 0 {
            let mag = -(a as int);
            lemma_fundamental_div_mod(mag, n as int);
            lemma_mod_bound(mag, n as int);
            let rem = mag % (n as int);
            if rem == 0 {
                let w = mag / (n as int);
                assert((a as int) == (n as int) * (-w)) by (nonlinear_arith)
                    requires mag == (n as int) * w + rem, rem == 0, (a as int) == -mag;
                lemma_mod_multiples_vanish(-(mag / (n as int)), 0, n as int);
            } else {
                let w = mag / (n as int);
                assert((a as int) == (n as int) * (-w - 1) + (n - rem)) by (nonlinear_arith)
                    requires mag == (n as int) * w + rem, (a as int) == -mag;
                lemma_mod_multiples_vanish(-(mag / (n as int)) - 1, n - rem, n as int);
                lemma_small_mod((n - rem) as nat, n as nat);
            }
        }
    }
    assert(x as int == (a as int) % (n as int));
    let mut m: u64 = n;
    let mut result: i32 = 1;
    let ghost goal = jacobi_symbol(x as nat, n as nat);
    while x != 0
        invariant
            m % 2 == 1,
            x < m,
            result == 1 || result == -1,
            result * jacobi_symbol(x as nat, m as nat) == goal,
        decreases m,
    {
        while x % 2 == 0
            invariant
                m % 2 == 1,
                0 < x < m,
                result == 1 || result == -1,
                result * jacobi_symbol(x as nat, m as nat) == goal,
            decreases x,
        {
            let ghost before = result;
            let r8: u64 = m % 8;
            if r8 == 3 || r8 == 5 {
                result = -result;
            }
            proof {
                assert(jacobi_symbol(x as nat, m as nat) == (if m % 8 == 3 || m % 8 == 5 {
                    -1int
                } else {
                    1int
                }) * jacobi_symbol((x / 2) as nat, m as nat));
                assert(result * jacobi_symbol((x / 2) as nat, m as nat) == goal) by (nonlinear_arith)
                    requires
                        before * jacobi_symbol(x as nat, m as nat) == goal,
                        jacobi_symbol(x as nat, m as nat) == (if m % 8 == 3 || m % 8 == 5 {
                            -1int
                        } else {
                            1int
                        }) * jacobi_symbol((x / 2) as nat, m as nat),
                        result == (if m % 8 == 3 || m % 8 == 5 {
                            -(before as int)
                        } else {
                            before as int
                        }),
                ;
            }
            x = x / 2;
        }
        let ghost before = result;
        let ghost (x0, m0) = (x, m);
        if x % 4 == 3 && m % 4 == 3 {
            result = -result;
        }
        proof {
            assert(jacobi_symbol(x0 as nat, m0 as nat) == (if x0 % 4 == 3 && m0 % 4 == 3 {
                -1int
            } else {
                1int
            }) * jacobi_symbol(m0 as nat, x0 as nat));
            assert(jacobi_symbol(m0 as nat, x0 as nat) == jacobi_symbol((m0 % x0) as nat, x0 as nat));
            assert(result * jacobi_symbol((m0 % x0) as nat, x0 as nat) == goal) by (nonlinear_arith)
                requires
                    before * jacobi_symbol(x0 as nat, m0 as nat) == goal,
                    jacobi_symbol(x0 as nat, m0 as nat) == (if x0 % 4 == 3 && m0 % 4 == 3 {
                        -1int
                    } else {
                        1int
                    }) * jacobi_symbol((m0 % x0) as nat, x0 as nat),
                    result == (if x0 % 4 == 3 && m0 % 4 == 3 {
                        -(before as int)
                    } else {
                        before as int
                    }),
            ;
        }
        let t: u64 = m % x;
        m = x;
        x = t;
    }
    assert(jacobi_symbol(0, m as nat) == if m == 1 { 1int } else { 0int });
    if m == 1 {
        result
    } else {
        assert(result * 0 == 0);
        0
    }
}

/// `a` reduced modulo `n`, for `a` of either sign.
fn residue(a: i64, n: u64) -> (r: u64)
    requires
        n > 0,
    ensures
        r as int == (a as int) % (n as int),
        r < n,
{
    if a >= 0 {
        (a as u64) % n
    } else {
        let mag: u64 = ((-(a + 1)) as u64) + 1;
        let rem: u64 = mag % n;
        proof {
            let mag = -(a as int);
            lemma_fundamental_div_mod(mag, n as int);
            lemma_mod_bound(mag, n as int);
            let rem = mag % (n as int);
            let w = mag / (n as int);
            if rem == 0 {
                assert((a as int) == (n as int) * (-w)) by (nonlinear_arith)
                    requires mag == (n as int) * w + rem, rem == 0, (a as int) == -mag;
                lemma_mod_multiples_vanish(-w, 0, n as int);
            } else {
                assert((a as int) == (n as int) * (-w - 1) + (n - rem)) by (nonlinear_arith)
                    requires mag == (n as int) * w + rem, (a as int) == -mag;
                lemma_mod_multiples_vanish(-w - 1, n - rem, n as int);
                lemma_small_mod((n - rem) as nat, n as nat);
            }
        }
        if rem == 0 {
            0
        } else {
            n - rem
        }
    }
}

/// `a * b mod n`.
fn mul_mod(a: u64, b: u64, n: u64) -> (r: u64)
    requires
        n > 0,
    ensures
        r as int == (a as int * b as int) % (n as int),
        r < n,
{
    assert((a as int) * (b as int) <= u128::MAX) by (nonlinear_arith)
        requires a <= u64::MAX, b <= u64::MAX, a >= 0, b >= 0;
    ((a as u128 * b as u128) % (n as u128)) as u64
}

/// `a + b mod n`, for residues `a` and `b`.
fn add_mod(a: u64, b: u64, n: u64) -> (r: u64)
    requires
        a < n,
        b < n,
    ensures
        r as int == (a as int + b as int) % (n as int),
        r < n,
{
    if a >= n - b {
        proof {
            lemma_mod_multiples_vanish(1, a + b - n, n as int);
            lemma_small_mod((a + b - n) as nat, n as nat);
        }
        a - (n - b)
    } else {
        proof {
            lemma_small_mod((a + b) as nat, n as nat);
        }
        a + b
    }
}

/// Half of the residue `x` modulo an odd `n`.
fn half_mod(x: u64, n: u64) -> (h: u64)
    requires
        n % 2 == 1,
        x < n,
    ensures
        h < n,
        (2 * h) % (n as int) == x,
{
    if x % 2 == 0 {
        proof {
            lemma_small_mod(x as nat, n as nat);
        }
        x / 2
    } else {
        let h: u64 = x / 2 + n / 2 + 1;
        proof {
            assert(2 * h == x + n);
            lemma_mod_multiples_vanish(1, x as int, n as int);
            lemma_small_mod(x as nat, n as nat);
        }
        h
    }
}

/// From `2y = t (mod n)`, with `y` a residue, `y` is `t / 2` modulo `n`.
proof fn lemma_halved(n: int, y: int, t: int, z: int)
    requires
        n > 0,
        n % 2 == 1,
        0 <= y < n,
        (2 * y) % n == t % n,
        2 * z == t,
    ensures
        y == z % n,
{
    lemma_half_unique(n, y, z);
}

/// Residues of `U_(2k)` and `V_(2k)` from those of `U_k` and `V_k`.
fn lucas_double(u: u64, v: u64, n: u64, dm: u64, Ghost(q): Ghost<int>, Ghost(k): Ghost<nat>) -> (r: (
    u64,
    u64,
))
    requires
        n % 2 == 1,
        n >= 3,
        u as int == lucas_u(q, k) % (n as int),
        v as int == lucas_v(q, k) % (n as int),
        dm as int == (1 - 4 * q) % (n as int),
    ensures
        r.0 as int == lucas_u(q, 2 * k) % (n as int),
        r.1 as int == lucas_v(q, 2 * k) % (n as int),
{
    let ghost (bu, bv, dd, nn) = (lucas_u(q, k), lucas_v(q, k), 1 - 4 * q, n as int);
    proof {
        lemma_lucas_add(q, k, k);
        assert(k + k == 2 * k);
    }
    let u2: u64 = mul_mod(u, v, n);
    proof {
        lemma_mul_mod_noop_general(bu, bv, nn);
    }
    let vv: u64 = mul_mod(v, v, n);
    let uu: u64 = mul_mod(u, u, n);
    let duu: u64 = mul_mod(dm, uu, n);
    let w: u64 = add_mod(vv, duu, n);
    proof {
        lemma_mul_mod_noop_general(bv, bv, nn);
        lemma_mul_mod_noop_general(bu, bu, nn);
        lemma_mul_mod_noop_general(dd, bu * bu, nn);
        assert(vv as int == (bv * bv) % nn);
        assert(uu as int == (bu * bu) % nn);
        assert(duu as int == (dd * (bu * bu)) % nn);
        lemma_add_mod_noop(bv * bv, dd * (bu * bu), nn);
        assert(w as int == (bv * bv + dd * (bu * bu)) % nn);
        assert(bv * bv + dd * (bu * bu) == bv * bv + dd * bu * bu) by (nonlinear_arith);
    }
    let v2: u64 = half_mod(w, n);
    proof {
        lemma_halved(nn, v2 as int, bv * bv + dd * bu * bu, lucas_v(q, 2 * k));
    }
    (u2, v2)
}

/// Residues of `U_(k+1)` and `V_(k+1)` from those of `U_k` and `V_k`.
fn lucas_increment(u: u64, v: u64, n: u64, dm: u64, Ghost(q): Ghost<int>, Ghost(k): Ghost<nat>) -> (r: (
    u64,
    u64,
))
    requires
        n % 2 == 1,
        n >= 3,
        u as int == lucas_u(q, k) % (n as int),
        v as int == lucas_v(q, k) % (n as int),
        dm as int == (1 - 4 * q) % (n as int),
    ensures
        r.0 as int == lucas_u(q, k + 1) % (n as int),
        r.1 as int == lucas_v(q, k + 1) % (n as int),
{
    let ghost (bu, bv, dd, nn) = (lucas_u(q, k), lucas_v(q, k), 1 - 4 * q, n as int);
    proof {
        lemma_lucas_next(q, k);
    }
    let s: u64 = add_mod(u, v, n);
    proof {
        lemma_add_mod_noop(bu, bv, nn);
    }
    let u1: u64 = half_mod(s, n);
    proof {
        lemma_halved(nn, u1 as int, bu + bv, lucas_u(q, k + 1));
    }
    let du: u64 = mul_mod(dm, u, n);
    let t: u64 = add_mod(du, v, n);
    proof {
        lemma_mul_mod_noop_general(dd, bu, nn);
        lemma_add_mod_noop(dd * bu, bv, nn);
    }
    let v1: u64 = half_mod(t, n);
    proof {
        lemma_halved(nn, v1 as int, dd * bu + bv, lucas_v(q, k + 1));
    }
    (u1, v1)
}

/// Residues of `U_k` and `V_k` modulo `n`, by halving `k`.
fn lucas_uv(k: u64, n: u64, dm: u64, Ghost(q): Ghost<int>) -> (r: (u64, u64))
    requires
        n % 2 == 1,
        n >= 3,
        dm as int == (1 - 4 * q) % (n as int),
    ensures
        r.0 as int == lucas_u(q, k as nat) % (n as int),
        r.1 as int == lucas_v(q, k as nat) % (n as int),
    decreases k,
{
    if k == 0 {
        proof {
            lemma_small_mod(0, n as nat);
            lemma_small_mod(2, n as nat);
        }
        return (0, 2);
    }
    let (u, v) = lucas_uv(k / 2, n, dm, Ghost(q));
    let (u2, v2) = lucas_double(u, v, n, dm, Ghost(q), Ghost((k / 2) as nat));
    if k % 2 == 1 {
        lucas_increment(u2, v2, n, dm, Ghost(q), Ghost(2 * ((k / 2) as nat)))
    } else {
        (u2, v2)
    }
}

/// `n` is a strong Lucas probable prime for `P = 1` and `Q`, where
/// `n + 1 = d * 2^s` with `d` odd: `U_d = 0`, or `V_(d * 2^r) = 0` for some
/// `r < s`, modulo `n`.
pub open spec fn strong_lucas_prp(n: int, q: int) -> bool {
    let d = odd_split((n + 1) as nat).0;
    let s = odd_split((n + 1) as nat).1;
    lucas_u(q, d) % n == 0 || exists|r: nat| r < s && #[trigger] lucas_v(q, d * pow2(r)) % n == 0
}

/// The strong Lucas probable-prime check of `n` for `P = 1` and `Q`, given
/// `D = 1 - 4Q` modulo `n`.
fn strong_lucas_check(n: u64, dm: u64, Ghost(q): Ghost<int>) -> (r: bool)
    requires
        n % 2 == 1,
        3 <= n < u64::MAX,
        dm as int == (1 - 4 * q) % (n as int),
    ensures
        r == strong_lucas_prp(n as int, q),
{
    let mut d: u64 = n + 1;
    let mut s: u32 = 0;
    proof {
        vstd::arithmetic::power2::lemma2_to64();
    }
    while d % 2 == 0
        invariant
            d >= 1,
            s <= 63,
            3 <= n < u64::MAX,
            d * pow2(s as nat) == n + 1,
            odd_split((n + 1) as nat) == (odd_split(d as nat).0, (odd_split(d as nat).1 + s) as nat),
        decreases d,
    {
        proof {
            lemma_pow2_unfold((s + 1) as nat);
            assert((d / 2) * pow2((s + 1) as nat) == n + 1) by (nonlinear_arith)
                requires d % 2 == 0, d * pow2(s as nat) == n + 1, pow2((s + 1) as nat) == 2 * pow2(s as nat);
            assert(s < 63) by {
                vstd::arithmetic::power2::lemma2_to64_rest();
                if s >= 63 {
                    if s > 63 {
                        vstd::arithmetic::power2::lemma_pow2_strictly_increases(63, s as nat);
                    }
                    assert(d * pow2(s as nat) >= 2 * pow2(63)) by (nonlinear_arith)
                        requires d >= 2, pow2(s as nat) >= pow2(63);
                }
            }
        }
        d = d / 2;
        s = s + 1;
    }
    assert(odd_split(d as nat) == (d as nat, 0nat));
    let (u0, v0) = lucas_uv(d, n, dm, Ghost(q));
    if u0 == 0 {
        return true;
    }
    let mut u: u64 = u0;
    let mut v: u64 = v0;
    let mut r: u32 = 0;
    proof {
        vstd::arithmetic::power2::lemma2_to64();
        assert(d * pow2(0) == d);
    }
    while r < s
        invariant
            n % 2 == 1,
            3 <= n < u64::MAX,
            dm as int == (1 - 4 * q) % (n as int),
            d as nat == odd_split((n + 1) as nat).0,
            s as nat == odd_split((n + 1) as nat).1,
            lucas_u(q, d as nat) % (n as int) != 0,
            r <= s,
            u as int == lucas_u(q, (d as nat) * pow2(r as nat)) % (n as int),
            v as int == lucas_v(q, (d as nat) * pow2(r as nat)) % (n as int),
            forall|j: nat| j < r ==> #[trigger] lucas_v(q, (d as nat) * pow2(j)) % (n as int) != 0,
        decreases s - r,
    {
        if v == 0 {
            return true;
        }
        proof {
            lemma_pow2_unfold((r + 1) as nat);
            assert(d * pow2((r + 1) as nat) == 2 * (d * pow2(r as nat))) by (nonlinear_arith)
                requires pow2((r + 1) as nat) == 2 * pow2(r as nat);
        }
        let (u2, v2) = lucas_double(u, v, n, dm, Ghost(q), Ghost((d as nat) * pow2(r as nat)));
        u = u2;
        v = v2;
        r = r + 1;
    }
    false
}

/// How many of Selfridge's candidates for `D` are tried.
pub const SELFRIDGE_SEARCH_LIMIT: u64 = 100_000;

/// The `k`-th of Selfridge's candidates 5, -7, 9, -11, ... for `D`.
pub open spec fn selfridge_d(k: nat) -> int {
    if k % 2 == 0 {
        5 + 2 * (k as int)
    } else {
        -(5 + 2 * k)
    }
}

/// The `k`-th candidate is the first whose Jacobi symbol modulo `n` is -1.
pub open spec fn selfridge_first(n: int, k: nat) -> bool {
    &&& jacobi_symbol((selfridge_d(k) % n) as nat, n as nat) == -1
    &&& forall|j: nat| j < k ==> #[trigger] jacobi_symbol((selfridge_d(j) % n) as nat, n as nat) != -1
}

/// `n` is a perfect square.
pub open spec fn is_square(n: int) -> bool {
    exists|r: int| 0 <= r && #[trigger] (r * r) == n
}

/// What the Lucas test accepts: an odd `n` from 3 up to `2^64 - 2` (the
/// bound is a multiple of 3), no perfect square, with a first Selfridge `D`
/// among the candidates tried, for which `n` is a strong Lucas probable prime
/// with `P = 1` and `Q = (1 - D) / 4`.
pub open spec fn lucas_probable_prime(n: int) -> bool {
    &&& 3 <= n < u64::MAX
    &&& n % 2 == 1
    &&& !is_square(n)
    &&& exists|k: nat|
        k < SELFRIDGE_SEARCH_LIMIT && #[trigger] selfridge_first(n, k) && strong_lucas_prp(
            n,
            (1 - selfridge_d(k)) / 4,
        )
}

/// The index of the first Selfridge candidate whose Jacobi symbol modulo `n`
/// is -1, among those tried.
fn select_d(n: u64) -> (r: Option<u64>)
    requires
        n % 2 == 1,
        n >= 3,
    ensures
        match r {
            Some(k) => k < SELFRIDGE_SEARCH_LIMIT && selfridge_first(n as int, k as nat),
            None => forall|j: nat|
                j < SELFRIDGE_SEARCH_LIMIT ==> #[trigger] jacobi_symbol(
                    (selfridge_d(j) % (n as int)) as nat,
                    n as nat,
                ) != -1,
        },
{
    let mut k: u64 = 0;
    while k < SELFRIDGE_SEARCH_LIMIT
        invariant
            n % 2 == 1,
            n >= 3,
            k <= SELFRIDGE_SEARCH_LIMIT,
            forall|j: nat| j < k ==> #[trigger] jacobi_symbol((selfridge_d(j) % (n as int)) as nat, n as nat)
                != -1,
        decreases SELFRIDGE_SEARCH_LIMIT - k,
    {
        let mag: i64 = (5 + 2 * k) as i64;
        let d: i64 = if k % 2 == 0 { mag } else { -mag };
        assert(d as int == selfridge_d(k as nat));
        if jacobi(d, n) == -1 {
            return Some(k);
        }
        k = k + 1;
    }
    None
}

/// The strong Lucas probable-prime test with Selfridge's parameters: `P = 1`,
/// `D` the first of 5, -7, 9, -11, ... with Jacobi symbol -1 modulo `n`, and
/// `Q = (1 - D) / 4`. Perfect squares, which have no such `D`, are refused
/// at once.
pub fn lucas_pp_test(n: u64) -> (r: bool)
    ensures
        r == lucas_probable_prime(n as int),
{
    if n < 3 || n % 2 == 0 || n == u64::MAX {
        return false;
    }
    let root: u64 = integer_sqrt(n);
    if root * root == n {
        return false;
    }
    proof {
        assert forall|x: int| 0 <= x implies #[trigger] (x * x) != n by {
            if x <= root {
                assert(x * x <= root * root) by (nonlinear_arith)
                    requires 0 <= x <= root;
                assert(x * x != n || x == root) by (nonlinear_arith)
                    requires 0 <= x <= root, root * root <= n, root * root != n;
            } else {
                assert(x * x >= (root + 1) * (root + 1)) by (nonlinear_arith)
                    requires x >= root + 1, root >= 0;
            }
        }
    }
    match select_d(n) {
        None => {
            proof {
                assert forall|k: nat| k < SELFRIDGE_SEARCH_LIMIT implies !#[trigger] selfridge_first(
                    n as int,
                    k,
                ) by {}
            }
            false
        },
        Some(k) => {
            let mag: i64 = (5 + 2 * k) as i64;
            let d: i64 = if k % 2 == 0 { mag } else { -mag };
            let ghost q: int = (1 - selfridge_d(k as nat)) / 4;
            assert(1 - 4 * q == d as int);
            let dm: u64 = residue(d, n);
            let r = strong_lucas_check(n, dm, Ghost(q));
            proof {
                assert forall|j: nat| j < SELFRIDGE_SEARCH_LIMIT && #[trigger] selfridge_first(
                    n as int,
                    j,
                ) implies j == k by {
                    if j < k {
                        assert(jacobi_symbol((selfridge_d(j) % (n as int)) as nat, n as nat) != -1);
                    } else if j > k {
                        assert(jacobi_symbol((selfridge_d(k as nat) % (n as int)) as nat, n as nat) != -1);
                    }
                }
                if r {
                    assert(selfridge_first(n as int, k as nat));
                }
            }
            r
        },
    }
}

/// What the Baillie-PSW test accepts: 2, or an odd `n` of at least 3 that
/// passes both the deterministic Miller-Rabin test and the strong Lucas test.
pub open spec fn bpsw_accepts(n: int) -> bool {
    n == 2 || (n >= 3 && n % 2 == 1 && passes_mr64(n) && lucas_probable_prime(n))
}

/// The Baillie-PSW test: small and even numbers first, then Miller-Rabin to
/// the seven fixed bases, then the strong Lucas test.
pub fn is_bpsw_prime(n: u64) -> (r: bool)
    ensures
        r == bpsw_accepts(n as int),
{
    if n < 2 {
        return false;
    }
    if n == 2 {
        return true;
    }
    if n % 2 == 0 {
        return false;
    }
    if !is_64bit_prime(n) {
        return false;
    }
    if !lucas_pp_test(n) {
        return false;
    }
    true
}

/// Whether `n` passes the Baillie-PSW test; used to check numbers already
/// produced.
pub fn is_bpsw_prime_check(n: u64) -> (r: bool)
    ensures
        r == bpsw_accepts(n as int),
{
    is_bpsw_prime(n)
}

} // verus!
