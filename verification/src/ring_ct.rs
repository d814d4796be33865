//! Constant-time primitives for `Z_q`.
//!
//! All operations avoid data-dependent branches and variable-time division.
//! Each is proved to compute its mathematical result exactly on the inputs it
//! admits.
use vstd::prelude::*;
use crate::params::Q;

verus! {

/// `R = 2^32` (Montgomery radix).
pub const R: i64 = 4294967296;

/// `R mod Q = 2^32 mod Q`.
pub const R_MOD_Q: i64 = 4193792;

/// `Q^{-1} mod 2^32` (`Q * QINV = 1 mod 2^32`).
pub const QINV: i64 = 58728449;

/// Barrett constant `floor(2^52 / Q)`.
const BARRETT_V: i128 = 537395648;

/// Barrett rounding constant `2^51`.
const BARRETT_HALF: i128 = 2251799813685248;

/// The sign mask of a comparison: `-1` when `b` holds, `0` otherwise.
pub(crate) fn mask_of(b: bool) -> (r: i64)
    ensures
        r == if b { -1int } else { 0int },
{
    -(b as i64)
}

proof fn lemma_mask_and_q(m: i64)
    requires
        m == 0 || m == -1,
    ensures
        (m & Q) == if m == -1 { Q } else { 0 },
{
    assert((m & 8380417i64) == if m == -1 { 8380417i64 } else { 0 }) by (bit_vector)
        requires
            m == 0 || m == -1,
    ;
}

/// Constant-time conditional subtract Q: if `a >= Q`, returns `a - Q`, else `a`.
/// For inputs in `[0, 2Q)` the output is in `[0, Q)`.
pub fn csubq(a: i64) -> (r: i64)
    ensures
        r == if a >= Q { a - Q } else { a as int },
{
    let ge = mask_of(a >= Q);
    proof {
        lemma_mask_and_q(ge);
    }
    a - (ge & Q)
}

/// Constant-time conditional add Q: if `a < 0`, returns `a + Q`, else `a`.
/// For inputs in `(-Q, Q)` the output is in `[0, Q)`.
pub fn caddq(a: i64) -> (r: i64)
    ensures
        r == if a < 0 { a + Q } else { a as int },
{
    let neg = mask_of(a < 0);
    proof {
        lemma_mask_and_q(neg);
    }
    a + (neg & Q)
}

/// Constant-time conditional select: returns `b` if `cond == -1` (all ones),
/// else `a`. `cond` must be `0` or `-1`.
pub fn ct_select(a: i64, b: i64, cond: i64) -> (r: i64)
    requires
        cond == 0 || cond == -1,
    ensures
        r == if cond == -1 { b } else { a },
{
    proof {
        assert((a ^ (cond & (a ^ b))) == if cond == -1 { b } else { a }) by (bit_vector)
            requires
                cond == 0 || cond == -1,
        ;
    }
    a ^ (cond & (a ^ b))
}

/// The centered representative of `c`: `c - Q` when `c > (Q-1)/2`, else `c`.
pub open spec fn centered(c: int) -> int {
    if c > (Q - 1) / 2 {
        c - Q
    } else {
        c
    }
}

/// Constant-time "center" reduction: maps `c in [0, Q)` to
/// `[-(Q-1)/2, (Q-1)/2]`.
pub fn center(c: i64) -> (r: i64)
    requires
        c >= i64::MIN + Q,
    ensures
        r == centered(c as int),
{
    let half: i64 = 4190208;
    let cond = mask_of(c > half);
    ct_select(c, c - Q, cond)
}

proof fn lemma_barrett_bounds(a: int, t: int)
    requires
        -(Q * Q) <= a <= Q * Q,
        t * 4503599627370496 <= a * 537395648 + 2251799813685248,
        a * 537395648 + 2251799813685248 < t * 4503599627370496 + 4503599627370496,
    ensures
        -Q < a - t * Q < Q,
{
}

/// Constant-time Barrett reduction: maps `a` to `a mod Q` in `[0, Q)`.
///
/// Handles inputs in `[-Q^2, Q^2]`: products of two reduced values, and sums
/// and differences of reduced values.
pub fn barrett_reduce(a: i64) -> (r: i64)
    requires
        -(Q * Q) <= a <= Q * Q,
    ensures
        r == a % Q,
{
    let x: i128 = (a as i128) * BARRETT_V + BARRETT_HALF;
    let t: i128 = x >> 52;
    proof {
        assert(t == x / 4503599627370496) by (bit_vector)
            requires
                t == x >> 52,
        ;
        lemma_barrett_bounds(a as int, t as int);
    }
    let r0: i64 = a - (t * (Q as i128)) as i64;
    let n1 = mask_of(r0 < 0);
    proof {
        lemma_mask_and_q(n1);
    }
    let r1: i64 = r0 + (n1 & Q);
    let n2 = mask_of(r1 < 0);
    proof {
        lemma_mask_and_q(n2);
    }
    let r2: i64 = r1 + (n2 & Q);
    let g1 = mask_of(r2 >= Q);
    proof {
        lemma_mask_and_q(g1);
    }
    let r3: i64 = r2 - (g1 & Q);
    let g2 = mask_of(r3 >= Q);
    proof {
        lemma_mask_and_q(g2);
    }
    let r4: i64 = r3 - (g2 & Q);
    proof {
        assert(0 <= r4 < Q);
        assert(r4 == a - t * Q + (if r0 < 0 { Q as int } else { 0 }));
        vstd::arithmetic::div_mod::lemma_mod_multiples_vanish(
            -t + (if r0 < 0 { 1int } else { 0 }),
            r4 as int,
            Q as int,
        );
        vstd::arithmetic::div_mod::lemma_small_mod(r4 as nat, Q as nat);
    }
    r4
}


/// Constant-time Montgomery reduction: computes `a * 2^{-32} mod Q` in `[0, Q)`.
///
/// Admits inputs with `|a| <= Q * 2^32`, which covers every product of a
/// reduced value with a reduced value scaled by `2^32`.
pub fn montgomery_reduce(a: i64) -> (r: i64)
    requires
        -(Q * 4294967296) <= a <= Q * 4294967296,
    ensures
        0 <= r < Q,
        (r * 4294967296) % (Q as int) == (a as int) % (Q as int),
{
    let lo: i64 = a as i32 as i64;
    let u: i64 = (lo.wrapping_mul(QINV as i32 as i64)) as i32 as i64;
    proof {
        assert(-2147483648 <= u < 2147483648) by (bit_vector)
            requires
                u == (lo * 58728449i64) as i32 as i64,
        ;
        assert(-2147483648 <= lo < 2147483648) by (bit_vector)
            requires
                lo == a as i32 as i64,
        ;
        assert(lo.wrapping_mul(58728449i64) == lo * 58728449);
    }
    let uq: i64 = u.wrapping_mul(Q);
    let d: i64 = a - uq;
    let t: i64 = d >> 32;
    proof {
        assert(uq == u * Q);
        let p: i64 = (lo * 58728449) as i64;
        let k0: i64 = ((a - lo) as i64) >> 32;
        let k1: i64 = ((p - u) as i64) >> 32;
        assert(k0 * 4294967296 == a - lo) by (bit_vector)
            requires
                lo == a as i32 as i64,
                -(8380417i64 * 4294967296) <= a <= 8380417i64 * 4294967296,
                k0 == ((a - lo) as i64) >> 32,
                -2147483648 <= lo < 2147483648,
        ;
        assert(k1 * 4294967296 == p - u) by (bit_vector)
            requires
                u == p as i32 as i64,
                k1 == ((p - u) as i64) >> 32,
                -2147483648 <= u < 2147483648,
                -2147483648 * 58728449 <= p <= 2147483648 * 58728449,
        ;
        assert(t == d / 4294967296) by (bit_vector)
            requires
                t == d >> 32,
        ;
        assert(d == 4294967296 * (k0 - lo * 114592 + k1 * Q));
    }
    let n1 = mask_of(t < 0);
    proof {
        lemma_mask_and_q(n1);
    }
    let t0: i64 = t + (n1 & Q);
    let n2 = mask_of(t0 < 0);
    proof {
        lemma_mask_and_q(n2);
    }
    let t1: i64 = t0 + (n2 & Q);
    let g1 = mask_of(t1 >= Q);
    proof {
        lemma_mask_and_q(g1);
    }
    let t2: i64 = t1 - (g1 & Q);
    let g2 = mask_of(t2 >= Q);
    proof {
        lemma_mask_and_q(g2);
    }
    let t3: i64 = t2 - (g2 & Q);
    proof {
        let k: int = t3 - t;
        assert(k % (Q as int) == 0) by {
            assert(k == 0 || k == Q || k == 2 * Q || k == -Q || k == -2 * Q);
            if k == 2 * Q {
                vstd::arithmetic::div_mod::lemma_mod_multiples_basic(2, Q as int);
            } else if k == Q {
                vstd::arithmetic::div_mod::lemma_mod_self_0(Q as int);
            } else if k == -Q {
                vstd::arithmetic::div_mod::lemma_mod_multiples_basic(-1, Q as int);
            } else if k == -2 * Q {
                vstd::arithmetic::div_mod::lemma_mod_multiples_basic(-2, Q as int);
            }
        }
        assert(t3 * 4294967296 == a - u * Q + k * 4294967296);
        vstd::arithmetic::div_mod::lemma_mod_multiples_vanish(
            (k / (Q as int)) * 4294967296 - u,
            a as int,
            Q as int,
        );
        assert(k == (k / (Q as int)) * Q) by {
            vstd::arithmetic::div_mod::lemma_fundamental_div_mod(k, Q as int);
        }
        assert(t3 * 4294967296 == a + ((k / (Q as int)) * 4294967296 - u) * Q) by (nonlinear_arith)
            requires
                t3 * 4294967296 == a - u * Q + k * 4294967296,
                k == (k / (Q as int)) * Q,
        ;
    }
    t3
}

} // verus!
