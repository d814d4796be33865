//! The integer part of discrete Gaussian sampling over `R`: turning uniform
//! 64-bit draws and sign bytes into coefficients through a cumulative
//! distribution table (CDT), in constant time.
//!
//! The table itself holds scaled values of `exp(-x^2 / (2 sigma^2))`, which
//! are computed in floating point outside the verified library; here it is an
//! input.
use vstd::prelude::*;
use crate::params::{M, Q};
use crate::ring::Poly;
use crate::ring_ct::{caddq, ct_select, mask_of};

verus! {

/// The tail cut of the Gaussian: magnitudes are at most `6 * sigma = 194400`.
pub const GAUSS_TAIL: usize = 194400;

/// The magnitude that a CDT scan selects for the uniform draw `u`: the
/// smallest `i` in `[from, tail)` with `table[i + 1] >= u`, or `tail` if
/// there is none.
pub open spec fn cdt_magnitude(table: Seq<u64>, tail: int, u: u64, from: int) -> int
    decreases tail - from,
{
    if from >= tail {
        tail
    } else if table[from + 1] >= u {
        from
    } else {
        cdt_magnitude(table, tail, u, from + 1)
    }
}

/// The coefficient drawn from the uniform value `u` and the sign byte `s`:
/// magnitude from the table, negated when the low bit of `s` is set, then
/// reduced into `[0, q)`.
pub open spec fn gauss_coeff(table: Seq<u64>, u: u64, s: u8) -> int {
    let mag = cdt_magnitude(table, GAUSS_TAIL as int, u, 0);
    let signed = if s & 1u8 == 1 {
        -mag
    } else {
        mag
    };
    if signed < 0 {
        signed + Q
    } else {
        signed
    }
}

/// The magnitude is within `[from, tail]`.
proof fn lemma_cdt_magnitude_range(table: Seq<u64>, tail: int, u: u64, from: int)
    requires
        0 <= from,
    ensures
        from <= tail ==> from <= cdt_magnitude(table, tail, u, from) <= tail,
    decreases tail - from,
{
    if from < tail {
        lemma_cdt_magnitude_range(table, tail, u, from + 1);
    }
}

/// Tail cut: every drawn coefficient is `+-mag` reduced mod `q` for a
/// magnitude `mag <= 6 * sigma`, i.e. it lies in `[0, 6 sigma]` or in
/// `[q - 6 sigma, q)`.
pub proof fn lemma_gauss_coeff_tail(table: Seq<u64>, u: u64, s: u8)
    ensures
        0 <= gauss_coeff(table, u, s) <= GAUSS_TAIL || Q - GAUSS_TAIL <= gauss_coeff(table, u, s) < Q,
{
    lemma_cdt_magnitude_range(table, GAUSS_TAIL as int, u, 0);
}

/// One Gaussian coefficient from the uniform draw `u` and the sign byte
/// `sign_byte`: a reverse linear scan of `table` with `ct_select` (no early
/// exit) finds the magnitude, `ct_select` applies the sign and `caddq`
/// reduces into `[0, q)`.
pub fn gauss_coeff_from_draw(table: &[u64], u: u64, sign_byte: u8) -> (r: i64)
    requires
        table@.len() > GAUSS_TAIL,
    ensures
        r == gauss_coeff(table@, u, sign_byte),
        0 <= r < Q,
{
    let mut mag: i64 = GAUSS_TAIL as i64;
    let mut i: usize = GAUSS_TAIL;
    while i > 0
        invariant
            table@.len() > GAUSS_TAIL,
            i <= GAUSS_TAIL,
            mag == cdt_magnitude(table@, GAUSS_TAIL as int, u, i as int),
        decreases i,
    {
        i = i - 1;
        let ge = mask_of(table[i + 1] >= u);
        mag = ct_select(mag, i as i64, ge);
    }
    proof {
        lemma_cdt_magnitude_range(table@, GAUSS_TAIL as int, u, 0);
    }
    let sign_bit = (sign_byte & 1) as i64;
    proof {
        assert((sign_byte & 1u8) == 0u8 || (sign_byte & 1u8) == 1u8) by (bit_vector);
    }
    let signed = ct_select(mag, -mag, -sign_bit);
    caddq(signed)
}

/// A polynomial of `m` Gaussian coefficients, coefficient `k` drawn from the
/// uniform value `draws[k]` and the sign byte `signs[k]` (see
/// [`gauss_coeff_from_draw`]).
pub fn gauss_poly_from_draws(table: &[u64], draws: &[u64], signs: &[u8]) -> (r: Poly)
    requires
        table@.len() > GAUSS_TAIL,
        draws@.len() == 256,
        signs@.len() == 256,
    ensures
        r.wf(),
        forall|k: int| 0 <= k < 256 ==> #[trigger] r@[k] == gauss_coeff(table@, draws@[k], signs@[k]),
{
    let mut coeffs = [0i64; M];
    let mut k: usize = 0;
    while k < M
        invariant
            table@.len() > GAUSS_TAIL,
            draws@.len() == 256,
            signs@.len() == 256,
            k <= 256,
            forall|t: int|
                0 <= t < k ==> #[trigger] coeffs[t] == gauss_coeff(table@, draws@[t], signs@[t]) && 0 <= coeffs[t]
                    < Q,
        decreases 256 - k,
    {
        coeffs[k] = gauss_coeff_from_draw(table, draws[k], signs[k]);
        k = k + 1;
    }
    let r = Poly { coeffs };
    proof {
        assert forall|t: int| 0 <= t < 256 implies 0 <= #[trigger] r.coeffs[t] < Q by {
            assert(coeffs[t] == r.coeffs[t]);
        }
        assert forall|t: int| 0 <= t < 256 implies #[trigger] r@[t] == gauss_coeff(table@, draws@[t], signs@[t]) by {
            assert(coeffs[t] == r.coeffs[t]);
        }
    }
    r
}

} // verus!
