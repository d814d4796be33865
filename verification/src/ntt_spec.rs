//! The number-theoretic transform as a mathematical object.
//!
//! `ntt_spec(f)[j]` is the value of `f` at the root `omega_j` of
//! `x^256 + 1` modulo `q`, where `omega_j = zeta^{e_j}` for the primitive
//! 512th root of unity `zeta = 1753` and the exponent `e_j` given by the
//! bit-reversed ordering of the transform.
use vstd::prelude::*;
use vstd::arithmetic::div_mod::*;
use vstd::arithmetic::power::*;
use crate::params::Q;
use crate::ring_spec::{eval, lemma_modq_idem, lemma_modq_mul, lemma_modq_small, lemma_modq_sub, modq};

verus! {

/// The primitive 512th root of unity modulo `q` used by the transform.
pub const ZETA_ROOT: i64 = 1753;

/// 8-bit reversal of `x` (for `x < 256`).
pub open spec fn rev8(x: u64) -> u64 {
    ((x & 1u64) << 7u64) | ((x & 2u64) << 5u64) | ((x & 4u64) << 3u64) | ((x & 8u64) << 1u64) | ((x
        & 16u64) >> 1u64) | ((x & 32u64) >> 3u64) | ((x & 64u64) >> 5u64) | ((x & 128u64) >> 7u64)
}

/// `zeta^e mod q`.
pub open spec fn zeta_pow(e: nat) -> int {
    modq(pow(ZETA_ROOT as int, e))
}

/// The twiddle factor at table position `k`: `zeta^{rev8(k)} mod q`.
pub open spec fn zeta_at(k: int) -> int {
    zeta_pow(rev8(k as u64) as nat)
}

/// Exponent of the evaluation point at output position `j`.
pub open spec fn root_exp(j: int) -> nat {
    (rev8((128 + j / 2) as u64) + 256 * (j % 2)) as nat
}

/// The evaluation point at output position `j`.
pub open spec fn ntt_root(j: int) -> int {
    zeta_pow(root_exp(j))
}

/// The transform: the values of `f` at the 256 roots of `x^256 + 1` mod `q`.
pub open spec fn ntt_spec(f: Seq<int>) -> Seq<int> {
    Seq::new(256, |j: int| modq(eval(f, ntt_root(j))))
}

/// The block half-lengths of the butterfly layers.
pub open spec fn is_layer_len(len: int) -> bool {
    len == 1 || len == 2 || len == 4 || len == 8 || len == 16 || len == 32 || len == 64 || len
        == 128
}

// ---------------------------------------------------------------------------
// Powers of zeta
// ---------------------------------------------------------------------------

proof fn lemma_square_step(e: nat, v: int, w: int)
    requires
        zeta_pow(e) == v,
        modq(v * v) == w,
    ensures
        zeta_pow(e + e) == w,
{
    lemma_pow_adds(ZETA_ROOT as int, e, e);
    lemma_modq_mul(pow(ZETA_ROOT as int, e), pow(ZETA_ROOT as int, e));
}

/// `zeta^256 = -1 (mod q)`.
pub proof fn lemma_zeta_256()
    ensures
        zeta_pow(256) == Q - 1,
{
    lemma_pow1(ZETA_ROOT as int);
    lemma_modq_small(1753);
    lemma_square_step(1, 1753, 3073009);
    lemma_square_step(2, 3073009, 3602218);
    lemma_square_step(4, 3602218, 5010068);
    lemma_square_step(8, 5010068, 7778734);
    lemma_square_step(16, 7778734, 5178923);
    lemma_square_step(32, 5178923, 3765607);
    lemma_square_step(64, 3765607, 4808194);
    lemma_square_step(128, 4808194, 8380416);
}

/// `zeta^{e + 256} = -zeta^e (mod q)`.
pub proof fn lemma_zeta_shift_256(e: nat)
    ensures
        zeta_pow(e + 256) == modq(-zeta_pow(e)),
{
    lemma_zeta_256();
    lemma_pow_adds(ZETA_ROOT as int, e, 256);
    let p = pow(ZETA_ROOT as int, e);
    let h = pow(ZETA_ROOT as int, 256);
    lemma_modq_mul(p, h);
    assert(modq(p) * (Q - 1) == -modq(p) + Q * modq(p)) by (nonlinear_arith);
    lemma_mod_multiples_vanish(modq(p), -modq(p), Q as int);
    lemma_modq_idem(-modq(p));
    lemma_modq_sub(0, p);
    assert(modq(-modq(p)) == modq(0 - modq(p)));
}

/// `zeta^512 = 1 (mod q)`, so powers of zeta only depend on the exponent mod 512.
pub proof fn lemma_zeta_period(e: nat)
    ensures
        zeta_pow(e) == zeta_pow(e % 512),
{
    lemma_zeta_shift_256(256);
    lemma_zeta_256();
    assert(modq(-(Q - 1)) == 1) by {
        lemma_mod_multiples_vanish(-1, 1, Q as int);
        lemma_modq_small(1);
    }
    assert(zeta_pow(512) == 1);
    let z = ZETA_ROOT as int;
    let k: nat = e / 512;
    let r: nat = e % 512;
    lemma_fundamental_div_mod(e as int, 512);
    let big: nat = 512 * k;
    assert(e == big + r);
    lemma_pow_multiplies(z, 512, k);
    assert(pow(pow(z, 512), k) == pow(z, big));
    lemma_pow_adds(z, big, r);
    assert(pow(z, e) == pow(z, big) * pow(z, r));
    lemma_pow_mod_noop(pow(z, 512), k, Q as int);
    lemma1_pow(k);
    assert(modq(pow(z, big)) == 1) by {
        assert(modq(pow(z, 512)) == 1);
        assert(pow(modq(pow(z, 512)), k) == 1);
        lemma_modq_small(1);
    }
    lemma_modq_mul(pow(z, big), pow(z, r));
    assert(modq(pow(z, e)) == modq(modq(pow(z, big)) * pow(z, r)));
    assert(modq(pow(z, big)) * pow(z, r) == pow(z, r));
}

/// The `len`-th power of the evaluation point `omega_j` is the twiddle factor
/// (or its negation) of the butterfly block that owns position `j`.
pub proof fn lemma_root_pow(j: int, len: int)
    requires
        0 <= j < 256,
        is_layer_len(len),
    ensures
        modq(pow(ntt_root(j), len as nat)) == if j % (2 * len) < len {
            zeta_at(128int / len + j / (2 * len))
        } else {
            modq(-zeta_at(128int / len + j / (2 * len)))
        },
{
    let z = ZETA_ROOT as int;
    let e = root_exp(j);
    lemma_pow_mod_noop(pow(z, e), len as nat, Q as int);
    lemma_pow_multiplies(z, e, len as nat);
    lemma_zeta_period(e * len as nat);
    lemma_exponent_layer(j, len);
    let m = 128int / len + j / (2 * len);
    let mu = m as u64;
    assert(rev8(mu) < 256) by (bit_vector);
    if j % (2 * len) >= len {
        lemma_zeta_shift_256(rev8(m as u64) as nat);
    }
}

/// The exponent identity behind `lemma_root_pow`, checked over all positions.
proof fn lemma_exponent_layer(j: int, len: int)
    requires
        0 <= j < 256,
        is_layer_len(len),
    ensures
        (root_exp(j) * len) % 512 == rev8((128int / len + j / (2 * len)) as u64) + 256 * ((j % (2
            * len)) / len),
{
    let ju = j as u64;
    let h = rev8((ju >> 1u64) | 128u64);
    assert((h < 256) && ((ju >> 1u64) | 128u64 == (128 + ju / 2) as u64)) by (bit_vector)
        requires
            h == rev8((ju >> 1u64) | 128u64),
            ju < 256,
    ;
    assert(root_exp(j) == h + 256 * (j % 2));
    if len >= 2 {
        assert((root_exp(j) * len) % 512 == (h * len) % 512) by {
            assert(root_exp(j) * len == 512 * ((j % 2) * (len / 2)) + h * len) by (nonlinear_arith)
                requires
                    root_exp(j) == h + 256 * (j % 2),
                    len % 2 == 0,
            ;
            lemma_mod_multiples_vanish((j % 2) * (len / 2), h * len, 512);
        }
    }
    if len == 1 {
        assert(root_exp(j) < 512);
        lemma_small_mod(root_exp(j), 512);
    } else if len == 2 {
        let a = rev8((ju >> 2u64) | 64u64);
        let bit = (ju >> 1u64) & 1u64;
        assert((((h << 1u64) & 511u64) == (a | (bit << 8u64))) && (a < 256 && bit < 2) && ((h << 1u64) & 511u64 == ((h * 2) % 512) as u64) && ((a | (bit << 8u64)) == (a + 256 * bit) as u64) && ((ju >> 2u64) | 64u64 == (64 + ju / 4) as u64) && (bit == (ju % 4) / 2)) by (bit_vector)
            requires
                ju < 256,
                h == rev8((ju >> 1u64) | 128u64),
                a == rev8((ju >> 2u64) | 64u64),
                bit == (ju >> 1u64) & 1u64,
                h < 256,
        ;
    } else if len == 4 {
        let a = rev8((ju >> 3u64) | 32u64);
        let bit = (ju >> 2u64) & 1u64;
        assert((((h << 2u64) & 511u64) == (a | (bit << 8u64))) && (a < 256 && bit < 2) && ((h << 2u64) & 511u64 == ((h * 4) % 512) as u64) && ((a | (bit << 8u64)) == (a + 256 * bit) as u64) && ((ju >> 3u64) | 32u64 == (32 + ju / 8) as u64) && (bit == (ju % 8) / 4)) by (bit_vector)
            requires
                ju < 256,
                h == rev8((ju >> 1u64) | 128u64),
                a == rev8((ju >> 3u64) | 32u64),
                bit == (ju >> 2u64) & 1u64,
                h < 256,
        ;
    } else if len == 8 {
        let a = rev8((ju >> 4u64) | 16u64);
        let bit = (ju >> 3u64) & 1u64;
        assert((((h << 3u64) & 511u64) == (a | (bit << 8u64))) && (a < 256 && bit < 2) && ((h << 3u64) & 511u64 == ((h * 8) % 512) as u64) && ((a | (bit << 8u64)) == (a + 256 * bit) as u64) && ((ju >> 4u64) | 16u64 == (16 + ju / 16) as u64) && (bit == (ju % 16) / 8)) by (bit_vector)
            requires
                ju < 256,
                h == rev8((ju >> 1u64) | 128u64),
                a == rev8((ju >> 4u64) | 16u64),
                bit == (ju >> 3u64) & 1u64,
                h < 256,
        ;
    } else if len == 16 {
        let a = rev8((ju >> 5u64) | 8u64);
        let bit = (ju >> 4u64) & 1u64;
        assert((((h << 4u64) & 511u64) == (a | (bit << 8u64))) && (a < 256 && bit < 2) && ((h << 4u64) & 511u64 == ((h * 16) % 512) as u64) && ((a | (bit << 8u64)) == (a + 256 * bit) as u64) && ((ju >> 5u64) | 8u64 == (8 + ju / 32) as u64) && (bit == (ju % 32) / 16)) by (bit_vector)
            requires
                ju < 256,
                h == rev8((ju >> 1u64) | 128u64),
                a == rev8((ju >> 5u64) | 8u64),
                bit == (ju >> 4u64) & 1u64,
                h < 256,
        ;
    } else if len == 32 {
        let a = rev8((ju >> 6u64) | 4u64);
        let bit = (ju >> 5u64) & 1u64;
        assert((((h << 5u64) & 511u64) == (a | (bit << 8u64))) && (a < 256 && bit < 2) && ((h << 5u64) & 511u64 == ((h * 32) % 512) as u64) && ((a | (bit << 8u64)) == (a + 256 * bit) as u64) && ((ju >> 6u64) | 4u64 == (4 + ju / 64) as u64) && (bit == (ju % 64) / 32)) by (bit_vector)
            requires
                ju < 256,
                h == rev8((ju >> 1u64) | 128u64),
                a == rev8((ju >> 6u64) | 4u64),
                bit == (ju >> 5u64) & 1u64,
                h < 256,
        ;
    } else if len == 64 {
        let a = rev8((ju >> 7u64) | 2u64);
        let bit = (ju >> 6u64) & 1u64;
        assert((((h << 6u64) & 511u64) == (a | (bit << 8u64))) && (a < 256 && bit < 2) && ((h << 6u64) & 511u64 == ((h * 64) % 512) as u64) && ((a | (bit << 8u64)) == (a + 256 * bit) as u64) && ((ju >> 7u64) | 2u64 == (2 + ju / 128) as u64) && (bit == (ju % 128) / 64)) by (bit_vector)
            requires
                ju < 256,
                h == rev8((ju >> 1u64) | 128u64),
                a == rev8((ju >> 7u64) | 2u64),
                bit == (ju >> 6u64) & 1u64,
                h < 256,
        ;
    } else if len == 128 {
        let a = rev8(1u64);
        let bit = (ju >> 7u64) & 1u64;
        assert((((h << 7u64) & 511u64) == (a | (bit << 8u64))) && (a < 256 && bit < 2) && ((h << 7u64) & 511u64 == ((h * 128) % 512) as u64) && ((a | (bit << 8u64)) == (a + 256 * bit) as u64) && (1u64 == (1 + ju / 256) as u64) && (bit == (ju % 256) / 128)) by (bit_vector)
            requires
                ju < 256,
                h == rev8((ju >> 1u64) | 128u64),
                a == rev8(1u64),
                bit == (ju >> 7u64) & 1u64,
                h < 256,
        ;
    }
}

/// The inverse layer's twiddle factor is the inverse of the forward one:
/// `zeta^{rev8(2^l + b)} * (-zeta^{rev8(2^{l+1} - 1 - b)}) = 1 (mod q)`.
pub proof fn lemma_twiddle_inverse(len: int, b: int)
    requires
        is_layer_len(len),
        0 <= b < 128int / len,
    ensures
        modq(zeta_at(128int / len + b) * modq(-zeta_at(256int / len - 1 - b))) == 1,
{
    let e1 = rev8((128int / len + b) as u64);
    let e2 = rev8((256int / len - 1 - b) as u64);
    lemma_twiddle_exponents(len, b);
    assert(e1 + e2 == 256);
    let z = ZETA_ROOT as int;
    lemma_pow_adds(z, e1 as nat, e2 as nat);
    lemma_modq_mul(pow(z, e1 as nat), pow(z, e2 as nat));
    lemma_zeta_256();
    let a = zeta_at(128int / len + b);
    let c = zeta_at(256int / len - 1 - b);
    assert(modq(a * c) == Q - 1);
    lemma_modq_mul(a, -c);
    assert(a * (-c) == -(a * c)) by (nonlinear_arith);
    lemma_modq_sub(0, a * c);
    assert(modq(0 - (Q - 1)) == 1) by {
        lemma_mod_multiples_vanish(-1, 1, Q as int);
        lemma_modq_small(1);
    }
    assert(modq(-(a * c)) == modq(0 - modq(a * c)));
}

proof fn lemma_twiddle_exponents(len: int, b: int)
    requires
        is_layer_len(len),
        0 <= b < 128int / len,
    ensures
        rev8((128int / len + b) as u64) + rev8((256int / len - 1 - b) as u64) == 256,
{
    let bu = b as u64;
    if len == 128 {
        assert((bu | 1u64 == (1 + bu) as u64) && (((0u64) ^ bu) | 1u64 == (1 - bu) as u64)) by (bit_vector)
            requires
                bu < 1,
        ;
        let x = rev8(bu | 1u64);
        let y = rev8(((0u64) ^ bu) | 1u64);
        assert(x < 256 && y < 256 && x + y == 256) by (bit_vector)
            requires
                bu < 1,
                x == rev8(bu | 1u64),
                y == rev8(((0u64) ^ bu) | 1u64),
        ;
    } else if len == 64 {
        assert((bu | 2u64 == (2 + bu) as u64) && (((1u64) ^ bu) | 2u64 == (3 - bu) as u64)) by (bit_vector)
            requires
                bu < 2,
        ;
        let x = rev8(bu | 2u64);
        let y = rev8(((1u64) ^ bu) | 2u64);
        assert(x < 256 && y < 256 && x + y == 256) by (bit_vector)
            requires
                bu < 2,
                x == rev8(bu | 2u64),
                y == rev8(((1u64) ^ bu) | 2u64),
        ;
    } else if len == 32 {
        assert((bu | 4u64 == (4 + bu) as u64) && (((3u64) ^ bu) | 4u64 == (7 - bu) as u64)) by (bit_vector)
            requires
                bu < 4,
        ;
        let x = rev8(bu | 4u64);
        let y = rev8(((3u64) ^ bu) | 4u64);
        assert(x < 256 && y < 256 && x + y == 256) by (bit_vector)
            requires
                bu < 4,
                x == rev8(bu | 4u64),
                y == rev8(((3u64) ^ bu) | 4u64),
        ;
    } else if len == 16 {
        assert((bu | 8u64 == (8 + bu) as u64) && (((7u64) ^ bu) | 8u64 == (15 - bu) as u64)) by (bit_vector)
            requires
                bu < 8,
        ;
        let x = rev8(bu | 8u64);
        let y = rev8(((7u64) ^ bu) | 8u64);
        assert(x < 256 && y < 256 && x + y == 256) by (bit_vector)
            requires
                bu < 8,
                x == rev8(bu | 8u64),
                y == rev8(((7u64) ^ bu) | 8u64),
        ;
    } else if len == 8 {
        assert((bu | 16u64 == (16 + bu) as u64) && (((15u64) ^ bu) | 16u64 == (31 - bu) as u64)) by (bit_vector)
            requires
                bu < 16,
        ;
        let x = rev8(bu | 16u64);
        let y = rev8(((15u64) ^ bu) | 16u64);
        assert(x < 256 && y < 256 && x + y == 256) by (bit_vector)
            requires
                bu < 16,
                x == rev8(bu | 16u64),
                y == rev8(((15u64) ^ bu) | 16u64),
        ;
    } else if len == 4 {
        assert((bu | 32u64 == (32 + bu) as u64) && (((31u64) ^ bu) | 32u64 == (63 - bu) as u64)) by (bit_vector)
            requires
                bu < 32,
        ;
        let x = rev8(bu | 32u64);
        let y = rev8(((31u64) ^ bu) | 32u64);
        assert(x < 256 && y < 256 && x + y == 256) by (bit_vector)
            requires
                bu < 32,
                x == rev8(bu | 32u64),
                y == rev8(((31u64) ^ bu) | 32u64),
        ;
    } else if len == 2 {
        assert((bu | 64u64 == (64 + bu) as u64) && (((63u64) ^ bu) | 64u64 == (127 - bu) as u64)) by (bit_vector)
            requires
                bu < 64,
        ;
        let x = rev8(bu | 64u64);
        let y = rev8(((63u64) ^ bu) | 64u64);
        assert(x < 256 && y < 256 && x + y == 256) by (bit_vector)
            requires
                bu < 64,
                x == rev8(bu | 64u64),
                y == rev8(((63u64) ^ bu) | 64u64),
        ;
    } else if len == 1 {
        assert((bu | 128u64 == (128 + bu) as u64) && (((127u64) ^ bu) | 128u64 == (255 - bu) as u64)) by (bit_vector)
            requires
                bu < 128,
        ;
        let x = rev8(bu | 128u64);
        let y = rev8(((127u64) ^ bu) | 128u64);
        assert(x < 256 && y < 256 && x + y == 256) by (bit_vector)
            requires
                bu < 128,
                x == rev8(bu | 128u64),
                y == rev8(((127u64) ^ bu) | 128u64),
        ;
    }
}

/// Every evaluation point is a root of `x^256 + 1` modulo `q`.
pub proof fn lemma_root_is_negacyclic(j: int)
    requires
        0 <= j < 256,
    ensures
        crate::ring_spec::is_negacyclic_root(ntt_root(j)),
{
    let z = ZETA_ROOT as int;
    let e = root_exp(j);
    let ju = j as u64;
    let h = rev8((ju >> 1u64) | 128u64);
    assert((h < 256 && h % 2 == 1) && ((ju >> 1u64) | 128u64 == (128 + ju / 2) as u64)) by (bit_vector)
        requires
            h == rev8((ju >> 1u64) | 128u64),
            ju < 256,
    ;
    assert(e == h + 256 * (j % 2));
    let k = (h - 1) / 2 + 128 * (j % 2);
    assert(e == 2 * k + 1);
    lemma_pow_mod_noop(pow(z, e), 256, Q as int);
    lemma_pow_multiplies(z, e, 256);
    lemma_zeta_period(e * 256);
    assert(e * 256 == 512 * k + 256);
    lemma_fundamental_div_mod_converse_mod((e * 256) as int, 512, k, 256);
    lemma_zeta_256();
    assert(modq(-1) == Q - 1) by {
        lemma_mod_multiples_vanish(1, -1, Q as int);
        lemma_modq_small(Q - 1);
    }
}

} // verus!
