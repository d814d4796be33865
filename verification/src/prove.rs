//! `CPC.Prove`: the two-equation Lyubashevsky-style Sigma-protocol
//! `{ a * d_i = Delta_i, b * d_i = u_i }` made non-interactive with
//! Fiat-Shamir-with-aborts.
//!
//! The library computes one attempt of the protocol for a given masking
//! polynomial; drawing the Gaussian mask and the real-valued acceptance test
//! of the rejection step happen outside it.
use vstd::prelude::*;
use crate::commitment::Aux;
use crate::hashing::{shake256, spec_shake256};
use crate::merkle::{hash_views, MerklePath};
use crate::params::{PublicParams, Q, TAU};
use crate::ring::{poly_of, add_polys, bytes_decodable, decode_coeff, lemma_bytes_round_trip, lemma_poly_ext, mul_polys, poly_bytes, Poly};
use crate::ring_laws::lemma_add_sub_cancel;
use crate::ring_spec::{canonical, poly_add, poly_mul, poly_sub, poly_zero};

verus! {

/// Number of SHAKE-256 output bytes first drawn for one challenge.
/// `SampleInBall` uses 120 bytes plus one per index collision, so 1024 bytes
/// fall short with probability below `2^-1500`; then the stream is read
/// further (twice as far each time).
pub const CHALLENGE_STREAM_BYTES: usize = 1024;

/// The furthest the SHAKE-256 stream is read for one challenge (64 MiB): the
/// memory bound of the stream buffer.
pub const MAX_CHALLENGE_STREAM_BYTES: usize = 67108864;

/// A CPC proof `pi_i` for opening step index `i`.
///
/// `t1, t2` are carried in the proof so that the verifier can recompute the
/// Fiat-Shamir challenge `c = H(com, deltas, i, t1, t2, mu)`.
#[derive(Clone)]
pub struct Proof {
    /// Response polynomial `z = r + c * d_i` (after rejection sampling).
    pub z: Poly,
    /// Revealed leaf commitment `u_i = b * d_i`.
    pub u_i: Poly,
    /// Prover commitment `t1 = a * r`.
    pub t1: Poly,
    /// Prover commitment `t2 = b * r`.
    pub t2: Poly,
    /// Merkle authentication path for `u_i`.
    pub path: MerklePath,
}

/// Maximum rejection-sampling iterations before `Prove` gives up.
///
/// Expected iterations are about 2.7; 1000 gives an astronomically low
/// failure probability for honest provers.
pub const MAX_REJECT_ITERATIONS: usize = 1000;

/// Bytes of a serialized polynomial.
pub const POLY_BYTES: usize = 768;

/// The 8 little-endian bytes of `x`.
pub open spec fn u64_le(x: u64) -> Seq<u8> {
    Seq::new(8, |k: int| ((x >> ((8 * k) as u64)) & 0xffu64) as u8)
}

/// The value of the 8 little-endian bytes `b[0..8]`.
pub open spec fn le_u64(b: Seq<u8>) -> u64 {
    (b[0] as u64) | ((b[1] as u64) << 8u64) | ((b[2] as u64) << 16u64) | ((b[3] as u64) << 24u64)
        | ((b[4] as u64) << 32u64) | ((b[5] as u64) << 40u64) | ((b[6] as u64) << 48u64) | ((b[7] as u64)
        << 56u64)
}

/// The concatenated bytes of the hashes `hs`.
pub open spec fn hashes_bytes(hs: Seq<[u8; 32]>) -> Seq<u8>
    decreases hs.len(),
{
    if hs.len() == 0 {
        Seq::empty()
    } else {
        hashes_bytes(hs.drop_last()) + hs.last()@
    }
}

/// The compact binary serialization of a proof (little-endian):
/// `z`, `u_i`, `t1`, `t2` (768 bytes each), the path index (8 bytes), the
/// number of siblings (1 byte), then the siblings (32 bytes each).
pub open spec fn proof_bytes(p: Proof) -> Seq<u8> {
    poly_bytes(p.z) + poly_bytes(p.u_i) + poly_bytes(p.t1) + poly_bytes(p.t2) + u64_le(p.path.index as u64)
        + seq![p.path.siblings@.len() as u8] + hashes_bytes(p.path.siblings@)
}

/// The coefficients decoded from the 768 bytes of `b`.
pub open spec fn decoded(b: Seq<u8>) -> Seq<int> {
    Seq::new(256, |i: int| decode_coeff(b, i))
}

/// `b` is the serialization of some proof: at least the fixed 3081-byte
/// part, four decodable polynomials, at most 32 siblings and exactly the
/// bytes that the sibling count announces.
pub open spec fn proof_decodable(b: Seq<u8>) -> bool {
    &&& b.len() >= 3081
    &&& bytes_decodable(b.subrange(0, 768))
    &&& bytes_decodable(b.subrange(768, 1536))
    &&& bytes_decodable(b.subrange(1536, 2304))
    &&& bytes_decodable(b.subrange(2304, 3072))
    &&& b[3080] <= 32
    &&& b.len() == 3081 + 32 * b[3080]
}

/// `p` is the proof that [`Proof::from_bytes`] decodes from `b`: four
/// canonical polynomials read from the first 3072 bytes, the 8-byte index,
/// and one sibling per 32 bytes after the sibling count.
pub open spec fn decodes_to(b: Seq<u8>, p: Proof) -> bool {
    &&& p.z.wf()
    &&& p.u_i.wf()
    &&& p.t1.wf()
    &&& p.t2.wf()
    &&& p.z@ == decoded(b.subrange(0, 768))
    &&& p.u_i@ == decoded(b.subrange(768, 1536))
    &&& p.t1@ == decoded(b.subrange(1536, 2304))
    &&& p.t2@ == decoded(b.subrange(2304, 3072))
    &&& p.path.index == le_u64(b.subrange(3072, 3080)) as usize
    &&& p.path.siblings@.len() == b[3080]
    &&& forall|k: int|
        0 <= k < p.path.siblings@.len() ==> #[trigger] p.path.siblings@[k]@ == b.subrange(
            3081 + 32 * k,
            3113 + 32 * k,
        )
}

/// The concatenated serializations of `ps`.
pub open spec fn polys_bytes(ps: Seq<Poly>) -> Seq<u8>
    decreases ps.len(),
{
    if ps.len() == 0 {
        Seq::empty()
    } else {
        polys_bytes(ps.drop_last()) + poly_bytes(ps.last())
    }
}

/// The Fiat-Shamir transcript
/// `com || serialize(Delta_1..Delta_L) || i (u64, little-endian) || serialize(t1) || serialize(t2) || mu`.
pub open spec fn transcript(com: Seq<u8>, deltas: Seq<Poly>, i: u64, t1: Poly, t2: Poly, mu: Seq<u8>) -> Seq<u8> {
    com + polys_bytes(deltas) + u64_le(i) + poly_bytes(t1) + poly_bytes(t2) + mu
}

proof fn lemma_polys_bytes_layout(ps: Seq<Poly>)
    ensures
        polys_bytes(ps).len() == 768 * ps.len(),
        forall|k: int|
            0 <= k < ps.len() ==> #[trigger] polys_bytes(ps).subrange(768 * k, 768 * k + 768) == poly_bytes(ps[k]),
    decreases ps.len(),
{
    if ps.len() > 0 {
        let init = ps.drop_last();
        lemma_polys_bytes_layout(init);
        let all = polys_bytes(ps);
        assert forall|k: int| 0 <= k < ps.len() implies #[trigger] all.subrange(768 * k, 768 * k + 768) == poly_bytes(ps[k]) by {
            if k < ps.len() - 1 {
                assert(all.subrange(768 * k, 768 * k + 768) =~= polys_bytes(init).subrange(768 * k, 768 * k + 768));
            } else {
                assert(all.subrange(768 * k, 768 * k + 768) =~= poly_bytes(ps.last()));
            }
        }
    }
}

/// Where each part sits in the Fiat-Shamir transcript: the 32-byte
/// commitment, then `Delta_k` in bytes `32 + 768k ..`, the index as 8
/// little-endian bytes, `t1`, `t2`, and the nonce last.
pub proof fn lemma_transcript_layout(com: Seq<u8>, deltas: Seq<Poly>, i: u64, t1: Poly, t2: Poly, mu: Seq<u8>)
    requires
        com.len() == 32,
    ensures
        transcript(com, deltas, i, t1, t2, mu).len() == 32 + 768 * (deltas.len() as int) + 1544 + (mu.len() as int),
        transcript(com, deltas, i, t1, t2, mu).subrange(0, 32) == com,
        forall|k: int|
            0 <= k < deltas.len() ==> #[trigger] transcript(com, deltas, i, t1, t2, mu).subrange(
                32 + 768 * k,
                800 + 768 * k,
            ) == poly_bytes(deltas[k]),
        transcript(com, deltas, i, t1, t2, mu).subrange(32 + 768 * (deltas.len() as int), 40 + 768 * (deltas.len() as int))
            == Seq::new(8, |k: int| ((i >> ((8 * k) as u64)) & 0xffu64) as u8),
        transcript(com, deltas, i, t1, t2, mu).subrange(40 + 768 * (deltas.len() as int), 808 + 768 * (deltas.len() as int))
            == poly_bytes(t1),
        transcript(com, deltas, i, t1, t2, mu).subrange(808 + 768 * (deltas.len() as int), 1576 + 768 * (deltas.len() as int))
            == poly_bytes(t2),
        transcript(com, deltas, i, t1, t2, mu).subrange(
            1576 + 768 * (deltas.len() as int),
            1576 + 768 * (deltas.len() as int) + (mu.len() as int),
        ) == mu,
{
    let t = transcript(com, deltas, i, t1, t2, mu);
    let n = deltas.len() as int;
    let d = polys_bytes(deltas);
    lemma_polys_bytes_layout(deltas);
    assert(t.subrange(0, 32) =~= com);
    assert forall|k: int| 0 <= k < n implies #[trigger] t.subrange(32 + 768 * k, 800 + 768 * k) == poly_bytes(deltas[k]) by {
        assert(t.subrange(32 + 768 * k, 800 + 768 * k) =~= d.subrange(768 * k, 768 * k + 768));
    }
    assert(t.subrange(32 + 768 * n, 40 + 768 * n) =~= u64_le(i));
    assert(t.subrange(40 + 768 * n, 808 + 768 * n) =~= poly_bytes(t1));
    assert(t.subrange(808 + 768 * n, 1576 + 768 * n) =~= poly_bytes(t2));
    assert(t.subrange(1576 + 768 * n, 1576 + 768 * n + (mu.len() as int)) =~= mu);
}

/// The transcript of `deltas.len()` polynomials and a nonce of `mu_len` bytes
/// fits in memory.
pub open spec fn transcript_fits(n_deltas: nat, mu_len: nat) -> bool {
    32 + 768 * n_deltas + 8 + 1536 + mu_len <= usize::MAX
}

/// `SampleInBall` from position `pos` of the stream `s`, with `k` positions
/// already set in `c`: read an index byte; if that coefficient is still 0,
/// read a sign byte and set it to `1` (even) or `q - 1` (odd); stop after
/// `tau` positions are set or when the stream is used up.
pub open spec fn ball_from(s: Seq<u8>, pos: nat, c: Seq<int>, k: nat) -> Seq<int>
    decreases s.len() - pos,
{
    if k >= TAU || pos >= s.len() {
        c
    } else {
        let idx = s[pos as int] as int;
        if c[idx] == 0 {
            if pos + 1 < s.len() {
                let v = if s[pos + 1int] & 1u8 == 0 {
                    1int
                } else {
                    Q - 1
                };
                ball_from(s, pos + 2, c.update(idx, v), k + 1)
            } else {
                c
            }
        } else {
            ball_from(s, pos + 1, c, k)
        }
    }
}

/// Whether `SampleInBall` from position `pos` (with `k` positions set in
/// `c`) sets all `tau` positions before the stream `s` runs out.
pub open spec fn ball_completes_from(s: Seq<u8>, pos: nat, c: Seq<int>, k: nat) -> bool
    decreases s.len() - pos,
{
    if k >= TAU {
        true
    } else if pos >= s.len() {
        false
    } else {
        let idx = s[pos as int] as int;
        if c[idx] == 0 {
            if pos + 1 < s.len() {
                let v = if s[pos + 1int] & 1u8 == 0 {
                    1int
                } else {
                    Q - 1
                };
                ball_completes_from(s, pos + 2, c.update(idx, v), k + 1)
            } else {
                false
            }
        } else {
            ball_completes_from(s, pos + 1, c, k)
        }
    }
}

/// Whether `SampleInBall` on the stream `s` sets all `tau` positions.
pub open spec fn ball_completes(s: Seq<u8>) -> bool {
    ball_completes_from(s, 0, poly_zero(), 0)
}

/// The challenge polynomial that `SampleInBall` draws from the stream `s`.
pub open spec fn ball(s: Seq<u8>) -> Seq<int> {
    ball_from(s, 0, poly_zero(), 0)
}

/// `SampleInBall` sets all `tau` positions within the first
/// `MAX_CHALLENGE_STREAM_BYTES` bytes of the SHAKE-256 stream of the
/// transcript.
pub open spec fn challenge_exists(com: Seq<u8>, deltas: Seq<Poly>, i: u64, t1: Poly, t2: Poly, mu: Seq<u8>) -> bool {
    ball_completes(spec_shake256(transcript(com, deltas, i, t1, t2, mu), MAX_CHALLENGE_STREAM_BYTES as nat))
}

/// The Fiat-Shamir challenge for the given transcript parts: `SampleInBall`
/// on the SHAKE-256 stream of the transcript. When it completes (see
/// [`challenge_exists`]), it reads only a prefix of the stream, so any
/// longer read of the stream gives the same challenge
/// ([`lemma_ball_extend`]).
pub open spec fn challenge_poly(com: Seq<u8>, deltas: Seq<Poly>, i: u64, t1: Poly, t2: Poly, mu: Seq<u8>) -> Seq<int> {
    ball(spec_shake256(transcript(com, deltas, i, t1, t2, mu), MAX_CHALLENGE_STREAM_BYTES as nat))
}

/// The number of nonzero entries among the first `n` of `c`.
pub open spec fn nonzero_count(c: Seq<int>, n: nat) -> nat
    decreases n,
{
    if n == 0 {
        0
    } else {
        nonzero_count(c, (n - 1) as nat) + if c[n - 1] != 0 {
            1nat
        } else {
            0nat
        }
    }
}

/// Every coefficient is `0`, `1` or `q - 1` (that is, `0` or `+-1`).
pub open spec fn ternary(c: Seq<int>) -> bool {
    &&& c.len() == 256
    &&& forall|j: int| 0 <= j < 256 ==> #[trigger] c[j] == 0 || c[j] == 1 || c[j] == Q - 1
}

/// Setting a zero entry to a nonzero value adds one to the count.
proof fn lemma_count_update(c: Seq<int>, idx: int, v: int, n: nat)
    requires
        0 <= idx < c.len(),
        n <= c.len(),
        c[idx] == 0,
        v != 0,
    ensures
        nonzero_count(c.update(idx, v), n) == nonzero_count(c, n) + if idx < n {
            1nat
        } else {
            0nat
        },
    decreases n,
{
    if n > 0 {
        lemma_count_update(c, idx, v, (n - 1) as nat);
    }
}

/// The count of nonzero entries of the zero polynomial is zero.
proof fn lemma_count_zero(n: nat)
    requires
        n <= 256,
    ensures
        nonzero_count(poly_zero(), n) == 0,
    decreases n,
{
    if n > 0 {
        lemma_count_zero((n - 1) as nat);
    }
}

/// The shape of `SampleInBall` output, step by step.
proof fn lemma_ball_from_shape(s: Seq<u8>, pos: nat, c: Seq<int>, k: nat)
    requires
        ternary(c),
        k <= TAU,
        nonzero_count(c, 256) == k,
    ensures
        ternary(ball_from(s, pos, c, k)),
        nonzero_count(ball_from(s, pos, c, k), 256) <= TAU,
        nonzero_count(ball_from(s, pos, c, k), 256) == TAU <==> ball_completes_from(s, pos, c, k),
    decreases s.len() - pos,
{
    if k >= TAU || pos >= s.len() {
    } else {
        let idx = s[pos as int] as int;
        if c[idx] == 0 {
            if pos + 1 < s.len() {
                let v = if s[pos + 1int] & 1u8 == 0 {
                    1int
                } else {
                    Q - 1
                };
                let c2 = c.update(idx, v);
                lemma_count_update(c, idx, v, 256);
                assert(ternary(c2));
                lemma_ball_from_shape(s, pos + 2, c2, k + 1);
            }
        } else {
            lemma_ball_from_shape(s, pos + 1, c, k);
        }
    }
}

/// Shape of every challenge: each coefficient is `0` or `+-1` (stored as `1`
/// and `q - 1`), so the polynomial is canonical; at most `tau` are nonzero,
/// and exactly `tau` unless the stream runs out first.
pub proof fn lemma_ball_shape(s: Seq<u8>)
    ensures
        ternary(ball(s)),
        canonical(ball(s)),
        nonzero_count(ball(s), 256) <= TAU,
        nonzero_count(ball(s), 256) == TAU <==> ball_completes(s),
{
    lemma_count_zero(256);
    assert(ternary(poly_zero()));
    lemma_ball_from_shape(s, 0, poly_zero(), 0);
}

proof fn lemma_ball_from_extend(s: Seq<u8>, s2: Seq<u8>, pos: nat, c: Seq<int>, k: nat)
    requires
        ball_completes_from(s, pos, c, k),
        s.len() <= s2.len(),
        s2.subrange(0, s.len() as int) == s,
    ensures
        ball_completes_from(s2, pos, c, k),
        ball_from(s2, pos, c, k) == ball_from(s, pos, c, k),
    decreases s.len() - pos,
{
    if k < TAU {
        assert(s2.subrange(0, s.len() as int)[pos as int] == s2[pos as int]);
        let idx = s[pos as int] as int;
        if c[idx] == 0 {
            assert(s2.subrange(0, s.len() as int)[pos + 1int] == s2[pos + 1int]);
            let v = if s[pos + 1int] & 1u8 == 0 {
                1int
            } else {
                Q - 1
            };
            lemma_ball_from_extend(s, s2, pos + 2, c.update(idx, v), k + 1);
        } else {
            lemma_ball_from_extend(s, s2, pos + 1, c, k);
        }
    }
}

/// `SampleInBall` reads only what it needs: once it completes on a stream,
/// it completes with the same challenge on every extension of that stream.
pub proof fn lemma_ball_extend(s: Seq<u8>, s2: Seq<u8>)
    requires
        ball_completes(s),
        s.len() <= s2.len(),
        s2.subrange(0, s.len() as int) == s,
    ensures
        ball_completes(s2),
        ball(s2) == ball(s),
{
    lemma_ball_from_extend(s, s2, 0, poly_zero(), 0);
}

/// A position that is already set keeps its value to the end.
proof fn lemma_ball_from_keeps(s: Seq<u8>, pos: nat, c: Seq<int>, k: nat, j: int)
    requires
        c.len() == 256,
        0 <= j < 256,
        c[j] != 0,
    ensures
        ball_from(s, pos, c, k)[j] == c[j],
    decreases s.len() - pos,
{
    if k < TAU && pos < s.len() {
        let idx = s[pos as int] as int;
        if c[idx] == 0 {
            if pos + 1 < s.len() {
                let v = if s[pos + 1int] & 1u8 == 0 {
                    1int
                } else {
                    Q - 1
                };
                lemma_ball_from_keeps(s, pos + 2, c.update(idx, v), k + 1, j);
            }
        } else {
            lemma_ball_from_keeps(s, pos + 1, c, k, j);
        }
    }
}

/// The sign of a set coefficient comes from its sign byte alone, whatever the
/// index: the position named by the first byte of the stream gets `+1` if the
/// second byte is even and `-1` (that is, `q - 1`) if it is odd, and so does
/// the position named by the third byte, with the fourth byte, when it
/// differs from the first.
pub proof fn lemma_ball_signs(s: Seq<u8>)
    requires
        s.len() >= 2,
    ensures
        ball(s)[s[0] as int] == if s[1] % 2 == 0 {
            1int
        } else {
            Q - 1
        },
        s.len() >= 4 && s[2] != s[0] ==> ball(s)[s[2] as int] == if s[3] % 2 == 0 {
            1int
        } else {
            Q - 1
        },
{
    let b1 = s[1];
    let b3 = s[3];
    assert((b1 & 1u8 == 0) == (b1 % 2 == 0) && (b3 & 1u8 == 0) == (b3 % 2 == 0)) by (bit_vector);
    let i0 = s[0] as int;
    let v0 = if s[1] & 1u8 == 0 {
        1int
    } else {
        Q - 1
    };
    let c1 = poly_zero().update(i0, v0);
    assert(ball(s) == ball_from(s, 2, c1, 1));
    lemma_ball_from_keeps(s, 2, c1, 1, i0);
    if s.len() >= 4 && s[2] != s[0] {
        let i2 = s[2] as int;
        let v2 = if s[3] & 1u8 == 0 {
            1int
        } else {
            Q - 1
        };
        assert(c1[i2] == 0);
        let c2 = c1.update(i2, v2);
        assert(ball_from(s, 2, c1, 1) == ball_from(s, 4, c2, 2));
        lemma_ball_from_keeps(s, 4, c2, 2, i2);
    }
}

/// Draw the challenge from the byte stream `stream` with `SampleInBall`
/// (Dilithium): pick up to `tau` distinct positions, each with a sign.
/// `None` if the stream runs out before `tau` positions are set.
pub fn sample_in_ball(stream: &[u8]) -> (r: Option<Poly>)
    ensures
        r is Some <==> ball_completes(stream@),
        r matches Some(c) ==> c@ == ball(stream@) && c.wf() && ternary(c@) && nonzero_count(c@, 256) == TAU,
{
    let ghost s = stream@;
    let mut out = Poly::zero();
    let mut pos: usize = 0;
    let mut k: usize = 0;
    let len = stream.len();
    while k < TAU && pos < len
        invariant
            s == stream@,
            len == s.len(),
            pos <= len,
            k <= TAU,
            ball_from(s, pos as nat, out@, k as nat) == ball(s),
            ball_completes_from(s, pos as nat, out@, k as nat) == ball_completes(s),
        decreases len - pos,
    {
        // A byte is already an index in `[0, m)`.
        let idx = stream[pos] as usize;
        if out.coeffs[idx] == 0 {
            if pos + 1 < len {
                let v: i64 = if stream[pos + 1] & 1 == 0 {
                    1
                } else {
                    Q - 1
                };
                let ghost before = out@;
                out.coeffs[idx] = v;
                proof {
                    assert(out@ =~= before.update(idx as int, v as int));
                }
                k = k + 1;
                pos = pos + 2;
            } else {
                pos = len;
            }
        } else {
            pos = pos + 1;
        }
    }
    proof {
        lemma_ball_shape(s);
        assert(out@ == ball(s));
        assert forall|j: int| 0 <= j < 256 implies 0 <= #[trigger] out.coeffs[j] < Q by {
            assert(out@[j] == out.coeffs[j]);
        }
    }
    if k >= TAU {
        Some(out)
    } else {
        None
    }
}

/// Appends `other` to `v`.
fn append(v: &mut Vec<u8>, other: &[u8])
    ensures
        final(v)@ == old(v)@ + other@,
{
    v.extend_from_slice(other);
}

/// Appends the 8 little-endian bytes of `x` to `out`.
fn push_u64_le(out: &mut Vec<u8>, x: u64)
    ensures
        final(out)@ == old(out)@ + u64_le(x),
{
    let mut k: u64 = 0;
    let ghost head = out@;
    while k < 8
        invariant
            k <= 8,
            out@ == head + u64_le(x).subrange(0, k as int),
        decreases 8 - k,
    {
        let byte = ((x >> (8 * k)) & 0xff) as u8;
        out.push(byte);
        proof {
            assert(out@ =~= head + u64_le(x).subrange(0, k + 1));
        }
        k = k + 1;
    }
    assert(u64_le(x).subrange(0, 8) =~= u64_le(x));
}

/// Build the Fiat-Shamir transcript (see [`transcript`]).
pub fn challenge_transcript(
    com: &[u8; 32],
    deltas: &[Poly],
    i: usize,
    t1: &Poly,
    t2: &Poly,
    mu: &[u8],
) -> (r: Vec<u8>)
    requires
        transcript_fits(deltas@.len(), mu@.len()),
    ensures
        r@ == transcript(com@, deltas@, i as u64, *t1, *t2, mu@),
{
    let mut out: Vec<u8> = Vec::new();
    append(&mut out, com.as_slice());
    let mut j: usize = 0;
    while j < deltas.len()
        invariant
            j <= deltas@.len(),
            out@ == com@ + polys_bytes(deltas@.subrange(0, j as int)),
        decreases deltas@.len() - j,
    {
        let bytes = deltas[j].to_bytes();
        append(&mut out, bytes.as_slice());
        proof {
            let sub = deltas@.subrange(0, j + 1);
            assert(sub.drop_last() =~= deltas@.subrange(0, j as int));
            assert(sub.last() == deltas@[j as int]);
        }
        j = j + 1;
    }
    assert(deltas@.subrange(0, deltas@.len() as int) =~= deltas@);
    push_u64_le(&mut out, i as u64);
    let b1 = t1.to_bytes();
    append(&mut out, b1.as_slice());
    let b2 = t2.to_bytes();
    append(&mut out, b2.as_slice());
    append(&mut out, mu);
    proof {
        assert(out@ =~= transcript(com@, deltas@, i as u64, *t1, *t2, mu@));
    }
    out
}

/// Hash-to-challenge: maps the transcript
/// `com || serialize(Delta_1..Delta_L) || i || serialize(t1) || serialize(t2) || mu`
/// through SHAKE-256 to a sparse `+-1` polynomial with exactly `tau` nonzero
/// coefficients (Dilithium `SampleInBall`), stored as `1` and `q - 1`.
///
/// The stream is read as far as `SampleInBall` needs, up to
/// `MAX_CHALLENGE_STREAM_BYTES`; `None` if even that is not enough.
pub fn hash_to_challenge(
    com: &[u8; 32],
    deltas: &[Poly],
    i: usize,
    t1: &Poly,
    t2: &Poly,
    mu: &[u8],
) -> (r: Option<Poly>)
    requires
        transcript_fits(deltas@.len(), mu@.len()),
    ensures
        r is Some <==> challenge_exists(com@, deltas@, i as u64, *t1, *t2, mu@),
        r matches Some(c) ==> {
            &&& c@ == challenge_poly(com@, deltas@, i as u64, *t1, *t2, mu@)
            &&& c.wf()
            &&& ternary(c@)
            &&& nonzero_count(c@, 256) == TAU
        },
{
    let t = challenge_transcript(com, deltas, i, t1, t2, mu);
    let ghost tv = t@;
    let mut n: usize = CHALLENGE_STREAM_BYTES;
    let ghost mut rem: nat = 16;
    proof {
        vstd::arithmetic::power2::lemma2_to64();
    }
    loop
        invariant
            tv == t@,
            tv == transcript(com@, deltas@, i as u64, *t1, *t2, mu@),
            n * vstd::arithmetic::power2::pow2(rem) == MAX_CHALLENGE_STREAM_BYTES,
            1 <= n <= MAX_CHALLENGE_STREAM_BYTES,
        decreases rem,
    {
        let stream = shake256(t.as_slice(), n);
        let ghost big = spec_shake256(tv, MAX_CHALLENGE_STREAM_BYTES as nat);
        match sample_in_ball(stream.as_slice()) {
            Some(c) => {
                proof {
                    assert(big.subrange(0, n as int) == stream@);
                    lemma_ball_extend(stream@, big);
                }
                return Some(c);
            },
            None => {
                if n >= MAX_CHALLENGE_STREAM_BYTES {
                    proof {
                        assert(big == stream@.subrange(0, n as int));
                        assert(stream@.subrange(0, n as int) =~= stream@);
                    }
                    return None;
                }
                proof {
                    let p = vstd::arithmetic::power2::pow2(rem);
                    if rem == 0 {
                        assert(p == 1) by {
                            vstd::arithmetic::power2::lemma2_to64();
                        }
                    }
                    vstd::arithmetic::power2::lemma_pow2_unfold(rem);
                    let p2 = vstd::arithmetic::power2::pow2((rem - 1) as nat);
                    vstd::arithmetic::power2::lemma_pow2_pos((rem - 1) as nat);
                    assert((2 * n) * p2 == MAX_CHALLENGE_STREAM_BYTES && 2 * n <= MAX_CHALLENGE_STREAM_BYTES) by (nonlinear_arith)
                        requires
                            n * p == MAX_CHALLENGE_STREAM_BYTES,
                            p == 2 * p2,
                            p2 >= 1,
                    ;
                    rem = (rem - 1) as nat;
                }
                n = n * 2;
            },
        }
    }
}

/// The concatenated hash bytes have 32 bytes per hash, hash `k` at
/// `32k..32k+32`.
proof fn lemma_hashes_bytes(hs: Seq<[u8; 32]>)
    ensures
        hashes_bytes(hs).len() == 32 * hs.len(),
        forall|k: int|
            0 <= k < hs.len() ==> #[trigger] hashes_bytes(hs).subrange(32 * k, 32 * k + 32) == hs[k]@,
    decreases hs.len(),
{
    if hs.len() > 0 {
        let init = hs.drop_last();
        lemma_hashes_bytes(init);
        let all = hashes_bytes(hs);
        assert forall|k: int| 0 <= k < hs.len() implies #[trigger] all.subrange(32 * k, 32 * k + 32) == hs[k]@ by {
            if k < hs.len() - 1 {
                assert(all.subrange(32 * k, 32 * k + 32) =~= hashes_bytes(init).subrange(32 * k, 32 * k + 32));
            } else {
                assert(all.subrange(32 * k, 32 * k + 32) =~= hs.last()@);
            }
        }
    }
}

/// Decoding the 8 little-endian bytes of `x` gives back `x`.
proof fn lemma_u64_le_round_trip(x: u64)
    ensures
        le_u64(u64_le(x)) == x,
{
    let b = u64_le(x);
    let b0 = b[0];
    let b1 = b[1];
    let b2 = b[2];
    let b3 = b[3];
    let b4 = b[4];
    let b5 = b[5];
    let b6 = b[6];
    let b7 = b[7];
    assert(b0 == ((x >> 0u64) & 0xffu64) as u8);
    assert(b1 == ((x >> 8u64) & 0xffu64) as u8);
    assert(b2 == ((x >> 16u64) & 0xffu64) as u8);
    assert(b3 == ((x >> 24u64) & 0xffu64) as u8);
    assert(b4 == ((x >> 32u64) & 0xffu64) as u8);
    assert(b5 == ((x >> 40u64) & 0xffu64) as u8);
    assert(b6 == ((x >> 48u64) & 0xffu64) as u8);
    assert(b7 == ((x >> 56u64) & 0xffu64) as u8);
    assert((b0 as u64) | ((b1 as u64) << 8u64) | ((b2 as u64) << 16u64) | ((b3 as u64) << 24u64) | ((b4 as u64)
        << 32u64) | ((b5 as u64) << 40u64) | ((b6 as u64) << 48u64) | ((b7 as u64) << 56u64) == x) by (bit_vector)
        requires
            b0 == ((x >> 0u64) & 0xffu64) as u8,
            b1 == ((x >> 8u64) & 0xffu64) as u8,
            b2 == ((x >> 16u64) & 0xffu64) as u8,
            b3 == ((x >> 24u64) & 0xffu64) as u8,
            b4 == ((x >> 32u64) & 0xffu64) as u8,
            b5 == ((x >> 40u64) & 0xffu64) as u8,
            b6 == ((x >> 48u64) & 0xffu64) as u8,
            b7 == ((x >> 56u64) & 0xffu64) as u8,
    ;
}

/// Serialization round trip: the bytes of a proof with canonical polynomials
/// and at most 32 siblings are decodable, and every proof decoded from them
/// has the same polynomials, index and sibling hashes.
pub proof fn lemma_proof_bytes_round_trip(p: Proof, q: Proof)
    requires
        p.z.wf(),
        p.u_i.wf(),
        p.t1.wf(),
        p.t2.wf(),
        p.path.siblings@.len() <= 32,
    ensures
        proof_decodable(proof_bytes(p)),
        decodes_to(proof_bytes(p), p),
        decodes_to(proof_bytes(p), q) ==> {
            &&& q.z == p.z
            &&& q.u_i == p.u_i
            &&& q.t1 == p.t1
            &&& q.t2 == p.t2
            &&& q.path.index == p.path.index
            &&& hash_views(q.path.siblings@) == hash_views(p.path.siblings@)
        },
{
    let b = proof_bytes(p);
    let hs = p.path.siblings@;
    lemma_hashes_bytes(hs);
    lemma_bytes_round_trip(p.z);
    lemma_bytes_round_trip(p.u_i);
    lemma_bytes_round_trip(p.t1);
    lemma_bytes_round_trip(p.t2);
    lemma_u64_le_round_trip(p.path.index as u64);
    assert(b.subrange(0, 768) =~= poly_bytes(p.z));
    assert(b.subrange(768, 1536) =~= poly_bytes(p.u_i));
    assert(b.subrange(1536, 2304) =~= poly_bytes(p.t1));
    assert(b.subrange(2304, 3072) =~= poly_bytes(p.t2));
    assert(b.subrange(3072, 3080) =~= u64_le(p.path.index as u64));
    assert(decoded(poly_bytes(p.z)) =~= p.z@);
    assert(decoded(poly_bytes(p.u_i)) =~= p.u_i@);
    assert(decoded(poly_bytes(p.t1)) =~= p.t1@);
    assert(decoded(poly_bytes(p.t2)) =~= p.t2@);
    assert forall|k: int| 0 <= k < hs.len() implies #[trigger] b.subrange(3081 + 32 * k, 3113 + 32 * k) == hs[k]@ by {
        assert(b.subrange(3081 + 32 * k, 3113 + 32 * k) =~= hashes_bytes(hs).subrange(32 * k, 32 * k + 32));
    }
    assert(decodes_to(b, p));
    if decodes_to(b, q) {
        lemma_poly_ext(q.z, p.z);
        lemma_poly_ext(q.u_i, p.u_i);
        lemma_poly_ext(q.t1, p.t1);
        lemma_poly_ext(q.t2, p.t2);
        assert(hash_views(q.path.siblings@) =~= hash_views(p.path.siblings@)) by {
            assert forall|k: int| 0 <= k < hs.len() implies #[trigger] q.path.siblings@[k]@ == hs[k]@ by {
                assert(q.path.siblings@[k]@ == b.subrange(3081 + 32 * k, 3113 + 32 * k));
            }
        }
    }
}

/// Where each field sits in the serialization of a proof: `z` in bytes
/// `0..768`, `u_i` in `768..1536`, `t1` in `1536..2304`, `t2` in
/// `2304..3072`, the index (8 bytes, little-endian) in `3072..3080`, the
/// sibling count at `3080`, and sibling `k` in `3081 + 32k .. 3113 + 32k`.
pub proof fn lemma_proof_layout(p: Proof)
    ensures
        proof_bytes(p).len() == 3081 + 32 * p.path.siblings@.len(),
        proof_bytes(p).subrange(0, 768) == poly_bytes(p.z),
        proof_bytes(p).subrange(768, 1536) == poly_bytes(p.u_i),
        proof_bytes(p).subrange(1536, 2304) == poly_bytes(p.t1),
        proof_bytes(p).subrange(2304, 3072) == poly_bytes(p.t2),
        proof_bytes(p).subrange(3072, 3080) == Seq::new(8, |k: int| ((p.path.index as u64 >> ((8 * k) as u64)) & 0xffu64) as u8),
        proof_bytes(p)[3080] == p.path.siblings@.len() as u8,
        forall|k: int|
            0 <= k < p.path.siblings@.len() ==> #[trigger] proof_bytes(p).subrange(3081 + 32 * k, 3113 + 32 * k)
                == p.path.siblings@[k]@,
{
    let b = proof_bytes(p);
    let hs = p.path.siblings@;
    lemma_hashes_bytes(hs);
    assert(b.subrange(0, 768) =~= poly_bytes(p.z));
    assert(b.subrange(768, 1536) =~= poly_bytes(p.u_i));
    assert(b.subrange(1536, 2304) =~= poly_bytes(p.t1));
    assert(b.subrange(2304, 3072) =~= poly_bytes(p.t2));
    assert(b.subrange(3072, 3080) =~= u64_le(p.path.index as u64));
    assert forall|k: int| 0 <= k < hs.len() implies #[trigger] b.subrange(3081 + 32 * k, 3113 + 32 * k) == hs[k]@ by {
        assert(b.subrange(3081 + 32 * k, 3113 + 32 * k) =~= hashes_bytes(hs).subrange(32 * k, 32 * k + 32));
    }
}

/// A polynomial decoded from 768 bytes serializes back to exactly those
/// bytes.
pub proof fn lemma_decoded_reencodes(b: Seq<u8>, q: Poly)
    requires
        b.len() == 768,
        q@ == decoded(b),
    ensures
        poly_bytes(q) == b,
{
    assert forall|t: int| 0 <= t < 768 implies #[trigger] poly_bytes(q)[t] == b[t] by {
        let i = t / 3;
        let j = t % 3;
        assert(q@[i] == q.coeffs[i]);
        let c = q.coeffs[i];
        let b0 = b[3 * i];
        let b1 = b[3 * i + 1];
        let b2 = b[3 * i + 2];
        assert(c == b0 + 256 * b1 + 65536 * b2);
        assert((c as u64 & 0xff) as u8 == b0 && ((c as u64 >> 8u64) & 0xff) as u8 == b1 && ((c as u64
            >> 16u64) & 0xff) as u8 == b2) by (bit_vector)
            requires
                c == b0 as i64 + 256 * (b1 as i64) + 65536 * (b2 as i64),
        ;
        assert(t == 3 * i + j);
    }
    assert(poly_bytes(q) =~= b);
}

/// Where `from_bytes` reads each field: a decoded proof's polynomials
/// serialize back to bytes `0..768` (`z`), `768..1536` (`u_i`),
/// `1536..2304` (`t1`) and `2304..3072` (`t2`) of the input, and sibling `k`
/// is bytes `3081 + 32k .. 3113 + 32k`.
pub proof fn lemma_decoded_layout(b: Seq<u8>, p: Proof)
    requires
        proof_decodable(b),
        decodes_to(b, p),
    ensures
        poly_bytes(p.z) == b.subrange(0, 768),
        poly_bytes(p.u_i) == b.subrange(768, 1536),
        poly_bytes(p.t1) == b.subrange(1536, 2304),
        poly_bytes(p.t2) == b.subrange(2304, 3072),
        p.path.siblings@.len() == b[3080],
        forall|k: int|
            0 <= k < p.path.siblings@.len() ==> #[trigger] p.path.siblings@[k]@ == b.subrange(
                3081 + 32 * k,
                3113 + 32 * k,
            ),
{
    lemma_decoded_reencodes(b.subrange(0, 768), p.z);
    lemma_decoded_reencodes(b.subrange(768, 1536), p.u_i);
    lemma_decoded_reencodes(b.subrange(1536, 2304), p.t1);
    lemma_decoded_reencodes(b.subrange(2304, 3072), p.t2);
}

impl Proof {
    /// Compact binary serialization (see [`proof_bytes`]): `3081 + 32 * n`
    /// bytes for `n` siblings.
    pub fn to_bytes(&self) -> (r: Vec<u8>)
        requires
            self.path.siblings@.len() <= 32,
        ensures
            r@ == proof_bytes(*self),
            r@.len() == 3081 + 32 * self.path.siblings@.len(),
    {
        let n = self.path.siblings.len();
        let mut out: Vec<u8> = Vec::with_capacity(4 * POLY_BYTES + 8 + 1 + 32 * n);
        let bz = self.z.to_bytes();
        append(&mut out, bz.as_slice());
        let bu = self.u_i.to_bytes();
        append(&mut out, bu.as_slice());
        let b1 = self.t1.to_bytes();
        append(&mut out, b1.as_slice());
        let b2 = self.t2.to_bytes();
        append(&mut out, b2.as_slice());
        push_u64_le(&mut out, self.path.index as u64);
        out.push(n as u8);
        let ghost head = out@;
        let mut k: usize = 0;
        while k < n
            invariant
                n == self.path.siblings@.len(),
                k <= n,
                out@ == head + hashes_bytes(self.path.siblings@.subrange(0, k as int)),
            decreases n - k,
        {
            let sib = self.path.siblings[k];
            append(&mut out, sib.as_slice());
            proof {
                let sub = self.path.siblings@.subrange(0, k + 1);
                assert(sub.drop_last() =~= self.path.siblings@.subrange(0, k as int));
                assert(sub.last() == sib);
            }
            k = k + 1;
        }
        proof {
            assert(self.path.siblings@.subrange(0, n as int) =~= self.path.siblings@);
            assert(out@ =~= proof_bytes(*self));
            lemma_hashes_bytes(self.path.siblings@);
        }
        out
    }

    /// Deserialize from [`Proof::to_bytes`] output; `None` if the input is
    /// malformed (see [`proof_decodable`]).
    pub fn from_bytes(b: &[u8]) -> (r: Option<Self>)
        ensures
            r is Some <==> proof_decodable(b@),
            r matches Some(p) ==> decodes_to(b@, p),
    {
        if b.len() < 4 * POLY_BYTES + 9 {
            return None;
        }
        let z = match Poly::from_bytes(&b[0..POLY_BYTES]) {
            Some(p) => p,
            None => return None,
        };
        let u_i = match Poly::from_bytes(&b[POLY_BYTES..2 * POLY_BYTES]) {
            Some(p) => p,
            None => return None,
        };
        let t1 = match Poly::from_bytes(&b[2 * POLY_BYTES..3 * POLY_BYTES]) {
            Some(p) => p,
            None => return None,
        };
        let t2 = match Poly::from_bytes(&b[3 * POLY_BYTES..4 * POLY_BYTES]) {
            Some(p) => p,
            None => return None,
        };
        let o: usize = 4 * POLY_BYTES;
        let index: u64 = (b[o] as u64) | ((b[o + 1] as u64) << 8) | ((b[o + 2] as u64) << 16) | ((b[o + 3] as u64)
            << 24) | ((b[o + 4] as u64) << 32) | ((b[o + 5] as u64) << 40) | ((b[o + 6] as u64) << 48) | ((b[o
            + 7] as u64) << 56);
        proof {
            let w = b@.subrange(3072, 3080);
            assert(w[0] == b@[3072] && w[1] == b@[3073] && w[2] == b@[3074] && w[3] == b@[3075]);
            assert(w[4] == b@[3076] && w[5] == b@[3077] && w[6] == b@[3078] && w[7] == b@[3079]);
        }
        let n_siblings = b[4 * POLY_BYTES + 8] as usize;
        if n_siblings > 32 {
            return None;
        }
        let siblings_start: usize = 4 * POLY_BYTES + 9;
        let siblings_end = siblings_start + 32 * n_siblings;
        if b.len() != siblings_end {
            return None;
        }
        let blen = b.len();
        let mut siblings: Vec<[u8; 32]> = Vec::with_capacity(n_siblings);
        let mut k: usize = 0;
        while k < n_siblings
            invariant
                n_siblings <= 32,
                siblings_start == 3081,
                blen == b@.len(),
                b@.len() == 3081 + 32 * n_siblings,
                k <= n_siblings,
                siblings@.len() == k,
                forall|t: int|
                    0 <= t < k ==> #[trigger] siblings@[t]@ == b@.subrange(3081 + 32 * t, 3113 + 32 * t),
            decreases n_siblings - k,
        {
            let sib_start = siblings_start + 32 * k;
            let mut sib = [0u8; 32];
            let mut j: usize = 0;
            while j < 32
                invariant
                    sib_start == 3081 + 32 * k,
                    blen == b@.len(),
                    sib_start + 32 <= b@.len(),
                    j <= 32,
                    forall|t: int| 0 <= t < j ==> #[trigger] sib@[t] == b@[sib_start + t],
                decreases 32 - j,
            {
                sib[j] = b[sib_start + j];
                j = j + 1;
            }
            proof {
                assert(sib@ =~= b@.subrange(3081 + 32 * k, 3113 + 32 * k));
            }
            siblings.push(sib);
            k = k + 1;
        }
        proof {
            assert(b@.subrange(0, 768) == b@.subrange(0, 768));
            assert(z@ =~= decoded(b@.subrange(0, 768)));
            assert(u_i@ =~= decoded(b@.subrange(768, 1536)));
            assert(t1@ =~= decoded(b@.subrange(1536, 2304)));
            assert(t2@ =~= decoded(b@.subrange(2304, 3072)));
        }
        Some(Proof { z, u_i, t1, t2, path: MerklePath { index: index as usize, siblings } })
    }
}


/// `proof` and `c_d` are what one attempt of `Prove` for the 1-based step
/// `i` returns on the committer state `aux` with masking polynomial `r`:
/// `t1 = a * r`, `t2 = b * r`, the challenge `c` hashed from the commitment,
/// the projections, `i`, `t1`, `t2` and `mu`, `c_d = c * d_i`, the response
/// `z = r + c * d_i`, the leaf commitment `u_i` and its authentication path.
pub open spec fn is_attempt(
    pp: PublicParams,
    aux: Aux,
    i: int,
    mu: Seq<u8>,
    r: Seq<int>,
    proof: Proof,
    c_d: Seq<int>,
) -> bool {
    let d = aux.d_vec@[i - 1];
    let c = challenge_poly(aux.tree.root_view(), aux.deltas@, i as u64, proof.t1, proof.t2, mu);
    &&& proof.t1.wf()
    &&& proof.t2.wf()
    &&& proof.z.wf()
    &&& proof.t1@ == poly_mul(pp.a@, r)
    &&& proof.t2@ == poly_mul(pp.b_elem@, r)
    &&& c_d == poly_mul(c, d@)
    &&& proof.z@ == poly_add(r, c_d)
    &&& proof.u_i == aux.u_vec@[i - 1]
    &&& proof.path.index == i - 1
    &&& hash_views(proof.path.siblings@) == aux.tree.path_of(i - 1)
    &&& challenge_exists(aux.tree.root_view(), aux.deltas@, i as u64, proof.t1, proof.t2, mu)
}

/// One attempt of `CPC.Prove` for the 1-based step index `i` (so `d_i` is
/// `aux.d_vec[i - 1]`) and verifier nonce `mu`, with masking polynomial `r`:
/// computes `t1 = a * r`, `t2 = b * r`, the Fiat-Shamir challenge
/// `c = H(com, deltas, i, t1, t2, mu)` and `z = r + c * d_i`, and returns the
/// proof together with `c * d_i` (which the rejection step compares against).
/// `None` if the challenge does not exist (see [`hash_to_challenge`]).
pub fn prove_attempt(pp: &PublicParams, aux: &Aux, i: usize, mu: &[u8], r: &Poly) -> (res: Option<(Proof, Poly)>)
    requires
        pp.wf(),
        1 <= i <= aux.d_vec@.len(),
        i <= aux.u_vec@.len(),
        aux.d_vec@[i - 1].wf(),
        aux.tree.wf(),
        i <= aux.tree.spec_leaf_count(),
        r.wf(),
        transcript_fits(aux.deltas@.len(), mu@.len()),
    ensures
        res is Some <==> challenge_exists(
            aux.tree.root_view(),
            aux.deltas@,
            i as u64,
            poly_of(poly_mul(pp.a@, r@)),
            poly_of(poly_mul(pp.b_elem@, r@)),
            mu@,
        ),
        res matches Some(x) ==> {
            &&& is_attempt(*pp, *aux, i as int, mu@, r@, x.0, x.1@)
            &&& x.1.wf()
            &&& x.0.path.siblings@.len() <= 30
        },
{
    let d = &aux.d_vec[i - 1];
    let u_i = Poly { coeffs: aux.u_vec[i - 1].coeffs };
    let com = aux.tree.root();
    let t1 = mul_polys(&pp.a, r);
    let t2 = mul_polys(&pp.b_elem, r);
    let c = match hash_to_challenge(&com, aux.deltas.as_slice(), i, &t1, &t2, mu) {
        Some(c) => c,
        None => return None,
    };
    let c_d = mul_polys(&c, d);
    let z = add_polys(r, &c_d);
    let path = aux.tree.generate_path(i - 1);
    proof {
        assert(u_i.coeffs =~= aux.u_vec@[i - 1].coeffs);
    }
    Some((Proof { z, u_i, t1, t2, path }, c_d))
}


/// The rejection step compares the response `z` with `z - c * d_i`, which
/// is exactly the mask `r` of the attempt.
pub proof fn lemma_attempt_unmasks(
    pp: PublicParams,
    aux: Aux,
    i: int,
    mu: Seq<u8>,
    r: Seq<int>,
    proof: Proof,
    c_d: Seq<int>,
)
    requires
        canonical(r),
        is_attempt(pp, aux, i, mu, r, proof, c_d),
    ensures
        poly_sub(proof.z@, c_d) == r,
{
    lemma_add_sub_cancel(r, c_d);
}


/// The opened leaf and its path are fixed by the committer state and the
/// index: two attempts for step `i`, whatever their masks and nonces, reveal
/// the same `u_i` with the same index and authentication path.
pub proof fn lemma_attempt_opening_fixed(
    pp: PublicParams,
    aux: Aux,
    i: int,
    mu1: Seq<u8>,
    r1: Seq<int>,
    p1: Proof,
    c_d1: Seq<int>,
    mu2: Seq<u8>,
    r2: Seq<int>,
    p2: Proof,
    c_d2: Seq<int>,
)
    requires
        is_attempt(pp, aux, i, mu1, r1, p1, c_d1),
        is_attempt(pp, aux, i, mu2, r2, p2, c_d2),
    ensures
        p1.u_i == p2.u_i,
        p1.path.index == p2.path.index,
        hash_views(p1.path.siblings@) == hash_views(p2.path.siblings@),
{
}

} // verus!
