//! CPC parameter set and `Setup`.
//!
//! Security target: 128-bit (Ring-SIS core-SVP cost).
use vstd::prelude::*;
use crate::hashing::{shake256, spec_shake256};
use crate::ring::{decode_coeff, Poly};

verus! {

/// Ring dimension `m = 256`.
pub const M: usize = 256;

/// Modulus `q = 8380417` (NTT-friendly prime, `q = 1 mod 512`).
pub const Q: i64 = 8380417;

/// Challenge polynomial weight `tau = 60`.
pub const TAU: usize = 60;

/// Step `l2` bound `beta = 45`.
pub const BETA: i64 = 45;

/// Gaussian parameter `sigma = 12 * tau * beta = 32400` (an integer, so it is
/// kept as one; the sampler that uses it as a real number lives outside the
/// verified library).
pub const SIGMA: i64 = 32400;

/// Response truncation bound `B = 1.2 * sigma * sqrt(m) = 622080`.
pub const B: i64 = 622080;

/// Example maximum path length `L = 1024`.
pub const MAX_PATH_LEN: usize = 1024;

/// Knowledge-soundness extraction norm bound `4 * tau * m * B = 38220595200`.
pub const EXTRACT_NORM_BOUND: i64 = 38220595200;

/// Number of SHAKE-256 output bytes first drawn when expanding a seed into a
/// polynomial: 2048 candidate 3-byte values. About 1538 bytes are needed on
/// average, and fewer than 256 of the 2048 candidates fall below `q` with
/// probability below `2^-700`; then the stream is read further (twice as far
/// each time).
pub const UNIFORM_STREAM_BYTES: usize = 6144;

/// The furthest the SHAKE-256 stream is read for one polynomial (48 MiB): the
/// memory bound of the stream buffer.
pub const MAX_UNIFORM_STREAM_BYTES: usize = 50331648;

/// Public parameters produced by `Setup`: the scalar parameters together with
/// the public ring elements `a, b`.
#[derive(Clone, Debug)]
pub struct PublicParams {
    /// Ring dimension.
    pub m: usize,
    /// Modulus.
    pub q: i64,
    /// Challenge weight.
    pub tau: usize,
    /// Step `l2` bound.
    pub beta: i64,
    /// Gaussian width.
    pub sigma: i64,
    /// Response `l2` bound.
    pub b: i64,
    /// Maximum supported path length.
    pub max_path_len: usize,
    /// Public projection ring element `a` (uniform in `R`).
    pub a: Poly,
    /// Hiding commitment ring element `b` (uniform in `R`).
    pub b_elem: Poly,
}

impl PublicParams {
    /// Both public ring elements have canonical coefficients.
    pub open spec fn wf(&self) -> bool {
        self.a.wf() && self.b_elem.wf()
    }
}

/// The values below `q` among the first `n` 3-byte little-endian candidates
/// of `s`, in stream order.
pub open spec fn accepted_values(s: Seq<u8>, n: nat) -> Seq<int>
    decreases n,
{
    if n == 0 {
        Seq::empty()
    } else {
        let prev = accepted_values(s, (n - 1) as nat);
        let v = decode_coeff(s, n - 1);
        if v < Q {
            prev.push(v)
        } else {
            prev
        }
    }
}

/// The stream `s` holds at least 256 candidates below `q`.
pub open spec fn uniform_complete(s: Seq<u8>) -> bool {
    accepted_values(s, s.len() / 3).len() >= 256
}

/// Rejection sampling of a polynomial from the byte stream `s`: coefficient
/// `i` is the `i`-th 3-byte candidate below `q` (meaningful when
/// [`uniform_complete`] holds).
pub open spec fn uniform_coeffs(s: Seq<u8>) -> Seq<int> {
    let acc = accepted_values(s, s.len() / 3);
    Seq::new(256, |i: int| acc[i])
}

/// The domain separator for `a`: the ASCII bytes of `cpc-public-params-a/`.
pub open spec fn domain_a() -> Seq<u8> {
    seq![99u8, 112, 99, 45, 112, 117, 98, 108, 105, 99, 45, 112, 97, 114, 97, 109, 115, 45, 97, 47]
}

/// The domain separator for `b`: the ASCII bytes of `cpc-public-params-b/`.
pub open spec fn domain_b() -> Seq<u8> {
    seq![99u8, 112, 99, 45, 112, 117, 98, 108, 105, 99, 45, 112, 97, 114, 97, 109, 115, 45, 98, 47]
}

/// The SHAKE-256 stream of `prefix || seed` holds 256 candidates below `q`
/// within its first `MAX_UNIFORM_STREAM_BYTES` bytes.
pub open spec fn expansion_exists(prefix: Seq<u8>, seed: Seq<u8>) -> bool {
    uniform_complete(spec_shake256(prefix + seed, MAX_UNIFORM_STREAM_BYTES as nat))
}

/// The polynomial that `Setup` expands from `seed` under domain separator
/// `prefix`: the first 256 candidates below `q` of the SHAKE-256 stream of
/// `prefix || seed`. A longer read of the stream gives the same polynomial
/// ([`lemma_uniform_extend`]).
pub open spec fn expanded_poly(prefix: Seq<u8>, seed: Seq<u8>) -> Seq<int> {
    uniform_coeffs(spec_shake256(prefix + seed, MAX_UNIFORM_STREAM_BYTES as nat))
}

/// The accepted candidates among the first `t` only depend on the first `3t`
/// bytes.
proof fn lemma_accepted_extend(s: Seq<u8>, s2: Seq<u8>, t: nat)
    requires
        3 * t <= s.len() <= s2.len(),
        s2.subrange(0, s.len() as int) == s,
    ensures
        accepted_values(s2, t) == accepted_values(s, t),
    decreases t,
{
    if t > 0 {
        lemma_accepted_extend(s, s2, (t - 1) as nat);
        let k = t - 1;
        assert(s2.subrange(0, s.len() as int)[3 * k] == s2[3 * k]);
        assert(s2.subrange(0, s.len() as int)[3 * k + 1] == s2[3 * k + 1]);
        assert(s2.subrange(0, s.len() as int)[3 * k + 2] == s2[3 * k + 2]);
    }
}

/// Rejection sampling reads only what it needs: once a stream holds 256
/// candidates below `q`, every extension of it gives the same polynomial.
pub proof fn lemma_uniform_extend(s: Seq<u8>, s2: Seq<u8>)
    requires
        uniform_complete(s),
        s.len() <= s2.len(),
        s2.subrange(0, s.len() as int) == s,
    ensures
        uniform_complete(s2),
        uniform_coeffs(s2) == uniform_coeffs(s),
{
    let t = s.len() / 3;
    assert(3 * t <= s.len());
    lemma_accepted_extend(s, s2, t);
    lemma_accepted_prefix(s2, t, s2.len() / 3);
    assert(uniform_coeffs(s2) =~= uniform_coeffs(s));
}

/// Setup reads, for every domain separator, the SHAKE-256 stream of the
/// separator followed by the seed, and samples it the same way.
pub proof fn lemma_expansion_stream(prefix: Seq<u8>, seed: Seq<u8>)
    ensures
        expanded_poly(prefix, seed) == uniform_coeffs(spec_shake256(prefix + seed, MAX_UNIFORM_STREAM_BYTES as nat)),
        expansion_exists(prefix, seed) == uniform_complete(
            spec_shake256(prefix + seed, MAX_UNIFORM_STREAM_BYTES as nat),
        ),
{
}

/// The accepted values of a stream are its first value (when below `q`)
/// followed by the accepted values of the rest of the stream.
proof fn lemma_accepted_shift(s: Seq<u8>, t: nat)
    requires
        t >= 1,
        3 * t <= s.len(),
    ensures
        accepted_values(s, t) == if s[0] + 256 * s[1] + 65536 * s[2] < Q {
            seq![s[0] + 256 * s[1] + 65536 * s[2]] + accepted_values(s.subrange(3, s.len() as int), (t - 1) as nat)
        } else {
            accepted_values(s.subrange(3, s.len() as int), (t - 1) as nat)
        },
    decreases t,
{
    let r = s.subrange(3, s.len() as int);
    if t == 1 {
        assert(accepted_values(s, 0) =~= Seq::<int>::empty());
        assert(seq![s[0] + 256 * s[1] + 65536 * s[2]] =~= Seq::<int>::empty().push(decode_coeff(s, 0)));
    } else {
        lemma_accepted_shift(s, (t - 1) as nat);
        let k = t - 2;
        assert(r[3 * k] == s[3 * k + 3]);
        assert(r[3 * k + 1] == s[3 * k + 4]);
        assert(r[3 * k + 2] == s[3 * k + 5]);
        assert(decode_coeff(r, k) == decode_coeff(s, t - 1));
        if s[0] + 256 * s[1] + 65536 * s[2] < Q {
            let v = s[0] + 256 * s[1] + 65536 * s[2];
            let prev = accepted_values(r, (t - 2) as nat);
            assert((seq![v] + prev).push(decode_coeff(s, t - 1)) =~= seq![v] + prev.push(decode_coeff(s, t - 1)));
        }
    }
}

/// Coefficient 0 of the sampled polynomial is the first 3-byte
/// little-endian value of the stream when that value is below `q`.
pub proof fn lemma_uniform_first(s: Seq<u8>)
    requires
        s.len() >= 3,
        s[0] + 256 * s[1] + 65536 * s[2] < Q,
        uniform_complete(s),
    ensures
        uniform_coeffs(s)[0] == s[0] + 256 * s[1] + 65536 * s[2],
{
    lemma_accepted_shift(s, s.len() / 3);
}

/// A first 3-byte value at or above `q` is skipped: the stream samples as
/// the stream without its first three bytes.
pub proof fn lemma_uniform_skip(s: Seq<u8>)
    requires
        s.len() >= 3,
        s[0] + 256 * s[1] + 65536 * s[2] >= Q,
    ensures
        uniform_complete(s) == uniform_complete(s.subrange(3, s.len() as int)),
        uniform_coeffs(s) == uniform_coeffs(s.subrange(3, s.len() as int)),
{
    lemma_accepted_shift(s, s.len() / 3);
    let r = s.subrange(3, s.len() as int);
    assert(r.len() / 3 == s.len() / 3 - 1);
    assert(uniform_coeffs(s) =~= uniform_coeffs(r));
}

/// Accepting more candidates only extends the accepted sequence.
proof fn lemma_accepted_prefix(s: Seq<u8>, t: nat, n: nat)
    requires
        t <= n,
    ensures
        accepted_values(s, t).len() <= accepted_values(s, n).len(),
        forall|j: int|
            0 <= j < accepted_values(s, t).len() ==> #[trigger] accepted_values(s, t)[j]
                == accepted_values(s, n)[j],
    decreases n,
{
    if t < n {
        lemma_accepted_prefix(s, t, (n - 1) as nat);
    }
}

/// Every accepted value is below `q`.
proof fn lemma_accepted_range(s: Seq<u8>, n: nat)
    ensures
        forall|j: int|
            0 <= j < accepted_values(s, n).len() ==> 0 <= #[trigger] accepted_values(s, n)[j] < Q,
    decreases n,
{
    if n > 0 {
        lemma_accepted_range(s, (n - 1) as nat);
        let v = decode_coeff(s, n - 1);
        assert(v >= 0);
        let prev = accepted_values(s, (n - 1) as nat);
        assert forall|j: int| 0 <= j < accepted_values(s, n).len() implies 0
            <= #[trigger] accepted_values(s, n)[j] < Q by {
            if j < prev.len() {
                assert(accepted_values(s, n)[j] == prev[j]);
            }
        }
    }
}

/// Rejection-sample a polynomial from the byte stream `stream`: read 3-byte
/// little-endian candidates in order and keep those below `q` until 256 are
/// kept; `None` if the stream holds fewer than 256 of them.
pub fn poly_from_uniform_stream(stream: &[u8]) -> (r: Option<Poly>)
    ensures
        r is Some <==> uniform_complete(stream@),
        r matches Some(p) ==> p.wf() && p@ == uniform_coeffs(stream@),
{
    let ghost s = stream@;
    let len_b = stream.len();
    let n_triples = len_b / 3;
    let mut coeffs = [0i64; M];
    let mut filled: usize = 0;
    let mut t: usize = 0;
    while filled < M && t < n_triples
        invariant
            s == stream@,
            len_b == s.len(),
            n_triples == s.len() / 3,
            t <= n_triples,
            filled <= 256,
            filled == accepted_values(s, t as nat).len(),
            forall|j: int| 0 <= j < filled ==> #[trigger] coeffs[j] == accepted_values(s, t as nat)[j],
            forall|j: int| filled <= j < 256 ==> #[trigger] coeffs[j] == 0,
        decreases n_triples - t,
    {
        proof {
            let len = s.len() as int;
            let ti = t as int;
            assert(3 * ti + 3 <= len) by (nonlinear_arith)
                requires
                    ti < len / 3,
                    len >= 0,
            ;
            assert(3 * t + 3 <= stream@.len());
        }
        let b0 = stream[3 * t] as u64;
        let b1 = stream[3 * t + 1] as u64;
        let b2 = stream[3 * t + 2] as u64;
        let val: u64 = b0 | (b1 << 8) | (b2 << 16);
        proof {
            assert(val == b0 + 256 * b1 + 65536 * b2) by (bit_vector)
                requires
                    b0 < 256,
                    b1 < 256,
                    b2 < 256,
                    val == b0 | (b1 << 8u64) | (b2 << 16u64),
            ;
            assert(decode_coeff(s, t as int) == val);
        }
        if val < Q as u64 {
            coeffs[filled] = val as i64;
            filled = filled + 1;
        }
        t = t + 1;
    }
    let r = Poly { coeffs };
    proof {
        let acc = accepted_values(s, t as nat);
        let all = accepted_values(s, n_triples as nat);
        lemma_accepted_prefix(s, t as nat, n_triples as nat);
        lemma_accepted_range(s, t as nat);
        if filled < 256 {
            assert(t == n_triples);
        }
        if filled == 256 {
            assert forall|j: int| 0 <= j < 256 implies #[trigger] r@[j] == uniform_coeffs(s)[j] by {
                assert(coeffs[j] == acc[j]);
                assert(acc[j] == all[j]);
            }
            assert(r@ =~= uniform_coeffs(s));
        }
        assert forall|j: int| 0 <= j < 256 implies 0 <= #[trigger] r.coeffs[j] < Q by {
            if j < filled {
                assert(coeffs[j] == acc[j]);
            }
        }
    }
    if filled == M {
        Some(r)
    } else {
        None
    }
}

/// Sample a polynomial in `R` from `seed` with SHAKE-256 under domain
/// separator `prefix`: rejection sampling on 3-byte values of the stream
/// `SHAKE-256(prefix || seed)`, so that each coefficient is uniform in `[0, q)`.
///
/// The stream is read as far as needed, up to `MAX_UNIFORM_STREAM_BYTES`;
/// `None` if even that is not enough.
fn sample_poly_uniform(seed: &[u8], prefix: &[u8]) -> (r: Option<Poly>)
    requires
        prefix@.len() + seed@.len() <= usize::MAX,
    ensures
        r is Some <==> expansion_exists(prefix@, seed@),
        r matches Some(p) ==> p.wf() && p@ == expanded_poly(prefix@, seed@),
{
    let mut input: Vec<u8> = Vec::new();
    input.extend_from_slice(prefix);
    input.extend_from_slice(seed);
    assert(input@ =~= prefix@ + seed@);
    let mut n: usize = UNIFORM_STREAM_BYTES;
    let ghost mut rem: nat = 13;
    proof {
        vstd::arithmetic::power2::lemma2_to64();
    }
    loop
        invariant
            input@ == prefix@ + seed@,
            n * vstd::arithmetic::power2::pow2(rem) == MAX_UNIFORM_STREAM_BYTES,
            1 <= n <= MAX_UNIFORM_STREAM_BYTES,
        decreases rem,
    {
        let stream = shake256(input.as_slice(), n);
        let ghost big = spec_shake256(input@, MAX_UNIFORM_STREAM_BYTES as nat);
        match poly_from_uniform_stream(stream.as_slice()) {
            Some(p) => {
                proof {
                    assert(big.subrange(0, n as int) == stream@);
                    lemma_uniform_extend(stream@, big);
                }
                return Some(p);
            },
            None => {
                if n >= MAX_UNIFORM_STREAM_BYTES {
                    proof {
                        assert(big == stream@.subrange(0, n as int));
                        assert(stream@.subrange(0, n as int) =~= stream@);
                    }
                    return None;
                }
                proof {
                    let p = vstd::arithmetic::power2::pow2(rem);
                    if rem == 0 {
                        assert(p == 1) by {
                            vstd::arithmetic::power2::lemma2_to64();
                        }
                    }
                    vstd::arithmetic::power2::lemma_pow2_unfold(rem);
                    let p2 = vstd::arithmetic::power2::pow2((rem - 1) as nat);
                    vstd::arithmetic::power2::lemma_pow2_pos((rem - 1) as nat);
                    assert((2 * n) * p2 == MAX_UNIFORM_STREAM_BYTES && 2 * n <= MAX_UNIFORM_STREAM_BYTES) by (nonlinear_arith)
                        requires
                            n * p == MAX_UNIFORM_STREAM_BYTES,
                            p == 2 * p2,
                            p2 >= 1,
                    ;
                    rem = (rem - 1) as nat;
                }
                n = n * 2;
            },
        }
    }
}

impl PublicParams {
    /// Build the default parameter set, sampling `a, b` deterministically
    /// from `seed` via SHAKE-256 expansion in `R`, under the two domain
    /// separators `cpc-public-params-a/` and `cpc-public-params-b/`.
    ///
    /// `None` if a stream does not hold 256 values below `q` within its first
    /// `MAX_UNIFORM_STREAM_BYTES` bytes.
    pub fn setup(seed: &[u8]) -> (res: Option<Self>)
        requires
            seed@.len() + 20 <= usize::MAX,
        ensures
            res is Some <==> expansion_exists(domain_a(), seed@) && expansion_exists(domain_b(), seed@),
            res matches Some(r) ==> {
                &&& r.wf()
                &&& r.m == M
                &&& r.q == Q
                &&& r.tau == TAU
                &&& r.beta == BETA
                &&& r.sigma == SIGMA
                &&& r.b == B
                &&& r.max_path_len == MAX_PATH_LEN
                &&& r.a@ == expanded_poly(domain_a(), seed@)
                &&& r.b_elem@ == expanded_poly(domain_b(), seed@)
            },
    {
        let prefix_a: Vec<u8> = vec![
            99u8, 112, 99, 45, 112, 117, 98, 108, 105, 99, 45, 112, 97, 114, 97, 109, 115, 45, 97, 47,
        ];
        let prefix_b: Vec<u8> = vec![
            99u8, 112, 99, 45, 112, 117, 98, 108, 105, 99, 45, 112, 97, 114, 97, 109, 115, 45, 98, 47,
        ];
        assert(prefix_a@ == domain_a());
        assert(prefix_b@ == domain_b());
        let a = sample_poly_uniform(seed, prefix_a.as_slice());
        let b_elem = sample_poly_uniform(seed, prefix_b.as_slice());
        let (a, b_elem) = match (a, b_elem) {
            (Some(a), Some(b_elem)) => (a, b_elem),
            _ => return None,
        };
        Some(PublicParams {
            m: M,
            q: Q,
            tau: TAU,
            beta: BETA,
            sigma: SIGMA,
            b: B,
            max_path_len: MAX_PATH_LEN,
            a,
            b_elem,
        })
    }
}

} // verus!
