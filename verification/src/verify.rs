//! `CPC.Verify`: checks the response norm bound, recomputes the Fiat-Shamir
//! challenge, checks the two Sigma-protocol equations and the Merkle
//! authentication path of the revealed leaf commitment.
use vstd::prelude::*;
use crate::commitment::Aux;
use crate::merkle::{climb, hash_views, lemma_merkle_path_complete, leaf_hash, verify_path};
use crate::params::PublicParams;
use crate::prove::{
    challenge_poly, decodes_to, hash_to_challenge, is_attempt, lemma_ball_shape, lemma_proof_bytes_round_trip, proof_bytes,
    transcript, transcript_fits, challenge_exists, Proof, MAX_CHALLENGE_STREAM_BYTES,
};
use crate::hashing::spec_shake256;
use crate::ring::{add_polys, mul_polys, norm_sq, poly_bytes, Poly};
use crate::ring_laws::{lemma_mul_distrib, lemma_mul_left_comm};
use crate::ring_spec::{canonical, poly_add, poly_mul};

verus! {

/// `||z||_2 <= b`, compared on squares.
///
/// For integer `b` and the integer squared norm this is exactly the
/// comparison of the real `l2` norm with `b`.
pub open spec fn response_within(z: Seq<int>, b: i64) -> bool {
    b >= 0 && norm_sq(z) <= b * b
}

/// The two Sigma-protocol equations `a * z == t1 + c * Delta_i` and
/// `b * z == t2 + c * u_i`.
pub open spec fn sigma_holds(pp: PublicParams, c: Seq<int>, delta: Seq<int>, proof: Proof) -> bool {
    &&& poly_mul(pp.a@, proof.z@) == poly_add(proof.t1@, poly_mul(c, delta))
    &&& poly_mul(pp.b_elem@, proof.z@) == poly_add(proof.t2@, poly_mul(c, proof.u_i@))
}

/// The polynomials `Verify` computes with have coefficients in `[0, q)`, the
/// invariant of [`Poly`]: the public elements, the four polynomials of the
/// proof and the projection `Delta_i` of the opened step.
pub open spec fn inputs_canonical(pp: PublicParams, deltas: Seq<Poly>, i: int, proof: Proof) -> bool {
    &&& pp.wf()
    &&& proof.z.wf()
    &&& proof.u_i.wf()
    &&& proof.t1.wf()
    &&& proof.t2.wf()
    &&& (1 <= i <= deltas.len() ==> deltas[i - 1].wf())
}

/// What `Verify` accepts: the inputs are canonical, the response is within
/// `B`, `1 <= i <= L`, the challenge exists and the equations hold for it,
/// and the Merkle path leads from the hash of the serialized `u_i` to `com`.
pub open spec fn accepts(
    pp: PublicParams,
    com: Seq<u8>,
    deltas: Seq<Poly>,
    i: int,
    proof: Proof,
    mu: Seq<u8>,
) -> bool {
    &&& inputs_canonical(pp, deltas, i, proof)
    &&& response_within(proof.z@, pp.b)
    &&& 1 <= i <= deltas.len()
    &&& challenge_exists(com, deltas, i as u64, proof.t1, proof.t2, mu)
    &&& sigma_holds(pp, challenge_poly(com, deltas, i as u64, proof.t1, proof.t2, mu), deltas[i - 1]@, proof)
    &&& climb(leaf_hash(poly_bytes(proof.u_i)), proof.path.index as nat, hash_views(proof.path.siblings@)) == com
}

/// Whether two polynomials have the same coefficients.
fn same_coeffs(x: &Poly, y: &Poly) -> (r: bool)
    ensures
        r == (x@ == y@),
{
    let mut k: usize = 0;
    while k < crate::params::M
        invariant
            k <= 256,
            forall|t: int| 0 <= t < k ==> #[trigger] x.coeffs[t] == y.coeffs[t],
        decreases 256 - k,
    {
        if x.coeffs[k] != y.coeffs[k] {
            proof {
                assert(x@[k as int] != y@[k as int]);
            }
            return false;
        }
        k = k + 1;
    }
    assert(x@ =~= y@);
    true
}

/// Run `CPC.Verify` for the 1-based step index `i`: `deltas` is the
/// published sequence `Delta_j = a * d_j`, `mu` the verifier's nonce (the one
/// used in `Prove`). Returns `true` iff `||z||_2 <= B`, `1 <= i <= L`,
/// `a * z == t1 + c * Delta_i` and `b * z == t2 + c * u_i` for the challenge
/// `c = H(com, deltas, i, t1, t2, mu)` (`false` where that challenge does not
/// exist, see [`hash_to_challenge`]), and the Merkle path for `u_i` is valid
/// under `com`. A polynomial with a coefficient outside `[0, q)` is rejected.
pub fn verify(
    pp: &PublicParams,
    com: &[u8; 32],
    deltas: &[Poly],
    i: usize,
    proof: &Proof,
    mu: &[u8],
) -> (r: bool)
    requires
        transcript_fits(deltas@.len(), mu@.len()),
    ensures
        r == accepts(*pp, com@, deltas@, i as int, *proof, mu@),
{
    // 0. Every polynomial computed with is canonical.
    if !pp.a.is_canonical() || !pp.b_elem.is_canonical() || !proof.z.is_canonical() || !proof.u_i.is_canonical()
        || !proof.t1.is_canonical() || !proof.t2.is_canonical() {
        return false;
    }
    if 1 <= i && i <= deltas.len() && !deltas[i - 1].is_canonical() {
        return false;
    }
    // 1. Response norm bound.
    let n = proof.z.norm_l2_squared();
    let b = pp.b as i128;
    proof {
        assert(b * b <= 0x4000_0000_0000_0000_0000_0000_0000_0000) by (nonlinear_arith)
            requires
                -0x8000_0000_0000_0000 <= b <= 0x7fff_ffff_ffff_ffff,
        ;
    }
    if pp.b < 0 || (n as i128) > b * b {
        return false;
    }
    // 2. Index bounds.
    if i < 1 || i > deltas.len() {
        return false;
    }
    let delta_i = &deltas[i - 1];
    let u_i = &proof.u_i;
    // 3. Recompute the Fiat-Shamir challenge from the `t1, t2` in the proof.
    let c = match hash_to_challenge(com, deltas, i, &proof.t1, &proof.t2, mu) {
        Some(c) => c,
        None => return false,
    };
    // 4. The two Sigma-protocol equations.
    let az = mul_polys(&pp.a, &proof.z);
    let bz = mul_polys(&pp.b_elem, &proof.z);
    let c_delta = mul_polys(&c, delta_i);
    let c_u = mul_polys(&c, u_i);
    let lhs1 = add_polys(&proof.t1, &c_delta);
    let lhs2 = add_polys(&proof.t2, &c_u);
    if !same_coeffs(&az, &lhs1) {
        return false;
    }
    if !same_coeffs(&bz, &lhs2) {
        return false;
    }
    // 5. Merkle authentication path for `u_i` under `com`.
    let leaf = u_i.to_bytes();
    verify_path(com, leaf.as_slice(), &proof.path)
}

/// Completeness: an attempt of `Prove` (see [`is_attempt`]) on the state
/// that `commit` left under `pp` is accepted by `Verify` under the commitment
/// (the tree root) and the published projections exactly when its response
/// is within the bound `B`; the other checks always pass for it.
pub proof fn lemma_completeness(
    pp: PublicParams,
    aux: Aux,
    i: int,
    mu: Seq<u8>,
    r: Seq<int>,
    proof: Proof,
    c_d: Seq<int>,
)
    requires
        pp.wf(),
        aux.wf(pp),
        1 <= i <= aux.d_vec@.len(),
        canonical(r),
        is_attempt(pp, aux, i, mu, r, proof, c_d),
    ensures
        accepts(pp, aux.tree.root_view(), aux.deltas@, i, proof, mu) <==> response_within(proof.z@, pp.b),
{
    let com = aux.tree.root_view();
    let d = aux.d_vec@[i - 1]@;
    let a = pp.a@;
    let b = pp.b_elem@;
    let c = challenge_poly(com, aux.deltas@, i as u64, proof.t1, proof.t2, mu);
    pp.a.lemma_wf_canonical();
    pp.b_elem.lemma_wf_canonical();
    aux.d_vec@[i - 1].lemma_wf_canonical();
    lemma_ball_shape(
        spec_shake256(transcript(com, aux.deltas@, i as u64, proof.t1, proof.t2, mu), MAX_CHALLENGE_STREAM_BYTES as nat),
    );
    crate::ring::lemma_poly_mul_canonical(c, d);
    // a * (r + c * d) == a * r + c * (a * d) == t1 + c * Delta_i
    lemma_mul_distrib(a, r, poly_mul(c, d));
    lemma_mul_left_comm(a, c, d);
    // b * (r + c * d) == b * r + c * (b * d) == t2 + c * u_i
    lemma_mul_distrib(b, r, poly_mul(c, d));
    lemma_mul_left_comm(b, c, d);
    assert(sigma_holds(pp, c, aux.deltas@[i - 1]@, proof));
    // The path from the revealed leaf reaches the root.
    lemma_merkle_path_complete(&aux.tree, i - 1);
}

/// `Verify` accepts a proof read back by [`Proof::from_bytes`] from the
/// bytes of `p` exactly when it accepts `p`.
pub proof fn lemma_bytes_keep_acceptance(
    pp: PublicParams,
    com: Seq<u8>,
    deltas: Seq<Poly>,
    i: int,
    mu: Seq<u8>,
    p: Proof,
    q: Proof,
)
    requires
        p.z.wf(),
        p.u_i.wf(),
        p.t1.wf(),
        p.t2.wf(),
        p.path.siblings@.len() <= 32,
        decodes_to(proof_bytes(p), q),
    ensures
        accepts(pp, com, deltas, i, q, mu) == accepts(pp, com, deltas, i, p, mu),
{
    lemma_proof_bytes_round_trip(p, q);
}


/// Soundness of what `Verify` accepts: the opened leaf is in the committed
/// tree (climbing from `H(0x00 || bytes(u_i))` with the proof's index and
/// siblings reaches `com`), the response is within `B`, the index is in
/// `1..=L`, and both Sigma-protocol equations hold for the challenge of the
/// transcript.
pub proof fn lemma_accepted_is_sound(
    pp: PublicParams,
    com: Seq<u8>,
    deltas: Seq<Poly>,
    i: int,
    proof: Proof,
    mu: Seq<u8>,
)
    requires
        accepts(pp, com, deltas, i, proof, mu),
    ensures
        climb(
            crate::hashing::spec_sha3_256(seq![0u8] + poly_bytes(proof.u_i)),
            proof.path.index as nat,
            proof.path.siblings@.map_values(|h: [u8; 32]| h@),
        ) == com,
        pp.b >= 0,
        norm_sq(proof.z@) <= pp.b * pp.b,
        1 <= i <= deltas.len(),
        challenge_exists(com, deltas, i as u64, proof.t1, proof.t2, mu),
        poly_mul(pp.a@, proof.z@) == poly_add(
            proof.t1@,
            poly_mul(challenge_poly(com, deltas, i as u64, proof.t1, proof.t2, mu), deltas[i - 1]@),
        ),
        poly_mul(pp.b_elem@, proof.z@) == poly_add(
            proof.t2@,
            poly_mul(challenge_poly(com, deltas, i as u64, proof.t1, proof.t2, mu), proof.u_i@),
        ),
{
}

} // verus!
