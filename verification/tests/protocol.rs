//! End-to-end tests of Setup, Commit, Prove and Verify, of the Fiat-Shamir
//! challenge and of proof serialization.
//!
//! `Prove`'s Gaussian mask and real-valued rejection test are drawn here the
//! way the application does it, around the library's `prove_attempt`.

use std::sync::OnceLock;

use cpc::commitment::{check_commit_input, commit, Aux};
use cpc::gauss::{gauss_coeff_from_draw, gauss_poly_from_draws, GAUSS_TAIL};
use cpc::params::{poly_from_uniform_stream, PublicParams, B, BETA, M, Q, SIGMA, TAU, UNIFORM_STREAM_BYTES};
use cpc::prove::{
    challenge_transcript, hash_to_challenge, prove_attempt, sample_in_ball, Proof, CHALLENGE_STREAM_BYTES,
    MAX_REJECT_ITERATIONS,
};
use cpc::ring::Poly;
use cpc::verify::verify;
use rand::{Rng, RngCore};
use sha3::digest::{ExtendableOutput, Update, XofReader};
use sha3::Shake256;

/// The cumulative distribution table of the discrete Gaussian with width
/// `SIGMA`, truncated at `6 * SIGMA`, scaled to `[0, u64::MAX]`.
fn cdt() -> &'static [u64] {
    static TABLE: OnceLock<Vec<u64>> = OnceLock::new();
    TABLE.get_or_init(|| {
        let sigma = SIGMA as f64;
        let tail = (6.0 * sigma).ceil() as usize;
        let two_sigma_sq = 2.0 * sigma * sigma;
        let mut cum: f64 = 0.0;
        let mut raw: Vec<f64> = Vec::with_capacity(tail + 2);
        raw.push(0.0);
        for x in 0..=tail {
            let p = (-(x as f64).powi(2) / two_sigma_sq).exp();
            cum += p;
            raw.push(cum);
        }
        let z = *raw.last().unwrap();
        let scale = u64::MAX as f64;
        raw.iter().map(|&v| ((v / z) * scale).round() as u64).collect()
    })
}

/// The smallest `i < GAUSS_TAIL` with `table[i + 1] >= u`, or `GAUSS_TAIL`
/// (a binary search: the table is nondecreasing).
fn table_search(table: &[u64], u: u64) -> i64 {
    let (mut lo, mut hi) = (0usize, GAUSS_TAIL);
    while lo < hi {
        let mid = (lo + hi) / 2;
        if table[mid + 1] >= u {
            hi = mid;
        } else {
            lo = mid + 1;
        }
    }
    lo as i64
}

/// The Gaussian coefficient for the draw `u` and sign byte `s`, by search.
fn coeff_by_search(table: &[u64], u: u64, s: u8) -> i64 {
    let mag = table_search(table, u);
    let signed = if s & 1 == 1 { -mag } else { mag };
    if signed < 0 { signed + Q } else { signed }
}

/// 8 uniform bytes and one sign byte per coefficient.
fn draw<R: RngCore>(rng: &mut R) -> (Vec<u64>, Vec<u8>) {
    let mut draws = Vec::with_capacity(M);
    let mut signs = Vec::with_capacity(M);
    let mut u_buf = [0u8; 8];
    let mut sign_buf = [0u8; 1];
    for _ in 0..M {
        rng.fill_bytes(&mut u_buf);
        draws.push(u64::from_le_bytes(u_buf));
        rng.fill_bytes(&mut sign_buf);
        signs.push(sign_buf[0]);
    }
    (draws, signs)
}

/// A Gaussian masking polynomial (the table lookup by binary search, which
/// selects the same coefficients as the library's constant-time scan).
fn sample_gauss_poly<R: RngCore>(rng: &mut R) -> Poly {
    let (draws, signs) = draw(rng);
    let table = cdt();
    let mut p = Poly::zero();
    for k in 0..M {
        p.coeffs[k] = coeff_by_search(table, draws[k], signs[k]);
    }
    p
}

/// Squared norm of the centered coefficients, as a real number.
fn centered_norm_sq(p: &Poly) -> f64 {
    p.norm_l2_squared() as f64
}

/// `Prove` with Fiat-Shamir-with-aborts, returning the proof and the number
/// of attempts.
fn prove_with_iteration_count(pp: &PublicParams, aux: &Aux, i: usize, mu: &[u8]) -> (Proof, usize) {
    assert!(i >= 1 && i <= aux.d_vec.len(), "prove: index out of range");
    let t_bound = (pp.beta as f64) * (pp.m as f64).sqrt();
    let tau_ratio = pp.sigma as f64 / t_bound;
    let log_m = 12.0 / tau_ratio + 1.0 / (2.0 * tau_ratio * tau_ratio);
    let sigma = pp.sigma as f64;
    let mut rng = rand::thread_rng();
    for iter in 0..MAX_REJECT_ITERATIONS {
        let r = sample_gauss_poly(&mut rng);
        let (proof, c_d) = prove_attempt(pp, aux, i, mu, &r).expect("challenge stream exhausted");
        let z_minus_cd = &proof.z - &c_d;
        let log_rho = -std::f64::consts::PI * (centered_norm_sq(&proof.z) - centered_norm_sq(&z_minus_cd))
            / (sigma * sigma)
            - log_m;
        let rho = log_rho.min(0.0).exp();
        let u: f64 = rng.gen_range(0.0..1.0);
        if u <= rho {
            return (proof, iter + 1);
        }
    }
    panic!("prove: rejection sampling exceeded {} iterations", MAX_REJECT_ITERATIONS);
}

fn prove(pp: &PublicParams, aux: &Aux, i: usize, mu: &[u8]) -> Proof {
    prove_with_iteration_count(pp, aux, i, mu).0
}

/// `v_0 = 0`, each step `d_i` the unit vector `e_{(i-1) mod 256}`.
fn build_test_path(l: usize) -> Vec<Poly> {
    let mut path = vec![Poly::zero()];
    let mut current = Poly::zero();
    for i in 0..l {
        let mut step = Poly::zero();
        step.coeffs[i % 256] = 1;
        current = &current + &step;
        path.push(current.clone());
    }
    path
}

fn norm_l2(p: &Poly) -> f64 {
    (p.norm_l2_squared() as f64).sqrt()
}

#[test]
fn public_params_setup() {
    let pp = PublicParams::setup(b"test-seed-12345").unwrap();
    assert_eq!(pp.m, M);
    assert_eq!(pp.q, Q);
    // determinism: same seed -> same a, b
    let pp2 = PublicParams::setup(b"test-seed-12345").unwrap();
    assert_eq!(pp.a.coeffs, pp2.a.coeffs);
    assert_eq!(pp.b_elem.coeffs, pp2.b_elem.coeffs);
    // different seed -> (almost certainly) different
    let pp3 = PublicParams::setup(b"different-seed").unwrap();
    assert_ne!(pp.a.coeffs, pp3.a.coeffs);
}

#[test]
fn challenge_sample_in_ball() {
    let com = [0u8; 32];
    let deltas = vec![Poly::zero()];
    let t1 = Poly::zero();
    let t2 = Poly::zero();
    let c = hash_to_challenge(&com, &deltas, 1, &t1, &t2, b"mu").unwrap();

    let nonzero: usize = c.coeffs.iter().filter(|&&x| x != 0).count();
    assert_eq!(nonzero, TAU, "challenge must have exactly tau nonzeros");

    for &x in &c.coeffs {
        let centered = if x > Q / 2 { x - Q } else { x };
        assert!(centered == 0 || centered == 1 || centered == -1, "coeff out of {{-1,0,1}}: {centered}");
    }

    let c2 = hash_to_challenge(&com, &deltas, 1, &t1, &t2, b"mu").unwrap();
    assert_eq!(c.coeffs, c2.coeffs);
}

#[test]
fn commit_returns_distinct_roots_for_distinct_paths() {
    let pp = PublicParams::setup(b"commit-test").unwrap();
    let v0 = Poly::from_coefficients(&[1; 8]);
    let v1 = Poly::from_coefficients(&[2; 8]);
    let path_a = vec![v0.clone(), v1.clone()];
    let path_b = vec![v0, Poly::from_coefficients(&[3; 8])];

    let (com_a, aux_a) = commit(&pp, &path_a);
    let (com_b, _aux_b) = commit(&pp, &path_b);
    assert_ne!(com_a, com_b, "distinct paths must yield distinct commitments");

    assert_eq!(aux_a.d_vec.len(), 1);
    assert_eq!(aux_a.u_vec.len(), 1);
    assert_eq!(aux_a.deltas.len(), 1);

    assert!(norm_l2(&aux_a.d_vec[0]) <= BETA as f64);
}

#[test]
fn end_to_end_l8_all_indices() {
    let pp = PublicParams::setup(b"integration-l8").unwrap();
    let path = build_test_path(8);
    let (com, aux) = commit(&pp, &path);
    assert_eq!(aux.d_vec.len(), 8);
    assert_eq!(aux.deltas.len(), 8);

    let mu = b"integration-test-nonce";
    for i in 1..=8 {
        let proof = prove(&pp, &aux, i, mu);
        assert!(verify(&pp, &com, &aux.deltas, i, &proof, mu), "proof for index {i} must verify");
    }
}

#[test]
fn end_to_end_l1024_random_index() {
    let pp = PublicParams::setup(b"integration-l1024").unwrap();
    let path = build_test_path(1024);
    let (com, aux) = commit(&pp, &path);
    assert_eq!(aux.d_vec.len(), 1024);

    let mu = b"integration-test-nonce";
    let i = 512;
    let proof = prove(&pp, &aux, i, mu);
    assert!(verify(&pp, &com, &aux.deltas, i, &proof, mu), "proof for index {i} (L=1024) must verify");

    let i = 1024;
    let proof = prove(&pp, &aux, i, mu);
    assert!(verify(&pp, &com, &aux.deltas, i, &proof, mu), "proof for index {i} (L=1024) must verify");
}

#[test]
fn prove_completes_within_iteration_budget() {
    let pp = PublicParams::setup(b"integration-budget").unwrap();
    let mu = b"budget-test-nonce";
    let n = 100;
    for trial in 0..n {
        let mut step = Poly::zero();
        step.coeffs[(trial as usize) % 256] = 1;
        let v0 = Poly::zero();
        let v1 = &v0 + &step;
        let path = vec![v0, v1];

        let (com, aux) = commit(&pp, &path);
        let proof = prove(&pp, &aux, 1, mu);
        assert!(verify(&pp, &com, &aux.deltas, 1, &proof, mu), "trial {trial}: proof must verify");
    }
}

#[test]
fn proof_size_at_l1024() {
    let pp = PublicParams::setup(b"size-test").unwrap();
    let path = build_test_path(1024);
    let (_com, aux) = commit(&pp, &path);

    let proof = prove(&pp, &aux, 512, b"mu");

    let z_bytes = proof.z.to_bytes().len();
    let u_bytes = proof.u_i.to_bytes().len();
    let t1_bytes = proof.t1.to_bytes().len();
    let t2_bytes = proof.t2.to_bytes().len();
    let path_bytes = std::mem::size_of_val(&proof.path.index) + proof.path.siblings.len() * 32;
    let total = z_bytes + u_bytes + t1_bytes + t2_bytes + path_bytes;

    println!("total   : {total} bytes (~{:.2} KB)", total as f64 / 1024.0);

    assert_eq!(z_bytes, 3 * M);
    assert_eq!(u_bytes, 3 * M);
    assert_eq!(t1_bytes, 3 * M);
    assert_eq!(t2_bytes, 3 * M);
    assert_eq!(proof.path.siblings.len(), 10);
    assert_eq!(total, 4 * 3 * M + 10 * 32 + std::mem::size_of::<usize>());
    assert!((3200..=3500).contains(&total), "proof size {total} not in expected ~3.3 KB range");
}

#[test]
fn tampered_leaf_rejected() {
    let pp = PublicParams::setup(b"security-test-tamper").unwrap();
    let path = build_test_path(4);
    let (com, aux) = commit(&pp, &path);
    let mu = b"context-nonce";

    let proof = prove(&pp, &aux, 2, mu);
    assert!(verify(&pp, &com, &aux.deltas, 2, &proof, mu), "baseline must verify");

    let mut tampered = proof.clone();
    tampered.u_i.coeffs[0] = (tampered.u_i.coeffs[0] + 1) % Q;
    assert!(!verify(&pp, &com, &aux.deltas, 2, &tampered, mu), "tampered u_i must be rejected");
}

#[test]
fn wrong_index_rejected() {
    let pp = PublicParams::setup(b"security-test-wrong-index").unwrap();
    let path = build_test_path(4);
    let (com, aux) = commit(&pp, &path);
    let mu = b"context-nonce";

    let proof = prove(&pp, &aux, 2, mu);
    assert!(verify(&pp, &com, &aux.deltas, 2, &proof, mu), "baseline must verify");
    assert!(!verify(&pp, &com, &aux.deltas, 3, &proof, mu), "proof for i=2 must not verify at j=3");
    assert!(!verify(&pp, &com, &aux.deltas, 1, &proof, mu), "proof for i=2 must not verify at j=1");
}

#[test]
fn wrong_nonce_rejected() {
    let pp = PublicParams::setup(b"security-test-wrong-nonce").unwrap();
    let path = build_test_path(4);
    let (com, aux) = commit(&pp, &path);
    let mu = b"context-nonce-1";

    let proof = prove(&pp, &aux, 1, mu);
    assert!(verify(&pp, &com, &aux.deltas, 1, &proof, mu), "baseline must verify");
    assert!(!verify(&pp, &com, &aux.deltas, 1, &proof, b"context-nonce-2"), "proof with mu1 must not verify with mu2");
}

#[test]
fn oversized_z_rejected() {
    let pp = PublicParams::setup(b"security-test-oversized-z").unwrap();
    let path = build_test_path(4);
    let (com, aux) = commit(&pp, &path);
    let mu = b"context-nonce";

    let proof = prove(&pp, &aux, 1, mu);
    assert!(verify(&pp, &com, &aux.deltas, 1, &proof, mu), "baseline must verify");

    let mut bad = proof.clone();
    bad.z = Poly::zero();
    bad.z.coeffs[0] = B + 1;
    assert!(norm_l2(&bad.z) > B as f64, "test setup: crafted z must actually exceed the norm bound");
    assert!(!verify(&pp, &com, &aux.deltas, 1, &bad, mu), "z with ||z|| > B must be rejected");
}

#[test]
fn two_responses_same_index_do_not_break_binding() {
    let pp = PublicParams::setup(b"security-test-binding").unwrap();
    let path = build_test_path(4);
    let (com, aux) = commit(&pp, &path);
    let mu1 = b"nonce-1";
    let mu2 = b"nonce-2";

    let proof1 = prove(&pp, &aux, 2, mu1);
    let proof2 = prove(&pp, &aux, 2, mu2);

    assert!(verify(&pp, &com, &aux.deltas, 2, &proof1, mu1), "proof1 must verify");
    assert!(verify(&pp, &com, &aux.deltas, 2, &proof2, mu2), "proof2 must verify");

    assert_eq!(proof1.u_i.coeffs, proof2.u_i.coeffs, "u_i must be the same (binding)");
    assert_ne!(proof1.z.coeffs, proof2.z.coeffs, "z must differ (different r/c)");
    assert_ne!(proof1.t1.coeffs, proof2.t1.coeffs, "t1 must differ (different r)");
    assert_ne!(proof1.t2.coeffs, proof2.t2.coeffs, "t2 must differ (different r)");
}

#[test]
fn proof_to_from_bytes_round_trip() {
    let pp = PublicParams::setup(b"serialization-test").unwrap();
    let path = build_test_path(8);
    let (com, aux) = commit(&pp, &path);
    let mu = b"verifier-nonce";
    let proof = prove(&pp, &aux, 3, mu);

    let bytes = proof.to_bytes();
    let restored = Proof::from_bytes(&bytes).expect("from_bytes must succeed");

    assert_eq!(restored.z.coeffs, proof.z.coeffs, "z mismatch");
    assert_eq!(restored.u_i.coeffs, proof.u_i.coeffs, "u_i mismatch");
    assert_eq!(restored.t1.coeffs, proof.t1.coeffs, "t1 mismatch");
    assert_eq!(restored.t2.coeffs, proof.t2.coeffs, "t2 mismatch");
    assert_eq!(restored.path.index, proof.path.index, "path.index mismatch");
    assert_eq!(restored.path.siblings, proof.path.siblings, "siblings mismatch");

    assert!(verify(&pp, &com, &aux.deltas, 3, &restored, mu), "restored proof must verify");
}

#[test]
fn proof_to_bytes_size_matches_target() {
    let pp = PublicParams::setup(b"size-test").unwrap();
    let path = build_test_path(8);
    let (_com, aux) = commit(&pp, &path);
    let proof = prove(&pp, &aux, 1, b"mu");
    let bytes = proof.to_bytes();
    // For L=8 the tree has depth 3: 4*768 + 8 + 1 + 3*32 = 3193 bytes.
    assert_eq!(bytes.len(), 4 * 768 + 8 + 1 + 3 * 32);
}

#[test]
fn proof_from_bytes_rejects_malformed() {
    assert!(Proof::from_bytes(&[0u8; 10]).is_none());
    let pp = PublicParams::setup(b"malformed-test").unwrap();
    let path = build_test_path(8);
    let (_com, aux) = commit(&pp, &path);
    let proof = prove(&pp, &aux, 1, b"mu");
    let mut bytes = proof.to_bytes();
    bytes.truncate(bytes.len() - 1);
    assert!(Proof::from_bytes(&bytes).is_none(), "truncated input must be rejected");
    let mut bad = proof.to_bytes();
    let n_sib_offset = 4 * 768 + 8;
    bad[n_sib_offset] = 100; // > 32
    assert!(Proof::from_bytes(&bad).is_none(), "oversized n_siblings must be rejected");
}

// ---------------------------------------------------------------------------
// Further tests of the library's own functions.
// ---------------------------------------------------------------------------

/// `SHAKE-256(data)`, first `len` bytes, computed directly.
fn shake(data: &[u8], len: usize) -> Vec<u8> {
    let mut h = Shake256::default();
    h.update(data);
    let mut reader = h.finalize_xof();
    let mut out = vec![0u8; len];
    reader.read(&mut out);
    out
}

#[test]
fn setup_expands_seed_with_shake256_rejection_sampling() {
    let seed = b"expansion-check";
    let pp = PublicParams::setup(seed).unwrap();
    let mut input = b"cpc-public-params-a/".to_vec();
    input.extend_from_slice(seed);
    let stream = shake(&input, UNIFORM_STREAM_BYTES);
    // The first accepted 3-byte candidates, in stream order.
    let mut want = Vec::new();
    for t in 0..stream.len() / 3 {
        let v = (stream[3 * t] as i64) | ((stream[3 * t + 1] as i64) << 8) | ((stream[3 * t + 2] as i64) << 16);
        if v < Q && want.len() < M {
            want.push(v);
        }
    }
    assert_eq!(want.len(), M);
    assert_eq!(pp.a.coeffs.to_vec(), want);
    assert_ne!(pp.a.coeffs, pp.b_elem.coeffs);
    assert_eq!((pp.tau, pp.beta, pp.sigma, pp.b, pp.max_path_len), (TAU, BETA, SIGMA, B, 1024));
}

#[test]
fn uniform_stream_skips_candidates_at_or_above_q() {
    // Candidates: q (rejected), 0xFFFFFF (rejected), 5, q - 1, then zeros.
    let mut stream = vec![0x01, 0xE0, 0x7F, 0xFF, 0xFF, 0xFF, 5, 0, 0, 0x00, 0xE0, 0x7F];
    stream.extend(vec![0u8; 3 * 300]);
    let p = poly_from_uniform_stream(&stream).unwrap();
    assert_eq!(p.coeffs[0], 5);
    assert_eq!(p.coeffs[1], Q - 1);
    assert!(p.coeffs[2..].iter().all(|&c| c == 0));
    // A stream with fewer than 256 candidates below q gives nothing.
    let short = [9u8, 0, 0, 7, 0, 0, 1];
    assert!(poly_from_uniform_stream(&short).is_none());
    let mut just = vec![0x01, 0xE0, 0x7F];
    just.extend(vec![0u8; 3 * 255]);
    assert!(poly_from_uniform_stream(&just).is_none());
    just.extend([1u8, 0, 0]);
    let p = poly_from_uniform_stream(&just).unwrap();
    assert_eq!(p.coeffs[255], 1);
}

#[test]
fn sample_in_ball_on_a_crafted_stream() {
    // index 5 (sign even -> 1), index 5 again (skipped), index 7 (odd -> q-1):
    // the stream ends before tau positions are set.
    let short = [5u8, 2, 5, 7, 3];
    assert!(sample_in_ball(&short).is_none());
    // The same start, then 58 further distinct indices 100.. with even signs.
    let mut stream = short.to_vec();
    for k in 0..58u8 {
        stream.push(100 + k);
        stream.push(0);
    }
    let c = sample_in_ball(&stream).expect("tau positions are set");
    let mut want = [0i64; M];
    want[5] = 1;
    want[7] = Q - 1;
    for k in 0..58usize {
        want[100 + k] = 1;
    }
    assert_eq!(c.coeffs, want);
    // One byte less and the last sign is missing.
    assert!(sample_in_ball(&stream[..stream.len() - 1]).is_none());
    // A long stream of distinct indices sets exactly tau positions.
    let mut long = Vec::new();
    for k in 0..100u8 {
        long.push(k);
        long.push(k);
    }
    let c = sample_in_ball(&long).unwrap();
    assert_eq!(c.coeffs.iter().filter(|&&x| x != 0).count(), TAU);
    assert_eq!(c.coeffs[0], 1);
    assert_eq!(c.coeffs[1], Q - 1);
    assert_eq!(c.coeffs[TAU], 0);
}

#[test]
fn challenge_is_sample_in_ball_of_shake256_transcript() {
    let com = [3u8; 32];
    let deltas = vec![Poly::from_coefficients(&[1, 2, 3]), Poly::zero()];
    let t1 = Poly::from_coefficients(&[4]);
    let t2 = Poly::from_coefficients(&[5]);
    let mu = b"nonce";
    let transcript = challenge_transcript(&com, &deltas, 2, &t1, &t2, mu);
    let mut want = com.to_vec();
    for d in &deltas {
        want.extend_from_slice(&d.to_bytes());
    }
    want.extend_from_slice(&2u64.to_le_bytes());
    want.extend_from_slice(&t1.to_bytes());
    want.extend_from_slice(&t2.to_bytes());
    want.extend_from_slice(mu);
    assert_eq!(transcript, want);
    let c = hash_to_challenge(&com, &deltas, 2, &t1, &t2, mu).unwrap();
    let expected = sample_in_ball(&shake(&want, CHALLENGE_STREAM_BYTES)).unwrap();
    assert_eq!(c.coeffs, expected.coeffs);
    // Reading the stream further gives the same challenge.
    let longer = sample_in_ball(&shake(&want, 4 * CHALLENGE_STREAM_BYTES)).unwrap();
    assert_eq!(longer.coeffs, c.coeffs);
    assert_eq!(c.coeffs.iter().filter(|&&x| x != 0).count(), TAU);
    // Any change of the transcript changes the challenge.
    let c3 = hash_to_challenge(&com, &deltas, 3, &t1, &t2, mu).unwrap();
    assert_ne!(c.coeffs, c3.coeffs);
}

#[test]
fn gaussian_coefficient_from_a_small_table() {
    // table[i + 1] >= u selects magnitude i.
    let mut table = vec![0u64; GAUSS_TAIL + 2];
    for (i, t) in table.iter_mut().enumerate() {
        *t = if i == 0 { 0 } else { (i as u64) * 10 };
    }
    assert_eq!(gauss_coeff_from_draw(&table, 0, 0), 0);
    assert_eq!(gauss_coeff_from_draw(&table, 10, 0), 0);
    assert_eq!(gauss_coeff_from_draw(&table, 11, 0), 1);
    assert_eq!(gauss_coeff_from_draw(&table, 35, 1), Q - 3);
    assert_eq!(gauss_coeff_from_draw(&table, u64::MAX, 0), GAUSS_TAIL as i64);
    assert_eq!(gauss_coeff_from_draw(&table, u64::MAX, 1), Q - GAUSS_TAIL as i64);
}

#[test]
fn check_commit_input_matches_commit_requirements() {
    let pp = PublicParams::setup(b"check-input").unwrap();
    let good = build_test_path(3);
    assert!(check_commit_input(&pp, &good));
    assert!(!check_commit_input(&pp, &good[..1]));
    // A step of norm 46 > beta = 45.
    let big = vec![Poly::zero(), Poly::from_coefficients(&[46])];
    assert!(!check_commit_input(&pp, &big));
    let edge = vec![Poly::zero(), Poly::from_coefficients(&[45])];
    assert!(check_commit_input(&pp, &edge));
    // Norm 5 via (3, 4).
    let mut pp_small = pp.clone();
    pp_small.beta = 5;
    let p = vec![Poly::zero(), Poly::from_coefficients(&[3, -4])];
    assert!(check_commit_input(&pp_small, &p));
    pp_small.beta = 4;
    assert!(!check_commit_input(&pp_small, &p));
    // A non-canonical coefficient.
    let mut odd = Poly::zero();
    odd.coeffs[0] = Q;
    assert!(!check_commit_input(&pp, &[Poly::zero(), odd]));
}

#[test]
fn commit_state_and_attempt_relations() {
    let pp = PublicParams::setup(b"relations").unwrap();
    let path = build_test_path(5);
    let (com, aux) = commit(&pp, &path);
    assert_eq!(com, aux.tree.root());
    for k in 0..5 {
        let d = &path[k + 1] - &path[k];
        assert_eq!(aux.d_vec[k].coeffs, d.coeffs);
        assert_eq!(aux.u_vec[k].coeffs, (&pp.b_elem * &d).coeffs);
        assert_eq!(aux.deltas[k].coeffs, (&pp.a * &d).coeffs);
    }
    // One attempt: z - c*d gives back the mask; t1 = a*r, t2 = b*r.
    let r = Poly::from_coefficients(&[7, -7, 100]);
    let (proof, c_d) = prove_attempt(&pp, &aux, 4, b"mu", &r).unwrap();
    assert_eq!((&proof.z - &c_d).coeffs, r.coeffs);
    assert_eq!(proof.t1.coeffs, (&pp.a * &r).coeffs);
    assert_eq!(proof.t2.coeffs, (&pp.b_elem * &r).coeffs);
    let c = hash_to_challenge(&com, &aux.deltas, 4, &proof.t1, &proof.t2, b"mu").unwrap();
    assert_eq!(c_d.coeffs, (&c * &aux.d_vec[3]).coeffs);
    assert_eq!(proof.path.index, 3);
    // A short mask passes the norm check, so the attempt verifies.
    assert!(verify(&pp, &com, &aux.deltas, 4, &proof, b"mu"));
    // Index 0 and index L + 1 are rejected.
    assert!(!verify(&pp, &com, &aux.deltas, 0, &proof, b"mu"));
    assert!(!verify(&pp, &com, &aux.deltas, 6, &proof, b"mu"));
    // Polynomials outside [0, q) are rejected.
    let mut odd = proof.clone();
    odd.z.coeffs[0] += Q;
    assert!(!verify(&pp, &com, &aux.deltas, 4, &odd, b"mu"));
    let mut deltas = aux.deltas.clone();
    deltas[3].coeffs[0] = -1;
    assert!(!verify(&pp, &com, &deltas, 4, &proof, b"mu"));
    // A negative bound rejects everything.
    let mut pp_neg = pp.clone();
    pp_neg.b = -1;
    assert!(!verify(&pp_neg, &com, &aux.deltas, 4, &proof, b"mu"));
}

#[test]
fn constant_time_scan_matches_table_search() {
    let mut rng = rand::thread_rng();
    let (mut draws, signs) = draw(&mut rng);
    // Include the extremes of the table.
    draws[0] = 0;
    draws[1] = u64::MAX;
    draws[2] = cdt()[1];
    draws[3] = cdt()[1] + 1;
    let p = gauss_poly_from_draws(cdt(), &draws, &signs);
    for k in 0..M {
        assert_eq!(p.coeffs[k], coeff_by_search(cdt(), draws[k], signs[k]));
    }
    for &c in &p.coeffs {
        let centered = if c > Q / 2 { c - Q } else { c };
        assert!(centered.abs() <= GAUSS_TAIL as i64);
    }
    assert!(norm_l2(&p) < B as f64);
}

#[test]
fn rejection_sampling_statistics() {
    let pp = PublicParams::setup(b"stats-test").unwrap();
    let path = build_test_path(8);
    let (_com, aux) = commit(&pp, &path);

    let n = 200;
    let mut counts = Vec::with_capacity(n);
    for _ in 0..n {
        let (_, iters) = prove_with_iteration_count(&pp, &aux, 1, b"mu");
        counts.push(iters);
    }
    let avg = counts.iter().sum::<usize>() as f64 / n as f64;
    let max = *counts.iter().max().unwrap();
    println!("average iterations {avg:.2}, max {max}");
    assert!(avg > 1.0 && avg < 10.0, "average iterations {avg} out of expected range");
    assert!(max < 50, "max iterations {max} unexpectedly high");
}
