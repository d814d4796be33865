//! Tests of the ring `Z_q[x]/(x^256 + 1)`: constant-time reductions, the
//! transform, products, serialization, norms and the parameter set.

use std::time::Instant;

use cpc::params::{B, BETA, EXTRACT_NORM_BOUND, M, MAX_PATH_LEN, Q, SIGMA, TAU};
use cpc::ring::Poly;
use cpc::ring_ct::{barrett_reduce, caddq, center, csubq, ct_select, montgomery_reduce, R};
use rand::rngs::StdRng;
use rand::{Rng, SeedableRng};

/// The `l2` norm of the centered coefficients, as a real number.
fn norm_l2(p: &Poly) -> f64 {
    (p.norm_l2_squared() as f64).sqrt()
}

#[test]
fn ntt_round_trip() {
    let mut p = Poly::from_coefficients(&[1, 2, 3, 4, 5, 6, 7, 8, -1, -2, -3, -4, 0, 0, 0, 0]);
    let before = p.clone();
    p.ntt();
    p.inv_ntt();
    assert_eq!(p.coeffs, before.coeffs, "inv_ntt(ntt(p)) must equal p");
}

#[test]
fn mul_matches_schoolbook() {
    // a = 1 + 2x, b = 3 + 4x  ->  a*b = 3 + 10x + 8x^2  (no wrap for deg < m)
    let a = Poly::from_coefficients(&[1, 2]);
    let b = Poly::from_coefficients(&[3, 4]);
    let got = &a * &b;

    let mut want = [0i64; M];
    for i in 0..M {
        for j in 0..M {
            let k = i + j;
            let v = a.coeffs[i] * b.coeffs[j];
            if k < M {
                want[k] = (want[k] + v) % Q;
            } else {
                want[k - M] = (want[k - M] - v).rem_euclid(Q);
            }
        }
    }
    assert_eq!(got.coeffs, want);
}

#[test]
fn barrett_correctness() {
    // Products (large positive inputs up to Q^2)
    for a in [0, 1, Q - 1, Q, Q + 1, 2 * Q, Q * Q, (Q - 1) * (Q - 1), Q * (Q / 2), 1 << 24, (1 << 24) - 1] {
        let result = barrett_reduce(a);
        assert!((0..Q).contains(&result), "barrett_reduce({}) = {} not in [0, Q)", a, result);
        let expected = a.rem_euclid(Q);
        assert_eq!(result, expected, "barrett_reduce({}) = {} != expected {}", a, result, expected);
    }
    // Negative inputs (subtraction results)
    for a in [-1, -Q, -(Q / 2), -Q + 1, -(Q - 1), -2 * Q, -(Q * Q)] {
        let result = barrett_reduce(a);
        assert!((0..Q).contains(&result), "barrett_reduce({}) = {} not in [0, Q)", a, result);
        let expected = a.rem_euclid(Q);
        assert_eq!(result, expected, "barrett_reduce({}) = {} != expected {}", a, result, expected);
    }
}

#[test]
fn montgomery_round_trip() {
    // montgomery_reduce(a * R) equals a mod Q
    for a in [0i64, 1, 42, Q - 1, Q / 2, 1 << 20] {
        let prod = a.wrapping_mul(R);
        let result = montgomery_reduce(prod);
        assert_eq!(result, a % Q, "montgomery_reduce({} * R) = {} != {}", a, result, a % Q);
    }
    // montgomery_reduce(x * y) == x*y * R^{-1} mod Q: multiplying back by R
    // gives x*y mod Q.
    for (x, y) in [(3i64, 7), (Q - 1, Q - 1), (100, 200), (1, Q - 1)] {
        let prod = x.wrapping_mul(y);
        let mont = montgomery_reduce(prod);
        let recovered = (mont * R) % Q;
        assert_eq!(
            recovered,
            (x * y) % Q,
            "montgomery round-trip failed for x={}, y={}: got {}, expected {}",
            x,
            y,
            recovered,
            (x * y) % Q
        );
    }
}

#[test]
fn montgomery_on_the_whole_documented_domain() {
    // |a| <= Q * R: the result is in [0, Q) and result * R = a (mod Q).
    for a in [-(Q * R), -(Q * R) + 1, -(Q * (R / 2)) - 1, -1, Q * R - 1, Q * R] {
        let r = montgomery_reduce(a);
        assert!((0..Q).contains(&r), "montgomery_reduce({}) = {} not in [0, Q)", a, r);
        assert_eq!(((r as i128) * (R as i128) - a as i128).rem_euclid(Q as i128), 0);
    }
}

#[test]
fn center_branchless_matches_naive() {
    for c in [0, 1, 100, 4_190_208, 4_190_209, Q - 1, Q / 2, Q / 2 + 1] {
        let naive = if c > (Q - 1) / 2 { c - Q } else { c };
        assert_eq!(center(c), naive, "center({}) = {} != naive {}", c, center(c), naive);
    }
    // |center(c)| is min(c, Q - c)
    for c in [0, 1, 100, 4_190_208, 4_190_209, Q - 1] {
        let abs_centered = center(c).abs();
        let naive_abs = if c > (Q - 1) / 2 { Q - c } else { c };
        assert_eq!(abs_centered, naive_abs, "|center({})| = {} != |naive| {}", c, abs_centered, naive_abs);
    }
}

#[test]
fn conditional_reductions_and_select() {
    assert_eq!(csubq(Q), 0);
    assert_eq!(csubq(Q - 1), Q - 1);
    assert_eq!(csubq(2 * Q - 1), Q - 1);
    assert_eq!(caddq(-1), Q - 1);
    assert_eq!(caddq(0), 0);
    assert_eq!(caddq(-Q + 1), 1);
    assert_eq!(ct_select(5, 9, 0), 5);
    assert_eq!(ct_select(5, 9, -1), 9);
}

#[test]
fn params_consistency() {
    // NTT-friendliness: q = 1 (mod 2m)
    assert_eq!(Q % (2 * M as i64), 1, "q must be 1 mod 2m for NTT");
    assert_eq!(Q % 512, 1, "q must be 1 mod 512");

    // sigma = 12 * tau * beta
    let sigma_expected = 12.0 * (TAU as f64) * (BETA as f64);
    assert!((SIGMA as f64 - sigma_expected).abs() < 1.0, "sigma must equal 12*tau*beta");

    // B = 1.2 * sigma * sqrt(m)
    let b_expected = 1.2 * (SIGMA as f64) * (M as f64).sqrt();
    assert!((B as f64 - b_expected).abs() < 1.0, "B must equal 1.2*sigma*sqrt(m)");

    // Extract norm bound = 4 * tau * m * B
    assert_eq!(EXTRACT_NORM_BOUND, 4 * (TAU as i64) * (M as i64) * B);

    assert!(MAX_PATH_LEN.is_power_of_two(), "MAX_PATH_LEN should be a power of two for clean Merkle padding");
}

#[test]
fn q_is_prime() {
    let q = Q;
    assert!(q > 1);
    let mut i = 2i64;
    while i * i <= q {
        assert_ne!(q % i, 0, "q is not prime: divisible by {i}");
        i += 1;
    }
}

#[test]
fn ring_add_sub_neg_consistency() {
    let a = Poly::from_coefficients(&[1, 2, 3, 0, -5, 0, 0, 0]);
    let b = Poly::from_coefficients(&[-1, 1, -1, 1, 5, 0, 0, 0]);

    // (a + b) - b == a
    let sum = &a + &b;
    let recovered = &sum - &b;
    assert_eq!(recovered.coeffs, a.coeffs);

    // (-a) + a == 0
    let neg_a = a.neg();
    let zero = &neg_a + &a;
    assert!(zero.coeffs.iter().all(|&c| c % Q == 0));

    // zero() is all zeros
    assert!(Poly::zero().coeffs.iter().all(|&c| c == 0));
}

#[test]
fn ring_neg_of_zero_is_zero() {
    assert!(Poly::zero().neg().coeffs.iter().all(|&c| c == 0));
}

#[test]
fn ring_mul_by_zero_is_zero() {
    let a = Poly::from_coefficients(&[1, 2, 3, 0, 0, 0, 0, 0]);
    let z = Poly::zero();
    let r = &a * &z;
    assert!(r.coeffs.iter().all(|&c| c == 0));
}

#[test]
fn ring_ntt_round_trip() {
    let mut p = Poly::from_coefficients(&[1, 2, 3, 4, 5, 6, 7, 8, -1, -2, -3, -4, 0, 0, 0, 0]);
    let before = p.clone();
    p.ntt();
    p.inv_ntt();
    assert_eq!(p.coeffs, before.coeffs, "inv_ntt(ntt(p)) must equal p");
}

#[test]
fn ring_mul_ntt_equals_schoolbook() {
    // a = 1 + 2x, b = 3 + 4x  ->  a*b = 3 + 10x + 8x^2
    let a = Poly::from_coefficients(&[1, 2]);
    let b = Poly::from_coefficients(&[3, 4]);
    let got = &a * &b;

    let mut want = [0i64; M];
    for i in 0..M {
        for j in 0..M {
            let k = i + j;
            let v = a.coeffs[i] * b.coeffs[j];
            if k < M {
                want[k] = (want[k] + v) % Q;
            } else {
                // x^k = -x^(k-m) under x^m = -1
                want[k - M] = (want[k - M] - v).rem_euclid(Q);
            }
        }
    }
    assert_eq!(got.coeffs, want);
}

#[test]
fn ring_bytes_round_trip() {
    let p = Poly::from_coefficients(&[1, 2, 3, 8380416, 0, 5, 8380415, 7]);
    let bytes = p.to_bytes();
    assert_eq!(bytes.len(), 3 * M);
    let q = Poly::from_bytes(&bytes).expect("round trip");
    assert_eq!(q.coeffs, p.coeffs);

    // out-of-range coefficient rejected
    let mut bad = bytes.clone();
    bad[0] = 0xFF;
    bad[1] = 0xFF;
    bad[2] = 0x7F; // >= q
    assert!(Poly::from_bytes(&bad).is_none());
}

#[test]
fn ring_norms() {
    let p = Poly::from_coefficients(&[3, 0, 0, 0]); // single nonzero = 3
    assert_eq!(p.norm_inf(), 3);
    assert!((norm_l2(&p) - 3.0).abs() < 1e-9);

    // large positive coeff centers to negative: q-5 -> -5 centered
    let q_poly = Poly::from_coefficients(&[(Q - 5) as i32]);
    assert_eq!(q_poly.norm_inf(), 5);
}

#[test]
fn poly_from_bytes_rejects_wrong_length() {
    assert!(Poly::from_bytes(&[0u8; 10]).is_none());
    assert!(Poly::from_bytes(&[0u8; 1024]).is_none());
    assert!(Poly::from_bytes(&[0u8; 3 * M - 1]).is_none());
    assert!(Poly::from_bytes(&[0u8; 3 * M + 1]).is_none());
}

#[test]
fn poly_from_bytes_rejects_coefficient_equal_to_q() {
    // q = 8_380_417 = 0x7FE001
    let mut bytes = vec![0u8; 3 * M];
    bytes[0] = 0x01;
    bytes[1] = 0xE0;
    bytes[2] = 0x7F;
    let c = (bytes[0] as u64) | ((bytes[1] as u64) << 8) | ((bytes[2] as u64) << 16);
    assert_eq!(c, Q as u64, "test setup: bytes must encode exactly q");
    assert!(Poly::from_bytes(&bytes).is_none(), "coefficient == q must be rejected (must be < q)");
}

#[test]
fn poly_neg_of_nonzero_polynomial() {
    let p = Poly::from_coefficients(&[1, 2, 3, (Q - 1) as i32, 0]);
    let n = p.neg();
    assert_eq!(n.coeffs[0], Q - 1, "neg(1) = Q-1");
    assert_eq!(n.coeffs[1], Q - 2);
    assert_eq!(n.coeffs[2], Q - 3);
    assert_eq!(n.coeffs[3], 1, "neg(Q-1) = 1");
    assert_eq!(n.coeffs[4], 0, "neg(0) = 0");
    // Double negation is the identity.
    let nn = n.neg();
    assert_eq!(nn.coeffs, p.coeffs, "neg(neg(p)) == p");
}

/// A polynomial with pseudo-random coefficients in `[0, Q)`.
fn random_poly(seed: u64) -> Poly {
    let mut rng = StdRng::seed_from_u64(seed);
    let mut p = Poly::zero();
    for c in p.coeffs.iter_mut() {
        *c = rng.gen_range(0..Q);
    }
    p
}

/// Number of iterations per timing measurement.
const ITERATIONS: usize = 2000;

/// Maximum allowed timing ratio between all-zero and random inputs.
const THRESHOLD: f64 = 3.0;

#[test]
fn ntt_timing_independent_of_input() {
    for _ in 0..100 {
        let mut w = Poly::zero();
        w.ntt();
    }
    let zero = Poly::zero();
    let rand_poly = random_poly(0xC0DE_C0DE_u64);
    let t_zero = {
        let start = Instant::now();
        for _ in 0..ITERATIONS {
            let mut p = zero.clone();
            p.ntt();
        }
        start.elapsed().as_secs_f64()
    };
    let t_rand = {
        let start = Instant::now();
        for _ in 0..ITERATIONS {
            let mut p = rand_poly.clone();
            p.ntt();
        }
        start.elapsed().as_secs_f64()
    };
    let ratio = if t_zero > t_rand { t_zero / t_rand } else { t_rand / t_zero };
    println!(
        "NTT timing: zero={:.3}ms, random={:.3}ms, ratio={:.2}x (threshold={:.1}x)",
        t_zero * 1000.0,
        t_rand * 1000.0,
        ratio,
        THRESHOLD
    );
    assert!(ratio < THRESHOLD, "NTT timing ratio {ratio:.2}x exceeds threshold {THRESHOLD}x");
}

#[test]
fn mul_timing_independent_of_secret() {
    let warmup = Poly::zero();
    for _ in 0..20 {
        let _ = &warmup * &warmup;
    }
    let zero = Poly::zero();
    let rand_poly = random_poly(0xC0DE_C0DE_u64);
    let t_zero = {
        let start = Instant::now();
        for _ in 0..ITERATIONS {
            let _ = std::hint::black_box(&zero * &zero);
        }
        start.elapsed().as_secs_f64()
    };
    let t_rand = {
        let start = Instant::now();
        for _ in 0..ITERATIONS {
            let _ = std::hint::black_box(&rand_poly * &rand_poly);
        }
        start.elapsed().as_secs_f64()
    };
    let ratio = if t_zero > t_rand { t_zero / t_rand } else { t_rand / t_zero };
    println!(
        "Mul timing: zero={:.3}ms, random={:.3}ms, ratio={:.2}x (threshold={:.1}x)",
        t_zero * 1000.0,
        t_rand * 1000.0,
        ratio,
        THRESHOLD
    );
    assert!(ratio < THRESHOLD, "Mul timing ratio {ratio:.2}x exceeds threshold {THRESHOLD}x");
}

// ---------------------------------------------------------------------------
// Laws of the ring, on concrete values.
// ---------------------------------------------------------------------------

#[test]
fn ring_laws_on_random_values() {
    let a = random_poly(1);
    let b = random_poly(2);
    let c = random_poly(3);
    // commutative, associative, distributive
    assert_eq!((&a * &b).coeffs, (&b * &a).coeffs);
    assert_eq!((&a * &(&b * &c)).coeffs, (&(&a * &b) * &c).coeffs);
    assert_eq!((&a * &(&b + &c)).coeffs, (&(&a * &b) + &(&a * &c)).coeffs);
    // (a + b) - b == a, -(-a) == a, (-a) + a == 0, a * 0 == 0
    assert_eq!((&(&a + &b) - &b).coeffs, a.coeffs);
    assert_eq!(a.neg().neg().coeffs, a.coeffs);
    assert_eq!((&a.neg() + &a).coeffs, [0i64; M]);
    assert_eq!((&a * &Poly::zero()).coeffs, [0i64; M]);
}

#[test]
fn ntt_is_evaluation_and_pointwise_product() {
    // The transform of x^0 = 1 is all ones; a product transforms to the
    // pointwise product of the transforms.
    let mut one = Poly::from_coefficients(&[1]);
    one.ntt();
    assert!(one.coeffs.iter().all(|&c| c == 1));
    let a = random_poly(4);
    let b = random_poly(5);
    let mut fa = a.clone();
    fa.ntt();
    let mut fb = b.clone();
    fb.ntt();
    let mut fab = &a * &b;
    fab.ntt();
    assert_eq!(fa.pointwise_mul(&fb).coeffs, fab.coeffs);
    // x^128 * x^128 = x^256 = -1
    let mut c = [0i32; 129];
    c[128] = 1;
    let x128 = Poly::from_coefficients(&c);
    let sq = &x128 * &x128;
    let mut want = [0i64; M];
    want[0] = Q - 1;
    assert_eq!(sq.coeffs, want);
}

#[test]
fn norms_of_centered_coefficients() {
    let p = Poly::from_coefficients(&[3, -4]);
    assert_eq!(p.norm_l2_squared(), 25);
    assert_eq!(p.norm_inf(), 4);
    assert!((norm_l2(&p) - 5.0).abs() < 1e-9);
    // The largest centered magnitude is (q - 1) / 2.
    let h = Poly::from_coefficients(&[4_190_208, 4_190_209]);
    assert_eq!(h.norm_inf(), 4_190_208);
    assert_eq!(h.norm_l2_squared(), 2 * 4_190_208i64 * 4_190_208);
}

#[test]
fn from_coefficients_reduces_into_range() {
    let p = Poly::from_coefficients(&[-1, i32::MAX, i32::MIN, 8380417]);
    assert_eq!(p.coeffs[0], Q - 1);
    assert_eq!(p.coeffs[1], (i32::MAX as i64).rem_euclid(Q));
    assert_eq!(p.coeffs[2], (i32::MIN as i64).rem_euclid(Q));
    assert_eq!(p.coeffs[3], 0);
    assert!(p.coeffs[4..].iter().all(|&c| c == 0));
}

#[test]
fn poly_bytes_layout_is_little_endian() {
    let p = Poly::from_coefficients(&[0x123456 % 8380417, 1]);
    let bytes = p.to_bytes();
    assert_eq!(&bytes[0..6], &[0x56, 0x34, 0x12, 0x01, 0x00, 0x00]);
    let back = Poly::from_bytes(&bytes).unwrap();
    assert_eq!(back.coeffs, p.coeffs);
}
