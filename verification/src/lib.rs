//! CPC: Constrained Path Commitment over the ring `R_q = Z_q[x]/(x^256 + 1)`.
//!
//! A committer publishes a 32-byte commitment to a path `v_0, ..., v_L` of
//! ring elements whose consecutive differences are short, and later proves,
//! for one step `i`, knowledge of a short `d_i` with `a * d_i = Delta_i` and
//! `b * d_i = u_i`, where `u_i` is a leaf of the committed Merkle tree.
//!
//! | Module | Responsibility |
//! |--------|----------------|
//! | [`params`]      | Parameter constants, `PublicParams` and `Setup` |
//! | [`ring_ct`]     | Constant-time reductions in `Z_q` |
//! | [`ring`]        | Polynomial ring arithmetic with the NTT |
//! | [`ring_spec`], [`ntt_spec`], [`ntt_layers`], [`ring_laws`] | The mathematical model of `R_q` and the transform, and their laws |
//! | [`gauss`]       | Integer core of discrete Gaussian sampling |
//! | [`hashing`]     | SHA3-256 and SHAKE-256 |
//! | [`merkle`]      | SHA3-256 Merkle tree for sequence binding |
//! | [`commitment`]  | `CPC.Commit` |
//! | [`prove`]       | The Fiat-Shamir challenge, proof serialization, one `CPC.Prove` attempt |
//! | [`verify`]      | `CPC.Verify` and completeness |
pub mod params;
pub mod ring_ct;
pub mod ring_spec;
pub mod ntt_spec;
pub mod ntt_layers;
pub mod ring;
pub mod ring_laws;
pub mod hashing;
pub mod merkle;
pub mod commitment;
pub mod gauss;
pub mod prove;
pub mod verify;

pub use commitment::{commit, Aux};
pub use params::PublicParams;
pub use prove::Proof;
pub use verify::verify;
