//! The SHA-3 family functions used by the commitment: SHA3-256 for the Merkle
//! tree and SHAKE-256 for the Fiat-Shamir challenge and parameter expansion.
//!
//! Both are called from the `sha3` crate. Their outputs are named by
//! uninterpreted spec functions: the contracts below claim that the result
//! is a function of the input bytes (and, for SHAKE-256, of the requested
//! output length), that SHAKE-256 returns exactly the number of bytes
//! requested, and that its outputs on one input are prefixes of each other.
use vstd::prelude::*;
use sha3::Digest;
use sha3::digest::ExtendableOutput;

verus! {

/// The SHA3-256 digest of `data`.
pub uninterp spec fn spec_sha3_256(data: Seq<u8>) -> Seq<u8>;

/// The first `len` bytes of the SHAKE-256 output stream on input `data`.
pub uninterp spec fn spec_shake256(data: Seq<u8>, len: nat) -> Seq<u8>;

/// Calls `sha3::Sha3_256::digest`; the contract claims only that the 32-byte
/// result is the digest of the input bytes.
#[verifier::external_body]
pub(crate) fn sha3_256(data: &[u8]) -> (r: [u8; 32])
    ensures
        r@ == spec_sha3_256(data@),
{
    let out = sha3::Sha3_256::digest(data);
    let mut r = [0u8; 32];
    r.copy_from_slice(&out);
    r
}

/// Calls `sha3::Shake256::digest_xof` (from `digest::ExtendableOutput`) into a
/// buffer of `len` bytes; the contract claims that the result is the first
/// `len` bytes of the output stream on `data`, and has length `len`. As for
/// every extendable-output function, the reader continues one stream, so a
/// shorter output is a prefix of a longer one on the same input.
#[verifier::external_body]
pub(crate) fn shake256(data: &[u8], len: usize) -> (r: Vec<u8>)
    ensures
        r@ == spec_shake256(data@, len as nat),
        r@.len() == len,
        forall|m: nat| m >= r@.len() ==> (#[trigger] spec_shake256(data@, m)).subrange(0, r@.len() as int) == r@ && spec_shake256(data@, m).len() == m,
        forall|m: nat| m <= r@.len() ==> #[trigger] spec_shake256(data@, m) == r@.subrange(0, m as int),
{
    let mut out = vec![0u8; len];
    sha3::Shake256::digest_xof(data, &mut out);
    out
}

} // verus!
