//! Digests and random bytes.

use ring::rand::SecureRandom;
use vstd::prelude::*;

verus! {

/// The SHA-256 digest of some bytes.
pub uninterp spec fn sha256_of(data: Seq<u8>) -> Seq<u8>;

/// `ring::digest::digest` with SHA-256: 32 bytes that depend on the data
/// alone.
#[verifier::external_body]
pub(crate) fn sha256(data: &[u8]) -> (d: Vec<u8>)
    ensures
        d@ == sha256_of(data@),
        d@.len() == 32,
{
    ring::digest::digest(&ring::digest::SHA256, data).as_ref().to_vec()
}

/// `ring::rand::SystemRandom::fill`: random bytes, zeros where the system has
/// none to give. Only their number is known.
#[verifier::external_body]
pub(crate) fn random_bytes(n: usize) -> (v: Vec<u8>)
    ensures
        v@.len() == n,
{
    let mut v = vec![0; n];
    let _ = ring::rand::SystemRandom::new().fill(&mut v);
    v
}

} // verus!
