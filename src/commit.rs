//! Checking a revealed answer against the digest committed to at creation.
use vstd::prelude::*;

use crate::WORD_LENGTH;

verus! {

/// The SHA-256 digest of a byte sequence.
pub uninterp spec fn sha256_of(data: Seq<u8>) -> Seq<u8>;

/// Relies on soroban_sdk's `Crypto::sha256` (run in a fresh host environment):
/// the SHA-256 digest of the bytes, which depends on the bytes alone. Inputs
/// are limited to one word so that the host's metering budget is never hit.
#[verifier::external_body]
fn sha256(data: &[u8]) -> (r: [u8; 32])
    requires
        data@.len() == WORD_LENGTH as nat,
    ensures
        r@ == sha256_of(data@),
{
    let env = soroban_sdk::Env::new_with_config(soroban_sdk::testutils::EnvTestConfig {
        capture_snapshot_at_drop: false,
    });
    let bytes = soroban_sdk::Bytes::from_slice(&env, data);
    env.crypto().sha256(&bytes).to_array()
}

/// Whether a computed digest equals the stored commitment, byte for byte.
pub fn digest_matches(digest: &[u8; 32], commitment: &[u8; 32]) -> (r: bool)
    ensures
        r == (digest@ == commitment@),
{
    let mut i: usize = 0;
    while i < 32
        invariant
            i <= 32,
            digest@.len() == 32,
            commitment@.len() == 32,
            forall|k: int| 0 <= k < i ==> digest@[k] == commitment@[k],
        decreases 32 - i,
    {
        if digest[i] != commitment[i] {
            return false;
        }
        i = i + 1;
    }
    assert(digest@ =~= commitment@);
    true
}

/// Whether `plaintext` is the preimage that `commitment` binds to.
pub fn verify_commitment(plaintext: &[u8], commitment: &[u8; 32]) -> (r: bool)
    requires
        plaintext@.len() == WORD_LENGTH as nat,
    ensures
        r == (sha256_of(plaintext@) == commitment@),
{
    let digest = sha256(plaintext);
    digest_matches(&digest, commitment)
}

} // verus!
