//! The SHA-256 primitive that every commitment of the library is built on.

use sha2::Digest;
use vstd::prelude::*;

verus! {

/// SHA-256 of a byte sequence.
pub uninterp spec fn sha256(data: Seq<u8>) -> Seq<u8>;

/// Two different inputs with the same digest: what every soundness statement
/// of this library excludes by assumption.
pub open spec fn sha256_collision(a: Seq<u8>, b: Seq<u8>) -> bool {
    a != b && sha256(a) == sha256(b)
}

/// Relies on `sha2::Sha256` (`Digest::new`, `update`, `finalize`): the digest
/// of the whole buffer, which is 32 bytes long.
#[verifier::external_body]
pub fn hash_buffer(buffer: &[u8]) -> (r: Vec<u8>)
    ensures
        r@ == sha256(buffer@),
        r@.len() == 32,
{
    let mut hasher = sha2::Sha256::new();
    hasher.update(buffer);
    hasher.finalize().to_vec()
}

} // verus!
