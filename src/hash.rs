//! The digest used for trie keys and state roots.
use vstd::prelude::*;

verus! {

/// The Keccak-256 digest of a byte string.
pub uninterp spec fn keccak_of(data: Seq<u8>) -> Seq<u8>;

/// Relies on keccak_hash::keccak: the 32-byte Keccak-256 digest of the input,
/// a function of the input bytes alone.
#[verifier::external_body]
pub(crate) fn keccak_bytes(data: &Vec<u8>) -> (r: Vec<u8>)
    ensures
        r@ == keccak_of(data@),
        r@.len() == 32,
{
    keccak_hash::keccak(data.as_slice()).0.to_vec()
}

} // verus!
