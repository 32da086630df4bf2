//! The cryptographic hash that node encodings are committed with.

use vstd::prelude::*;

verus! {

/// The BLAKE2b digest with 32-byte output, empty key, of `data`. The digest
/// depends on `data` alone; nothing further is assumed of its value.
pub uninterp spec fn blake2b256(data: Seq<u8>) -> Seq<u8>;

/// Relies on `blake2_rfc::blake2b::blake2b` with a 32-byte output length and
/// an empty key: the result is the 32-byte BLAKE2b digest of `data`.
#[verifier::external_body]
pub fn blake2b_256(data: &[u8]) -> (r: Vec<u8>)
    ensures
        r@ == blake2b256(data@),
        r@.len() == 32,
{
    blake2_rfc::blake2b::blake2b(32, &[], data).as_bytes().to_vec()
}

} // verus!
