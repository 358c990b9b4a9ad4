//! Checksumming of block and index payloads.
use vstd::prelude::*;

verus! {

/// The CRC-32 (IEEE) checksum of a byte string, as the `crc32fast` crate
/// computes it: a function of the bytes alone.
pub uninterp spec fn crc32_of(data: Seq<u8>) -> u32;

/// Relies on crc32fast::Hasher (new, update, finalize): the CRC-32 (IEEE)
/// checksum of `data`, depending on the bytes alone.
#[verifier::external_body]
pub fn crc32(data: &[u8]) -> (r: u32)
    ensures
        r == crc32_of(data@),
{
    let mut hasher = crc32fast::Hasher::new();
    hasher.update(data);
    hasher.finalize()
}

} // verus!
