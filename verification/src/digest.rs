use vstd::prelude::*;

verus! {

// The two content digests the store depends on. Each is a pure function of
// the input bytes; the digest itself is left unspecified and is only named,
// so nothing in the library depends on the particular polynomial or mixing
// function beyond determinism.

/// The CRC-32 checksum of a byte string, as `crc32fast` computes it.
pub uninterp spec fn crc32_of(data: Seq<u8>) -> u32;

/// The 64-bit xxHash3 digest of a byte string, as `xxhash_rust` computes it.
pub uninterp spec fn xxh3_of(data: Seq<u8>) -> u64;

/// Relies on crc32fast::hash: the CRC-32 checksum, a deterministic function
/// of the bytes alone.
#[verifier::external_body]
pub fn crc32(data: &Vec<u8>) -> (r: u32)
    ensures
        r == crc32_of(data@),
{
    crc32fast::hash(data)
}

/// Relies on xxhash_rust::xxh3::xxh3_64: a 64-bit digest, a deterministic
/// function of the bytes alone.
#[verifier::external_body]
pub fn xxh3_64(data: &Vec<u8>) -> (r: u64)
    ensures
        r == xxh3_of(data@),
{
    xxhash_rust::xxh3::xxh3_64(data)
}

} // verus!
