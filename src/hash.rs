//! The outside hash functions this library draws its randomness from.
use vstd::prelude::*;

verus! {

/// The 64-bit XXH3 hash of `data` under `seed`.
pub uninterp spec fn xxh3_seeded(data: Seq<u8>, seed: u64) -> u64;

/// Relies on `xxhash_rust::xxh3::xxh3_64_with_seed`: a pure function of the
/// input bytes and the seed.
#[verifier::external_body]
pub(crate) fn xxh3_64_with_seed(data: &[u8], seed: u64) -> (r: u64)
    ensures
        r == xxh3_seeded(data@, seed),
{
    xxhash_rust::xxh3::xxh3_64_with_seed(data, seed)
}

/// Eight bytes of the BLAKE3 extendable output of `data`, starting at byte
/// `position` of that output, read as a little-endian integer.
pub uninterp spec fn blake3_xof_u64(data: Seq<u8>, position: u64) -> u64;

/// Relies on `blake3::Hasher::finalize_xof`, `blake3::OutputReader::set_position`
/// and `blake3::OutputReader::fill`: the output stream is a function of the
/// input alone, and a reader placed at a position reads the bytes found there.
/// The stream holds at most `u64::MAX` bytes.
#[verifier::external_body]
pub(crate) fn blake3_xof_read_u64(data: &[u8], position: u64) -> (r: u64)
    requires
        position <= u64::MAX - 8,
    ensures
        r == blake3_xof_u64(data@, position),
{
    let mut reader = blake3::Hasher::new().update(data).finalize_xof();
    reader.set_position(position);
    let mut buf = [0u8; 8];
    reader.fill(&mut buf);
    u64::from_le_bytes(buf)
}

/// Thirty-two bytes of the BLAKE3 extendable output of `data` in key
/// derivation mode under `context`, starting at byte `position` of that output.
pub uninterp spec fn blake3_derived_block(context: Seq<char>, data: Seq<u8>, position: u64) -> Seq<u8>;

/// Relies on `blake3::Hasher::new_derive_key`, `blake3::Hasher::finalize_xof`,
/// `blake3::OutputReader::set_position` and `blake3::OutputReader::fill`: the
/// output stream is a function of the context and the input alone.
#[verifier::external_body]
pub(crate) fn blake3_derive_key_read_block(context: &str, data: &[u8], position: u64) -> (r: [u8; 32])
    requires
        position <= u64::MAX - 32,
    ensures
        r@ == blake3_derived_block(context@, data@, position),
{
    let mut reader = blake3::Hasher::new_derive_key(context).update(data).finalize_xof();
    reader.set_position(position);
    let mut buf = [0u8; 32];
    reader.fill(&mut buf);
    buf
}

} // verus!
