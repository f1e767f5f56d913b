//! The compression and the checksums that the archive records carry. Each
//! is computed by an outside crate and named here by what it returns.

use vstd::prelude::*;

verus! {

/// The raw Deflate stream that `flate2` makes of `data` at its default
/// compression level.
pub uninterp spec fn deflate_stream(data: Seq<u8>) -> Seq<u8>;

/// The CRC-32 of `data` as `flate2::Crc` computes it.
pub uninterp spec fn crc32_checksum(data: Seq<u8>) -> u32;

/// The MD5 digest of `data`.
pub uninterp spec fn md5_digest(data: Seq<u8>) -> [u8; 16];

/// The 32-bit MurmurHash3 of `data` with the given seed.
pub uninterp spec fn murmur3_32_hash(data: Seq<u8>, seed: u32) -> u32;

/// Feeds `data` to a `flate2::write::DeflateEncoder` over a vector, at
/// `Compression::default()`, and finishes it. The result is a function of
/// the data alone; writing to a vector does not fail.
#[verifier::external_body]
pub(crate) fn deflate(data: &[u8]) -> (out: Vec<u8>)
    ensures
        out@ == deflate_stream(data@),
{
    let mut encoder = flate2::write::DeflateEncoder::new(
        Vec::new(),
        flate2::Compression::default(),
    );
    std::io::Write::write_all(&mut encoder, data).expect("a vector takes every write");
    encoder.finish().expect("a vector takes every write")
}

/// Updates a fresh `flate2::Crc` with `data` and takes its sum.
#[verifier::external_body]
pub(crate) fn crc32(data: &[u8]) -> (sum: u32)
    ensures
        sum == crc32_checksum(data@),
{
    let mut crc = flate2::Crc::new();
    crc.update(data);
    crc.sum()
}

/// Updates a fresh `md5::Md5` with `data` and finalizes it.
#[verifier::external_body]
pub(crate) fn md5(data: &[u8]) -> (digest: [u8; 16])
    ensures
        digest == md5_digest(data@),
{
    let mut hasher = <md5::Md5 as md5::Digest>::new();
    md5::Digest::update(&mut hasher, data);
    md5::Digest::finalize(hasher).into()
}

/// Calls `murmur3::murmur3_32` on a cursor over `data`. Reading from a
/// cursor does not fail. The function counts the bytes in 32 bits, so longer
/// input is left out.
#[verifier::external_body]
pub(crate) fn murmur3_32(data: &[u8], seed: u32) -> (hash: u32)
    requires
        data@.len() <= u32::MAX,
    ensures
        hash == murmur3_32_hash(data@, seed),
{
    murmur3::murmur3_32(&mut std::io::Cursor::new(data), seed).expect("a cursor reads without error")
}

} // verus!
