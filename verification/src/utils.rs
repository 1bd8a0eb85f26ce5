//! Checksums, fingerprints and compression, provided by outside crates.
//!
//! Each result is a function of the input bytes alone; the spec names below
//! stand for those results, and every contract that mentions a checksum, a
//! fingerprint or a compressed segment speaks of these names.

use crate::error::Error;
use vstd::prelude::*;

verus! {

/// The CRC-32 checksum of a byte string.
pub uninterp spec fn crc32_of(data: Seq<u8>) -> u32;

/// Relies on `crc32fast::hash`: the CRC-32 (IEEE) checksum of the bytes,
/// a function of the bytes alone.
#[verifier::external_body]
pub fn crc32sum(data: &[u8]) -> (r: u32)
    ensures
        r == crc32_of(data@),
{
    crc32fast::hash(data)
}

/// Verify bytes against an expected checksum.
pub fn crc32check(data: &[u8], checksum: u32) -> (r: bool)
    ensures
        r == (checksum == crc32_of(data@)),
{
    crc32sum(data) == checksum
}

/// The 32-bit farmhash fingerprint of a byte string.
pub uninterp spec fn fingerprint32_of(data: Seq<u8>) -> u32;

/// Relies on `farmhash::fingerprint32`: a portable fingerprint that is
/// stable across platforms and library versions, a function of the bytes
/// alone.
#[verifier::external_body]
pub fn fingerprint32(data: &[u8]) -> (r: u32)
    ensures
        r == fingerprint32_of(data@),
{
    farmhash::fingerprint32(data)
}

/// The LZ4 block compression of a byte string, with the uncompressed size
/// prepended.
pub uninterp spec fn lz4_of(data: Seq<u8>) -> Seq<u8>;

/// Relies on `lz4_flex::block::compress_prepend_size`: deterministic LZ4
/// block compression of the bytes, prefixed with their length. The output
/// never exceeds the crate's own maximum output size, a 4-byte size prefix
/// plus `16 + 4 + input * 110 / 100` bytes.
#[verifier::external_body]
pub fn lz4_compress(data: &[u8]) -> (r: Vec<u8>)
    requires
        data@.len() <= u32::MAX,
    ensures
        r@ == lz4_of(data@),
        r@.len() <= 24 + data@.len() * 110 / 100,
{
    lz4_flex::block::compress_prepend_size(data)
}

/// Relies on `lz4_flex::block::decompress_size_prepended`: it inverts
/// `compress_prepend_size`, so on the compression of any byte string it
/// returns exactly that byte string.
#[verifier::external_body]
pub fn lz4_decompress(data: &[u8]) -> (r: Result<Vec<u8>, Error>)
    ensures
        forall|orig: Seq<u8>| data@ == lz4_of(orig) ==> r is Ok && r->Ok_0@ == orig,
{
    match lz4_flex::block::decompress_size_prepended(data) {
        Ok(v) => Ok(v),
        Err(_) => Err(Error::Decode),
    }
}

} // verus!
