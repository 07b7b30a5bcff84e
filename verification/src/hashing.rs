//! The two hash functions the plots are built from.

use vstd::prelude::*;

verus! {

/// The SHA-512 digest of a byte string.
pub uninterp spec fn sha512_digest(data: Seq<u8>) -> Seq<u8>;

/// The BLAKE2b digest, with default parameters (64-byte output, no key), of a byte string.
pub uninterp spec fn blake2b_digest(data: Seq<u8>) -> Seq<u8>;

/// Calls `sha2::Sha512::digest`. Trusted: the result is the SHA-512 digest of
/// `data`, which is 64 bytes long (the output size of `Sha512`).
#[verifier::external_body]
pub(crate) fn sha512(data: &[u8]) -> (digest: Vec<u8>)
    ensures
        digest@ == sha512_digest(data@),
        digest@.len() == 64,
{
    <sha2::Sha512 as sha2::Digest>::digest(data).to_vec()
}

/// Calls `blake2b_simd::blake2b` and takes `Hash::as_bytes`. Trusted: the result is
/// the BLAKE2b digest of `data` with default parameters, whose length is
/// `blake2b_simd::OUTBYTES` (64 bytes).
#[verifier::external_body]
pub(crate) fn blake2b(data: &[u8]) -> (digest: Vec<u8>)
    ensures
        digest@ == blake2b_digest(data@),
        digest@.len() == 64,
{
    blake2b_simd::blake2b(data).as_bytes().to_vec()
}

} // verus!
