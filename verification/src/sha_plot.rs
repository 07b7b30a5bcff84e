//! The SHA-512 plot: a chain of 512 digests over a 44-byte seed, each digest
//! taken over everything hashed so far, then masked with one final digest.

use vstd::prelude::*;
use vstd::string::StringSliceAdditionalSpecFns;
use crate::bytes::replace_at;
use crate::chain::{
    chain_link, digest_chain, lemma_masked_tail_is_masked_links, links_are_64, mask_links, masked_links,
};
use crate::hashing::{sha512, sha512_digest};

verus! {

/// Number of chained digests in one plot.
pub const HASH_LOOP_COUNT: usize = 512;
/// Length of one digest.
pub const HASH_LENGTH: usize = 64;
/// Length of the seed: a 40-byte address followed by a 4-byte nonce.
pub const SEED_LENGTH: usize = 44;
/// Length of one plot: `HASH_LOOP_COUNT * HASH_LENGTH`.
pub const PLOT_LENGTH: usize = 32768;

/// The seed of a plot: the address bytes, then the nonce in little-endian order.
pub open spec fn sha_seed(address: Seq<u8>, nonce: u32) -> Seq<u8> {
    address + vstd::bytes::spec_u32_to_le_bytes(nonce)
}

/// The seed keeps the address bytes as they are and ends in the whole nonce:
/// its last 4 bytes read back, little-endian, as the nonce, so two different
/// nonces never give the same seed.
pub proof fn lemma_sha_seed_holds_nonce(prefix: Seq<u8>, nonce: u32, other: u32)
    requires
        prefix.len() == 40,
    ensures
        sha_seed(prefix, nonce).len() == 44,
        sha_seed(prefix, nonce).take(40) == prefix,
        vstd::bytes::spec_u32_from_le_bytes(sha_seed(prefix, nonce).skip(40)) == nonce,
        nonce != other ==> sha_seed(prefix, nonce) != sha_seed(prefix, other),
{
    vstd::bytes::lemma_auto_spec_u32_to_from_le_bytes();
    let s = sha_seed(prefix, nonce);
    assert(s.take(40) =~= prefix);
    assert(s.skip(40) =~= vstd::bytes::spec_u32_to_le_bytes(nonce));
    let t = sha_seed(prefix, other);
    assert(t.skip(40) =~= vstd::bytes::spec_u32_to_le_bytes(other));
    if nonce != other && s == t {
        assert(vstd::bytes::spec_u32_from_le_bytes(t.skip(40)) == other);
    }
}

/// One step of the chain: the SHA-512 digest of the whole buffer so far.
pub open spec fn sha_step() -> spec_fn(Seq<u8>) -> Seq<u8> {
    |buffer: Seq<u8>| sha512_digest(buffer)
}

/// The mask: the digest of the buffer after all 512 steps.
pub open spec fn sha_mask(seed: Seq<u8>) -> Seq<u8> {
    sha512_digest(digest_chain(sha_step(), seed, 512))
}

/// The plot of a seed: the 512 chained digests, each masked with the final digest.
pub open spec fn sha_plot(seed: Seq<u8>) -> Seq<u8> {
    masked_links(sha_mask(seed), sha_step(), seed, 512)
}

/// Computes the plot of `address` (its 40 bytes) and `nonce`.
pub fn generator(address: &str, nonce: u32) -> (plot: [u8; PLOT_LENGTH])
    requires
        address.spec_bytes().len() == 40,
    ensures
        plot@ == sha_plot(sha_seed(address.spec_bytes(), nonce)),
{
    let total_length: usize = SEED_LENGTH + HASH_LOOP_COUNT * HASH_LENGTH;
    let mut source: Vec<u8> = vec![0u8; total_length];
    let nonce_bytes = vstd::bytes::u32_to_le_bytes(nonce);
    replace_at(&mut source, total_length - 4, nonce_bytes.as_slice());
    replace_at(&mut source, total_length - SEED_LENGTH, address.as_bytes());
    let ghost seed = sha_seed(address.spec_bytes(), nonce);
    let ghost step = sha_step();
    assert(source@.subrange(32768, 32812) =~= seed);

    let start_index: usize = total_length - SEED_LENGTH;
    let mut index: usize = 0;
    while index < HASH_LOOP_COUNT
        invariant
            index <= 512,
            total_length == 32812,
            start_index == 32768,
            source@.len() == 32812,
            seed.len() == 44,
            step == sha_step(),
            source@.subrange(32768 - 64 * index, 32812) == digest_chain(step, seed, index as nat),
            links_are_64(step, seed, index as nat),
        decreases 512 - index,
    {
        let pos = start_index - index * HASH_LENGTH;
        let hash = sha512(&source.as_slice()[pos..total_length]);
        assert(hash@ == chain_link(step, seed, index as nat));
        let ghost before = source@;
        replace_at(&mut source, pos - HASH_LENGTH, hash.as_slice());
        assert(source@.subrange(pos - 64, 32812) =~= hash@ + before.subrange(pos as int, 32812));
        index = index + 1;
    }
    let final_hash = sha512(source.as_slice());
    assert(source@.subrange(0, 32812) =~= source@);
    assert(final_hash@ == sha_mask(seed));

    let masked = mask_links(source.as_slice(), final_hash.as_slice(), HASH_LOOP_COUNT);
    proof {
        lemma_masked_tail_is_masked_links(final_hash@, step, seed, 512);
    }
    assert(masked@ == sha_plot(seed));
    let mut output = [0u8; PLOT_LENGTH];
    let mut i: usize = 0;
    while i < PLOT_LENGTH
        invariant
            masked@ == sha_plot(seed),
            masked@.len() == PLOT_LENGTH,
            i <= PLOT_LENGTH,
            forall|k: int| 0 <= k < i ==> output@[k] == #[trigger] masked@[k],
        decreases PLOT_LENGTH - i,
    {
        output[i] = masked[i];
        i = i + 1;
    }
    assert(output@ =~= sha_plot(seed));
    output
}

} // verus!
