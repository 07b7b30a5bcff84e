//! The BLAKE2b plot: a chain of 8192 digests over a 25-byte seed, each digest
//! taken over at most the first 1024 bytes of what was hashed before it, then
//! masked with the digest of the whole chain.

use vstd::prelude::*;
use crate::bytes::replace_at;
use crate::chain::{
    chain_link, digest_chain, lemma_masked_tail_is_masked_links, links_are_64, mask_links, masked_links,
};
use crate::hashing::{blake2b, blake2b_digest};

verus! {

/// Number of chained digests in one plot.
pub const HASH_LOOP_COUNT: usize = 8192;
/// Length of one digest.
pub const HASH_LENGTH: usize = 64;
/// Length of the seed: a 21-byte version and identifier, then a 4-byte nonce.
pub const SEED_LENGTH: usize = 25;
/// Length of one plot: `HASH_LOOP_COUNT * HASH_LENGTH`.
pub const PLOT_LENGTH: usize = 524288;
/// How many leading bytes of the buffer each chain step hashes.
pub const HASH_WINDOW: usize = 1024;

/// The seed of a plot: version and identifier, then the nonce in little-endian order.
pub open spec fn poc_seed(ver_identifier: Seq<u8>, nonce: u32) -> Seq<u8> {
    ver_identifier + vstd::bytes::spec_u32_to_le_bytes(nonce)
}

/// The seed keeps the version and identifier bytes as they are and ends in the whole nonce:
/// its last 4 bytes read back, little-endian, as the nonce, so two different
/// nonces never give the same seed.
pub proof fn lemma_poc_seed_holds_nonce(prefix: Seq<u8>, nonce: u32, other: u32)
    requires
        prefix.len() == 21,
    ensures
        poc_seed(prefix, nonce).len() == 25,
        poc_seed(prefix, nonce).take(21) == prefix,
        vstd::bytes::spec_u32_from_le_bytes(poc_seed(prefix, nonce).skip(21)) == nonce,
        nonce != other ==> poc_seed(prefix, nonce) != poc_seed(prefix, other),
{
    vstd::bytes::lemma_auto_spec_u32_to_from_le_bytes();
    let s = poc_seed(prefix, nonce);
    assert(s.take(21) =~= prefix);
    assert(s.skip(21) =~= vstd::bytes::spec_u32_to_le_bytes(nonce));
    let t = poc_seed(prefix, other);
    assert(t.skip(21) =~= vstd::bytes::spec_u32_to_le_bytes(other));
    if nonce != other && s == t {
        assert(vstd::bytes::spec_u32_from_le_bytes(t.skip(21)) == other);
    }
}

/// The part of the buffer a step hashes: its first 1024 bytes, or all of it if shorter.
pub open spec fn hash_window(buffer: Seq<u8>) -> Seq<u8> {
    if buffer.len() <= 1024 {
        buffer
    } else {
        buffer.take(1024)
    }
}

/// One step of the chain: the BLAKE2b digest of the window of the buffer so far.
pub open spec fn poc_step() -> spec_fn(Seq<u8>) -> Seq<u8> {
    |buffer: Seq<u8>| blake2b_digest(hash_window(buffer))
}

/// The mask: the digest of the whole buffer after all 8192 steps.
pub open spec fn poc_mask(seed: Seq<u8>) -> Seq<u8> {
    blake2b_digest(digest_chain(poc_step(), seed, 8192))
}

/// The plot of a seed: the 8192 chained digests, each masked with the final digest.
pub open spec fn poc_plot(seed: Seq<u8>) -> Seq<u8> {
    masked_links(poc_mask(seed), poc_step(), seed, 8192)
}

/// Writes into `output` the plot of `ver_identifier` (21 bytes) and `nonce`.
pub fn generator(ver_identifier: &[u8], nonce: u32, output: &mut Box<[u8; PLOT_LENGTH]>)
    requires
        ver_identifier@.len() == 21,
    ensures
        final(output)@ == poc_plot(poc_seed(ver_identifier@, nonce)),
{
    let total_length: usize = SEED_LENGTH + HASH_LOOP_COUNT * HASH_LENGTH;
    let mut source: Vec<u8> = vec![0u8; total_length];
    let nonce_bytes = vstd::bytes::u32_to_le_bytes(nonce);
    replace_at(&mut source, total_length - 4, nonce_bytes.as_slice());
    replace_at(&mut source, total_length - SEED_LENGTH, ver_identifier);
    let ghost seed = poc_seed(ver_identifier@, nonce);
    let ghost step = poc_step();
    assert(source@.subrange(524288, 524313) =~= seed);

    let start_index: usize = total_length - SEED_LENGTH;
    let mut index: usize = 0;
    while index < HASH_LOOP_COUNT
        invariant
            index <= 8192,
            total_length == 524313,
            start_index == 524288,
            source@.len() == 524313,
            seed.len() == 25,
            step == poc_step(),
            source@.subrange(524288 - 64 * index, 524313) == digest_chain(step, seed, index as nat),
            links_are_64(step, seed, index as nat),
        decreases 8192 - index,
    {
        let start = start_index - index * HASH_LENGTH;
        let end = if start + HASH_WINDOW < total_length {
            start + HASH_WINDOW
        } else {
            total_length
        };
        let ghost tail = source@.subrange(start as int, 524313);
        assert(source@.subrange(start as int, end as int) =~= hash_window(tail));
        let hash = blake2b(&source.as_slice()[start..end]);
        assert(hash@ == chain_link(step, seed, index as nat));
        let ghost before = source@;
        replace_at(&mut source, start - HASH_LENGTH, hash.as_slice());
        assert(source@.subrange(start - 64, 524313) =~= hash@ + before.subrange(start as int, 524313));
        index = index + 1;
    }
    let final_hash = blake2b(source.as_slice());
    assert(source@.subrange(0, 524313) =~= source@);
    assert(final_hash@ == poc_mask(seed));

    let masked = mask_links(source.as_slice(), final_hash.as_slice(), HASH_LOOP_COUNT);
    proof {
        lemma_masked_tail_is_masked_links(final_hash@, step, seed, 8192);
    }
    assert(masked@ == poc_plot(seed));
    let mut i: usize = 0;
    while i < PLOT_LENGTH
        invariant
            masked@ == poc_plot(seed),
            masked@.len() == PLOT_LENGTH,
            output@.len() == PLOT_LENGTH,
            i <= PLOT_LENGTH,
            forall|k: int| 0 <= k < i ==> output@[k] == #[trigger] masked@[k],
        decreases PLOT_LENGTH - i,
    {
        output[i] = masked[i];
        i = i + 1;
    }
    assert(output@ =~= poc_plot(seed));
}

} // verus!
