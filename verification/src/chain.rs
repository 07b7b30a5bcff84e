//! The shape shared by both plot kinds: a chain of 64-byte digests, each one
//! prepended to the buffer it was computed from, and a plot made of those
//! digests masked with one final digest.

use vstd::prelude::*;
use vstd::arithmetic::div_mod::lemma_fundamental_div_mod_converse;

verus! {

/// The buffer after `k` steps of `step`: each step prepends `step` of the buffer so far.
pub open spec fn digest_chain(step: spec_fn(Seq<u8>) -> Seq<u8>, seed: Seq<u8>, k: nat) -> Seq<u8>
    decreases k,
{
    if k == 0 {
        seed
    } else {
        let prev = digest_chain(step, seed, (k - 1) as nat);
        step(prev) + prev
    }
}

/// The `j`-th digest of the chain.
pub open spec fn chain_link(step: spec_fn(Seq<u8>) -> Seq<u8>, seed: Seq<u8>, j: nat) -> Seq<u8> {
    step(digest_chain(step, seed, j))
}

/// Every one of the first `n` links is 64 bytes long.
pub open spec fn links_are_64(step: spec_fn(Seq<u8>) -> Seq<u8>, seed: Seq<u8>, n: nat) -> bool {
    forall|i: nat| i < n ==> (#[trigger] chain_link(step, seed, i)).len() == 64
}

/// `count` links masked with `mask`: byte `k` of block `j` is `mask[k] ^ link(j)[k]`.
pub open spec fn masked_links(
    mask: Seq<u8>,
    step: spec_fn(Seq<u8>) -> Seq<u8>,
    seed: Seq<u8>,
    count: nat,
) -> Seq<u8> {
    Seq::new(
        count * 64,
        |i: int| mask[i % 64] ^ chain_link(step, seed, (i / 64) as nat)[i % 64],
    )
}

/// The buffer after `n` steps is `64 * n` bytes longer than the seed.
pub proof fn lemma_chain_len(step: spec_fn(Seq<u8>) -> Seq<u8>, seed: Seq<u8>, n: nat)
    requires
        links_are_64(step, seed, n),
    ensures
        digest_chain(step, seed, n).len() == seed.len() + 64 * n,
    decreases n,
{
    if n > 0 {
        assert(chain_link(step, seed, (n - 1) as nat).len() == 64);
        lemma_chain_len(step, seed, (n - 1) as nat);
    }
}

/// Link `j` sits at offset `(n - 1 - j) * 64` of the buffer after `n` steps.
pub proof fn lemma_link_position(step: spec_fn(Seq<u8>) -> Seq<u8>, seed: Seq<u8>, n: nat, j: nat, k: int)
    requires
        j < n,
        0 <= k < 64,
        links_are_64(step, seed, n),
    ensures
        digest_chain(step, seed, n)[(n - 1 - j) * 64 + k] == chain_link(step, seed, j)[k],
    decreases n,
{
    let prev = digest_chain(step, seed, (n - 1) as nat);
    assert(chain_link(step, seed, (n - 1) as nat).len() == 64);
    lemma_chain_len(step, seed, (n - 1) as nat);
    if j + 1 != n {
        lemma_link_position(step, seed, (n - 1) as nat, j, k);
        assert(digest_chain(step, seed, n)[(n - 1 - j) * 64 + k] == prev[(n - 2 - j) * 64 + k]);
    }
}

/// `count` 64-byte blocks taken from the end of `buffer` backwards (block `j`
/// is the `j`-th last), each masked byte by byte with `mask`.
pub open spec fn masked_tail_blocks(buffer: Seq<u8>, mask: Seq<u8>, count: nat) -> Seq<u8> {
    Seq::new(
        count * 64,
        |i: int| mask[i % 64] ^ buffer[(count - 1 - i / 64) * 64 + i % 64],
    )
}

/// Masks the first `count` 64-byte blocks of `buffer`, last one first, with
/// `mask`: block `j` of the result is block `count - 1 - j` of `buffer` XOR `mask`.
pub fn mask_links(buffer: &[u8], mask: &[u8], count: usize) -> (out: Vec<u8>)
    requires
        mask@.len() == 64,
        count * 64 <= buffer@.len(),
    ensures
        out@ == masked_tail_blocks(buffer@, mask@, count as nat),
{
    let mut out: Vec<u8> = Vec::new();
    let len = buffer.len();
    let ghost expected = masked_tail_blocks(buffer@, mask@, count as nat);
    let mut j: usize = 0;
    while j < count
        invariant
            mask@.len() == 64,
            count * 64 <= buffer@.len(),
            buffer@.len() <= usize::MAX,
            expected == masked_tail_blocks(buffer@, mask@, count as nat),
            j <= count,
            out@.len() == j * 64,
            forall|i: int| 0 <= i < out@.len() ==> out@[i] == #[trigger] expected[i],
        decreases count - j,
    {
        let mut k: usize = 0;
        while k < 64
            invariant
                mask@.len() == 64,
                count * 64 <= buffer@.len(),
                buffer@.len() <= usize::MAX,
                expected == masked_tail_blocks(buffer@, mask@, count as nat),
                j < count,
                k <= 64,
                out@.len() == j * 64 + k,
                forall|i: int| 0 <= i < out@.len() ==> out@[i] == #[trigger] expected[i],
            decreases 64 - k,
        {
            let ghost i = j * 64 + k;
            proof {
                lemma_fundamental_div_mod_converse(i, 64, j as int, k as int);
                assert((count - j - 1) * 64 + k < count * 64) by (nonlinear_arith)
                    requires
                        j < count,
                        k < 64,
                ;
            }
            out.push(mask[k] ^ buffer[(count - j - 1) * 64 + k]);
            assert(out@[i] == expected[i]);
            k = k + 1;
        }
        j = j + 1;
    }
    assert(out@ =~= expected);
    out
}

/// Masking the tail blocks of the buffer after `n` steps gives the masked links.
pub proof fn lemma_masked_tail_is_masked_links(
    mask: Seq<u8>,
    step: spec_fn(Seq<u8>) -> Seq<u8>,
    seed: Seq<u8>,
    n: nat,
)
    requires
        links_are_64(step, seed, n),
    ensures
        masked_tail_blocks(digest_chain(step, seed, n), mask, n) == masked_links(mask, step, seed, n),
{
    let tail = masked_tail_blocks(digest_chain(step, seed, n), mask, n);
    let links = masked_links(mask, step, seed, n);
    assert forall|i: int| 0 <= i < n * 64 implies #[trigger] tail[i] == links[i] by {
        let j = i / 64;
        let k = i % 64;
        assert(0 <= j < n && 0 <= k < 64) by (nonlinear_arith)
            requires
                0 <= i < n * 64,
                j == i / 64,
                k == i % 64,
        ;
        lemma_link_position(step, seed, n, j as nat, k);
    }
    assert(tail =~= links);
}

} // verus!
