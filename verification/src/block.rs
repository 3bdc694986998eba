//! Fixed-size chunking of a byte buffer into blocks, the units of
//! deduplication.

use crate::hash::{calculate_hash, digest_of, BlockHash};
use crate::wire::concat;
use vstd::prelude::*;
use vstd::slice::*;

verus! {
/// Number of bytes in every block but the last of a buffer.
pub const BLOCK_SIZE: usize = 65536;

/// Number of blocks that a buffer of `len` bytes splits into.
pub open spec fn block_count(len: nat) -> nat {
    ((len + BLOCK_SIZE - 1) / (BLOCK_SIZE as int)) as nat
}

/// Where block `i` of a buffer of `len` bytes ends.
pub open spec fn block_end(len: nat, i: int) -> int {
    if (i + 1) * BLOCK_SIZE <= len {
        (i + 1) * BLOCK_SIZE
    } else {
        len as int
    }
}

/// Block `i` of `data`.
pub open spec fn block_at(data: Seq<u8>, i: int) -> Seq<u8> {
    data.subrange(i * BLOCK_SIZE, block_end(data.len(), i))
}

/// The blocks of `data`, in order.
pub open spec fn blocks_of(data: Seq<u8>) -> Seq<Seq<u8>> {
    Seq::new(block_count(data.len()), |i: int| block_at(data, i))
}

/// The digests of the blocks of `data`, in order.
pub open spec fn digests_of(data: Seq<u8>) -> Seq<Seq<u8>> {
    Seq::new(block_count(data.len()), |i: int| digest_of(block_at(data, i)))
}

/// Each block of `data` lies inside it, is not empty, and is at most
/// `BLOCK_SIZE` bytes long; every block but the last is exactly that long.
pub proof fn lemma_block_bounds(data: Seq<u8>, i: int)
    requires
        0 <= i < block_count(data.len()),
    ensures
        0 <= i * BLOCK_SIZE < block_end(data.len(), i) <= data.len(),
        0 < block_at(data, i).len() <= BLOCK_SIZE,
        block_at(data, i).len() == block_end(data.len(), i) - i * BLOCK_SIZE,
        i + 1 < block_count(data.len()) ==> block_at(data, i).len() == BLOCK_SIZE,
        i + 1 == block_count(data.len()) ==> block_end(data.len(), i) == data.len(),
{
}

/// The first `n` blocks of `data`, joined, are `data` up to the end of the
/// last of them.
pub proof fn lemma_blocks_prefix(data: Seq<u8>, n: int)
    requires
        0 <= n <= block_count(data.len()),
    ensures
        concat(blocks_of(data).take(n)) == data.take(
            if n == 0 {
                0
            } else {
                block_end(data.len(), n - 1)
            },
        ),
    decreases n,
{
    let parts = blocks_of(data).take(n);
    if n > 0 {
        lemma_blocks_prefix(data, n - 1);
        assert(parts.drop_last() == blocks_of(data).take(n - 1));
    }
}

/// Splitting loses nothing: the blocks of `data`, joined in order, are
/// `data`.
pub proof fn lemma_blocks_cover(data: Seq<u8>)
    ensures
        concat(blocks_of(data)) == data,
{
    let n = block_count(data.len()) as int;
    lemma_blocks_prefix(data, n);
    assert(blocks_of(data).take(n) == blocks_of(data));
}

/// Splits `data` into its blocks and pairs each with its digest.
pub fn split_into_blocks(data: &[u8]) -> (r: Vec<(BlockHash, Vec<u8>)>)
    ensures
        r@.len() == block_count(data@.len()),
        forall|i: int|
            0 <= i < r@.len() ==> (#[trigger] r@[i]).1@ == block_at(data@, i) && r@[i].0@
                == digest_of(block_at(data@, i)),
{
    let n = data.len();
    let mut out: Vec<(BlockHash, Vec<u8>)> = Vec::new();
    let mut start: usize = 0;
    while start < n
        invariant
            n == data@.len(),
            start <= n,
            start == out@.len() * BLOCK_SIZE || start == n,
            start == n ==> out@.len() == block_count(n as nat),
            start < n ==> out@.len() < block_count(n as nat),
            forall|i: int|
                0 <= i < out@.len() ==> (#[trigger] out@[i]).1@ == block_at(data@, i)
                    && out@[i].0@ == digest_of(block_at(data@, i)),
        decreases n - start,
    {
        let end = if n - start > BLOCK_SIZE {
            start + BLOCK_SIZE
        } else {
            n
        };
        let chunk = slice_subrange(data, start, end);
        let digest = calculate_hash(chunk);
        out.push((digest, slice_to_vec(chunk)));
        start = end;
    }
    out
}
} // verus!
