//! The block store: compressed blocks under their digests, each digest
//! once, kept in the order in which they came.

use crate::codec::{frame_bytes, zstd_content, zstd_encode, zstd_frame};
use crate::error::{io_error_text, CompressionError};
use crate::hash::{digest_of, BlockHash};
use crate::table::DigestTable;
use vstd::prelude::*;

verus! {
/// A block as it is stored: compressed, with the length it had before.
#[derive(Debug, Clone)]
pub struct DataBlock {
    pub compressed_data: Vec<u8>,
    pub original_size: usize,
}

/// What the store holds for one digest.
pub ghost struct StoredBlock {
    pub digest: Seq<u8>,
    pub compressed: Seq<u8>,
    pub original_len: nat,
}

/// No digest occurs twice in `blocks`.
pub open spec fn unique_digests(blocks: Seq<StoredBlock>) -> bool {
    forall|i: int, j: int|
        0 <= i < j < blocks.len() ==> (#[trigger] blocks[i]).digest != (#[trigger] blocks[j]).digest
}

/// `digest` occurs in `blocks`.
pub open spec fn has_digest(blocks: Seq<StoredBlock>, digest: Seq<u8>) -> bool {
    exists|i: int| 0 <= i < blocks.len() && (#[trigger] blocks[i]).digest == digest
}

/// The place of `digest` in `blocks`, where it occurs.
pub open spec fn index_of_digest(blocks: Seq<StoredBlock>, digest: Seq<u8>) -> int {
    choose|i: int| 0 <= i < blocks.len() && (#[trigger] blocks[i]).digest == digest
}

/// Each stored block decompresses, and what comes out has the length that
/// is recorded and the digest that it is stored under.
pub open spec fn sound_blocks(blocks: Seq<StoredBlock>) -> bool {
    forall|i: int|
        0 <= i < blocks.len() ==> {
            &&& zstd_content((#[trigger] blocks[i]).compressed, Seq::empty()) is Some
            &&& zstd_content(blocks[i].compressed, Seq::empty())->0.len() == blocks[i].original_len
            &&& digest_of(zstd_content(blocks[i].compressed, Seq::empty())->0) == blocks[i].digest
        }
}

/// The sum of the compressed lengths of `blocks`.
pub open spec fn compressed_total(blocks: Seq<StoredBlock>) -> nat
    decreases blocks.len(),
{
    if blocks.len() == 0 {
        0
    } else {
        compressed_total(blocks.drop_last()) + blocks.last().compressed.len()
    }
}

/// Digest to compressed block, with insert-if-absent. The digests stand
/// in a table that finds each of them by a hashed key; the blocks stand
/// beside them in the order of their coming, which is the order in which
/// an image is written.
pub struct BlockStore {
    table: DigestTable,
    blocks: Vec<DataBlock>,
}

impl View for BlockStore {
    type V = Seq<StoredBlock>;

    closed spec fn view(&self) -> Seq<StoredBlock> {
        Seq::new(
            self.table@.len(),
            |i: int|
                StoredBlock {
                    digest: self.table@[i],
                    compressed: self.blocks@[i].compressed_data@,
                    original_len: self.blocks@[i].original_size as nat,
                },
        )
    }
}

impl BlockStore {
    /// The store is well formed: no digest occurs twice.
    pub closed spec fn wf(&self) -> bool {
        &&& self.table.wf()
        &&& self.table@.len() == self.blocks@.len()
    }

    /// Well-formedness, as callers see it.
    pub proof fn lemma_wf(&self)
        requires
            self.wf(),
        ensures
            unique_digests(self@),
            self@.len() <= usize::MAX,
            forall|i: int|
                0 <= i < self@.len() ==> (#[trigger] self@[i]).digest.len() == 32
                    && self@[i].original_len <= usize::MAX && self@[i].compressed.len()
                    <= usize::MAX,
    {
        self.table.lemma_wf();
        assert forall|i: int, j: int| 0 <= i < j < self@.len() implies (#[trigger] self@[i]).digest
            != (#[trigger] self@[j]).digest by {
            assert(self.table@[i] != self.table@[j]);
        }
        assert forall|i: int| 0 <= i < self@.len() implies (#[trigger] self@[i]).digest.len()
            == 32 && self@[i].original_len <= usize::MAX && self@[i].compressed.len()
            <= usize::MAX by {
            assert(self.table@[i].len() == 32);
            assert(self.blocks@[i].compressed_data.len() == self.blocks@[i].compressed_data@.len());
        }
    }

    /// An empty store.
    pub fn new() -> (r: Self)
        ensures
            r.wf(),
            r@ == Seq::<StoredBlock>::empty(),
    {
        let r = BlockStore { table: DigestTable::new(), blocks: Vec::new() };
        assert(r@ =~= Seq::<StoredBlock>::empty());
        r
    }

    /// Number of blocks in the store.
    pub fn len(&self) -> (r: usize)
        requires
            self.wf(),
        ensures
            r == self@.len(),
    {
        self.table.len()
    }

    /// Where `digest` is stored, if it is.
    pub fn position(&self, digest: &BlockHash) -> (r: Option<usize>)
        requires
            self.wf(),
        ensures
            match r {
                Some(i) => i < self@.len() && self@[i as int].digest == digest@,
                None => !has_digest(self@, digest@),
            },
    {
        let r = self.table.position(digest);
        proof {
            if r is None && has_digest(self@, digest@) {
                let i = index_of_digest(self@, digest@);
                assert(self.table@[i] == digest@);
            }
        }
        r
    }

    /// Whether `digest` is in the store.
    pub fn contains(&self, digest: &BlockHash) -> (r: bool)
        requires
            self.wf(),
        ensures
            r == has_digest(self@, digest@),
    {
        self.position(digest).is_some()
    }

    /// The block stored under `digest`, if there is one.
    pub fn get(&self, digest: &BlockHash) -> (r: Option<&DataBlock>)
        requires
            self.wf(),
        ensures
            match r {
                Some(b) => has_digest(self@, digest@) && b.compressed_data@ == self@[index_of_digest(
                    self@,
                    digest@,
                )].compressed && b.original_size == self@[index_of_digest(
                    self@,
                    digest@,
                )].original_len,
                None => !has_digest(self@, digest@),
            },
    {
        match self.position(digest) {
            Some(i) => {
                proof {
                    self.lemma_wf();
                    let k = index_of_digest(self@, digest@);
                    assert(self@[i as int].digest == digest@);
                    if k < i {
                        assert(self@[k].digest != self@[i as int].digest);
                    } else if k > i {
                        assert(self@[i as int].digest != self@[k].digest);
                    }
                }
                Some(&self.blocks[i])
            },
            None => None,
        }
    }

    /// The digest and the block at place `i`, in the order of insertion.
    pub fn entry(&self, i: usize) -> (r: (&BlockHash, &DataBlock))
        requires
            self.wf(),
            i < self@.len(),
        ensures
            r.0@ == self@[i as int].digest,
            r.1.compressed_data@ == self@[i as int].compressed,
            r.1.original_size == self@[i as int].original_len,
    {
        (self.table.digest(i), &self.blocks[i])
    }

    /// Stores `compressed` under `digest` unless the digest is there
    /// already, and says whether it did.
    pub fn insert_compressed(
        &mut self,
        digest: BlockHash,
        compressed: Vec<u8>,
        original_size: usize,
    ) -> (inserted: bool)
        requires
            old(self).wf(),
        ensures
            final(self).wf(),
            inserted == !has_digest(old(self)@, digest@),
            inserted ==> final(self)@ == old(self)@.push(
                StoredBlock {
                    digest: digest@,
                    compressed: compressed@,
                    original_len: original_size as nat,
                },
            ),
            !inserted ==> final(self)@ == old(self)@,
    {
        let inserted = self.table.insert(digest);
        proof {
            if has_digest(old(self)@, digest@) {
                let i = index_of_digest(old(self)@, digest@);
                assert(old(self).table@[i] == digest@);
            }
            if !inserted {
                let i = choose|i: int|
                    0 <= i < old(self).table@.len() && #[trigger] old(self).table@[i] == digest@;
                assert(old(self)@[i].digest == digest@);
            }
        }
        if !inserted {
            assert(self@ =~= old(self)@);
            return false;
        }
        self.blocks.push(DataBlock { compressed_data: compressed, original_size });
        assert(self@ =~= old(self)@.push(
            StoredBlock {
                digest: digest@,
                compressed: compressed@,
                original_len: original_size as nat,
            },
        ));
        true
    }

    /// Compresses `raw` at `level` and stores it under `digest`, unless the
    /// digest is there already: then nothing is compressed. Says whether a
    /// block was added. It fails exactly where the digest is new and the
    /// compressor gives no frame; the store then stays as it was.
    pub fn insert_if_absent(&mut self, digest: BlockHash, raw: &[u8], level: i32) -> (r: Result<
        bool,
        CompressionError,
    >)
        requires
            old(self).wf(),
        ensures
            final(self).wf(),
            r is Ok <==> has_digest(old(self)@, digest@) || zstd_frame(
                raw@,
                level as int,
                Seq::empty(),
            ) is Some,
            match r {
                Ok(inserted) => inserted == !has_digest(old(self)@, digest@) && (inserted
                    ==> final(self)@ == old(self)@.push(
                    StoredBlock {
                        digest: digest@,
                        compressed: frame_bytes(raw@, level as int, Seq::empty()),
                        original_len: raw@.len(),
                    },
                )) && (!inserted ==> final(self)@ == old(self)@),
                Err(e) => e is CompressionFailed && final(self)@ == old(self)@,
            },
            sound_blocks(old(self)@) && digest@ == digest_of(raw@) ==> sound_blocks(final(self)@),
            r == Ok::<bool, CompressionError>(true) ==> zstd_content(
                frame_bytes(raw@, level as int, Seq::empty()),
                Seq::empty(),
            ) == Some(raw@),
    {
        if self.contains(&digest) {
            return Ok(false);
        }
        let empty: Vec<u8> = Vec::new();
        match zstd_encode(raw, level, empty.as_slice()) {
            Ok(frame) => {
                let inserted = self.insert_compressed(digest, frame, raw.len());
                Ok(inserted)
            },
            Err(e) => Err(CompressionError::CompressionFailed(io_error_text(&e))),
        }
    }
}
} // verus!
