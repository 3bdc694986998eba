//! Images: a tree captured as a store of unique compressed blocks and a
//! list of file records that name them.

pub use crate::block::split_into_blocks;
use crate::block::{block_at, block_count, blocks_of, digests_of};
pub use crate::extract::extract_image;
pub use crate::hash::calculate_hash;
pub use crate::store::DataBlock;
use crate::codec::{frame_bytes, zstd_content, zstd_frame};
use crate::error::CompressionError;
pub use crate::hash::BlockHash;
use crate::hash::digest_of;
use crate::store::{compressed_total, has_digest, unique_digests, BlockStore, StoredBlock};
use crate::tree::{entry_views, EntryModel, TreeEntry};
pub use crate::zpak::{FileEntry, ImageHeader};
use crate::zpak::{
    digest_views, encode_image, image_bytes, records, writable_file, writable_image, FileRecord,
    Image, IMAGE_VERSION,
};
use vstd::utf8::*;
use vstd::prelude::*;
use vstd::string::*;

verus! {
/// What `create_image` is asked to do: where the tree is, where the image
/// goes, and the one level at which every block is compressed.
#[derive(Debug, Clone)]
pub struct ImageOptions {
    pub input_path: String,
    pub output_path: String,
    pub compression_level: i32,
}

/// What `extract_image` is asked to do: where the image is, and the root
/// under which its entries go.
#[derive(Debug, Clone)]
pub struct ExtractOptions {
    pub image_path: String,
    pub output_path: String,
}

/// The blocks of an entry's bytes; a directory has none.
pub open spec fn entry_blocks(e: EntryModel) -> Seq<Seq<u8>> {
    if e.is_directory {
        Seq::empty()
    } else {
        blocks_of(e.content)
    }
}

/// The blocks of all of `entries`, in the order of the walk.
pub open spec fn all_blocks(entries: Seq<EntryModel>) -> Seq<Seq<u8>>
    decreases entries.len(),
{
    if entries.len() == 0 {
        Seq::empty()
    } else {
        all_blocks(entries.drop_last()) + entry_blocks(entries.last())
    }
}

/// How the block `raw` is stored at `level`.
pub open spec fn stored_form(raw: Seq<u8>, level: int) -> StoredBlock {
    StoredBlock {
        digest: digest_of(raw),
        compressed: frame_bytes(raw, level, Seq::empty()),
        original_len: raw.len(),
    }
}

/// The store after the blocks `raw` were offered to it in order: each is
/// compressed and added unless its digest is there already.
pub open spec fn store_after(raw: Seq<Seq<u8>>, level: int) -> Seq<StoredBlock>
    decreases raw.len(),
{
    if raw.len() == 0 {
        Seq::empty()
    } else {
        let before = store_after(raw.drop_last(), level);
        if has_digest(before, digest_of(raw.last())) {
            before
        } else {
            before.push(stored_form(raw.last(), level))
        }
    }
}

/// The block at place `i` of `raw` gets stored when the blocks are offered
/// in order: no block before it has left its digest in the store.
pub open spec fn gets_stored(raw: Seq<Seq<u8>>, i: int, level: int) -> bool {
    !has_digest(store_after(raw.take(i), level), digest_of(raw[i]))
}

/// The compressor gives a frame for every block of `raw` that gets
/// stored.
pub open spec fn all_framed(raw: Seq<Seq<u8>>, level: int) -> bool {
    forall|i: int|
        0 <= i < raw.len() && #[trigger] gets_stored(raw, i, level) ==> zstd_frame(
            raw[i],
            level,
            Seq::empty(),
        ) is Some
}

/// The record of a tree entry: a directory has no size, time or blocks; a
/// file has the digests of its blocks in order.
pub open spec fn record_of(e: EntryModel) -> FileRecord {
    if e.is_directory {
        FileRecord {
            path: e.path,
            size: 0,
            modified: 0,
            is_directory: true,
            blocks: Seq::empty(),
        }
    } else {
        FileRecord {
            path: e.path,
            size: e.content.len() as u64,
            modified: e.modified,
            is_directory: false,
            blocks: digests_of(e.content),
        }
    }
}

/// The records of `entries`, in order.
pub open spec fn records_of(entries: Seq<EntryModel>) -> Seq<FileRecord> {
    Seq::new(entries.len(), |i: int| record_of(entries[i]))
}

/// Number of files among `entries`.
pub open spec fn file_total(entries: Seq<EntryModel>) -> nat
    decreases entries.len(),
{
    if entries.len() == 0 {
        0
    } else if entries.last().is_directory {
        file_total(entries.drop_last())
    } else {
        file_total(entries.drop_last()) + 1
    }
}

/// Number of bytes in the files among `entries`.
pub open spec fn byte_total(entries: Seq<EntryModel>) -> nat
    decreases entries.len(),
{
    if entries.len() == 0 {
        0
    } else if entries.last().is_directory {
        byte_total(entries.drop_last())
    } else {
        byte_total(entries.drop_last()) + entries.last().content.len()
    }
}

/// The totals of the image of `entries` fit their fields: the number of
/// block references, the bytes of the files, and the bytes of the stored
/// blocks.
pub open spec fn totals_fit(entries: Seq<EntryModel>, level: int) -> bool {
    &&& all_blocks(entries).len() <= u64::MAX
    &&& byte_total(entries) <= u64::MAX
    &&& compressed_total(store_after(all_blocks(entries), level)) <= u64::MAX
}

/// The image of `entries` at `level`, made at the time `created`.
pub open spec fn image_of(entries: Seq<EntryModel>, level: int, created: u64) -> Image {
    let blocks = store_after(all_blocks(entries), level);
    Image {
        header: ImageHeader {
            version: IMAGE_VERSION,
            created,
            total_files: file_total(entries) as u64,
            total_size: byte_total(entries) as u64,
            compressed_size: compressed_total(blocks) as u64,
            block_count: blocks.len() as u64,
        },
        blocks,
        files: records_of(entries),
    }
}

/// The stored block `b` holds the raw block `raw`: it decompresses to it,
/// records its length, and is stored under its digest.
pub open spec fn decodes_to(b: StoredBlock, raw: Seq<u8>) -> bool {
    &&& zstd_content(b.compressed, Seq::empty()) == Some(raw)
    &&& digest_of(raw) == b.digest
    &&& raw.len() == b.original_len
}

/// The stored block `b` holds one of the blocks `raw`.
pub open spec fn holds_one(b: StoredBlock, raw: Seq<Seq<u8>>) -> bool {
    exists|i: int| 0 <= i < raw.len() && decodes_to(b, #[trigger] raw[i])
}

/// Every stored block holds one of the blocks `raw`.
pub open spec fn faithful(blocks: Seq<StoredBlock>, raw: Seq<Seq<u8>>) -> bool {
    forall|k: int| 0 <= k < blocks.len() ==> holds_one(#[trigger] blocks[k], raw)
}

/// Blocks that were held stay held when more blocks are offered.
pub proof fn lemma_faithful_more(blocks: Seq<StoredBlock>, raw: Seq<Seq<u8>>, more: Seq<Seq<u8>>)
    requires
        faithful(blocks, raw),
    ensures
        faithful(blocks, raw + more),
{
    assert forall|k: int| 0 <= k < blocks.len() implies holds_one(
        #[trigger] blocks[k],
        raw + more,
    ) by {
        let i = choose|i: int| 0 <= i < raw.len() && decodes_to(blocks[k], #[trigger] raw[i]);
        assert((raw + more)[i] == raw[i]);
    }
}

/// A store that takes in a block which it holds stays faithful.
pub proof fn lemma_faithful_push(
    blocks: Seq<StoredBlock>,
    raw: Seq<Seq<u8>>,
    b: StoredBlock,
    r: Seq<u8>,
)
    requires
        faithful(blocks, raw),
        decodes_to(b, r),
    ensures
        faithful(blocks.push(b), raw.push(r)),
{
    lemma_faithful_more(blocks, raw, seq![r]);
    assert(raw + seq![r] =~= raw.push(r));
    assert forall|k: int| 0 <= k < blocks.push(b).len() implies holds_one(
        #[trigger] blocks.push(b)[k],
        raw.push(r),
    ) by {
        if k == blocks.len() {
            assert(raw.push(r)[raw.len() as int] == r);
        }
    }
}

/// The store never holds a digest twice, and holds the digest of every
/// block that was offered.
pub proof fn lemma_store_after(raw: Seq<Seq<u8>>, level: int)
    ensures
        unique_digests(store_after(raw, level)),
        store_after(raw, level).len() <= raw.len(),
        forall|i: int|
            0 <= i < raw.len() ==> has_digest(store_after(raw, level), digest_of(#[trigger] raw[i])),
    decreases raw.len(),
{
    if raw.len() > 0 {
        let init = raw.drop_last();
        lemma_store_after(init, level);
        let before = store_after(init, level);
        let after = store_after(raw, level);
        let d = digest_of(raw.last());
        assert forall|i: int| 0 <= i < raw.len() implies has_digest(
            after,
            digest_of(#[trigger] raw[i]),
        ) by {
            if i < init.len() {
                let k = choose|k: int|
                    0 <= k < before.len() && (#[trigger] before[k]).digest == digest_of(init[i]);
                assert(after[k].digest == digest_of(raw[i]));
            } else if !has_digest(before, d) {
                assert(after[before.len() as int].digest == d);
            }
        }
    }
}

/// No two different blocks among `raw` share a digest.
pub open spec fn collision_free(raw: Seq<Seq<u8>>) -> bool {
    forall|i: int, j: int|
        0 <= i < raw.len() && 0 <= j < raw.len() && digest_of(#[trigger] raw[i]) == digest_of(
            #[trigger] raw[j],
        ) ==> raw[i] == raw[j]
}

/// The stored block `b` is the stored form of one of the blocks `raw`.
pub open spec fn stores_one(b: StoredBlock, raw: Seq<Seq<u8>>, level: int) -> bool {
    exists|i: int| 0 <= i < raw.len() && b == stored_form(#[trigger] raw[i], level)
}

/// Every block of the store is the stored form of a block that was
/// offered.
pub proof fn lemma_store_holds_offered(raw: Seq<Seq<u8>>, level: int)
    ensures
        forall|k: int|
            0 <= k < store_after(raw, level).len() ==> stores_one(
                #[trigger] store_after(raw, level)[k],
                raw,
                level,
            ),
    decreases raw.len(),
{
    if raw.len() > 0 {
        let init = raw.drop_last();
        lemma_store_holds_offered(init, level);
        let before = store_after(init, level);
        let after = store_after(raw, level);
        assert forall|k: int| 0 <= k < after.len() implies stores_one(
            #[trigger] after[k],
            raw,
            level,
        ) by {
            if k < before.len() {
                assert(stores_one(before[k], init, level));
                let i = choose|i: int|
                    0 <= i < init.len() && before[k] == stored_form(#[trigger] init[i], level);
                assert(raw[i] == init[i]);
            } else {
                assert(after[k] == stored_form(raw[raw.len() - 1], level));
            }
        }
    }
}

/// Where no two different blocks share a digest, the store holds as many
/// blocks as there are different blocks among those that were offered:
/// each content once, however often it occurs and in however many files.
pub proof fn lemma_store_counts_distinct(raw: Seq<Seq<u8>>, level: int)
    requires
        collision_free(raw),
    ensures
        store_after(raw, level).len() == raw.to_set().len(),
    decreases raw.len(),
{
    broadcast use vstd::seq_lib::seq_to_set_is_finite;

    if raw.len() == 0 {
        assert(raw.to_set() =~= Set::<Seq<u8>>::empty());
    } else {
        let init = raw.drop_last();
        let last = raw.last();
        assert(init.push(last) =~= raw);
        assert forall|i: int, j: int|
            0 <= i < init.len() && 0 <= j < init.len() && digest_of(#[trigger] init[i])
                == digest_of(#[trigger] init[j]) implies init[i] == init[j] by {
            assert(raw[i] == init[i] && raw[j] == init[j]);
        }
        lemma_store_counts_distinct(init, level);
        lemma_store_after(init, level);
        lemma_store_holds_offered(init, level);
        init.lemma_push_to_set_commute(last);
        let before = store_after(init, level);
        if has_digest(before, digest_of(last)) {
            let k = choose|k: int|
                0 <= k < before.len() && (#[trigger] before[k]).digest == digest_of(last);
            assert(stores_one(before[k], init, level));
            let i = choose|i: int|
                0 <= i < init.len() && before[k] == stored_form(#[trigger] init[i], level);
            assert(raw[i] == init[i]);
            assert(digest_of(raw[i]) == digest_of(raw[raw.len() - 1]));
            assert(init[i] == last);
            assert(init.to_set().contains(last));
            assert(init.to_set().insert(last) =~= init.to_set());
        } else {
            if init.to_set().contains(last) {
                let i = choose|i: int| 0 <= i < init.len() && init[i] == last;
                assert(has_digest(before, digest_of(init[i])));
            }
            assert(!init.to_set().contains(last));
        }
    }
}

/// The block `b` occurs among `raw`.
pub open spec fn occurs(raw: Seq<Seq<u8>>, b: Seq<u8>) -> bool {
    exists|i: int| 0 <= i < raw.len() && #[trigger] raw[i] == b
}

/// Every block of every file among `entries` occurs among their blocks.
pub proof fn lemma_all_blocks_member(entries: Seq<EntryModel>, i: int, j: int)
    requires
        0 <= i < entries.len(),
        !entries[i].is_directory,
        0 <= j < block_count(entries[i].content.len()),
    ensures
        occurs(all_blocks(entries), block_at(entries[i].content, j)),
    decreases entries.len(),
{
    let init = entries.drop_last();
    let all = all_blocks(entries);
    if i == entries.len() - 1 {
        let at = all_blocks(init).len() + j;
        assert(all[at] == blocks_of(entries[i].content)[j]);
    } else {
        lemma_all_blocks_member(init, i, j);
        let b = block_at(init[i].content, j);
        let at = choose|at: int| 0 <= at < all_blocks(init).len() && #[trigger] all_blocks(init)[at] == b;
        assert(all[at] == b);
    }
}

/// Equal bytes are stored once: whatever blocks are offered, the store
/// holds the digest of each of them exactly once, and two blocks with the
/// same bytes are referenced by the same digest.
pub proof fn lemma_equal_blocks_stored_once(raw: Seq<Seq<u8>>, level: int, i: int, j: int)
    requires
        0 <= i < raw.len(),
        0 <= j < raw.len(),
        raw[i] == raw[j],
    ensures
        digest_of(raw[i]) == digest_of(raw[j]),
        has_digest(store_after(raw, level), digest_of(raw[i])),
        forall|a: int, b: int|
            0 <= a < store_after(raw, level).len() && 0 <= b < store_after(raw, level).len()
                && (#[trigger] store_after(raw, level)[a]).digest == digest_of(raw[i]) && (
            #[trigger] store_after(raw, level)[b]).digest == digest_of(raw[i]) ==> a == b,
{
    lemma_store_after(raw, level);
}

/// Two files with the same bytes get the same list of digests, and the
/// store holds no more blocks than it was offered.
pub proof fn lemma_equal_files_share_blocks(entries: Seq<EntryModel>, level: int, a: int, b: int)
    requires
        0 <= a < entries.len(),
        0 <= b < entries.len(),
        !entries[a].is_directory,
        !entries[b].is_directory,
        entries[a].content == entries[b].content,
    ensures
        records_of(entries)[a].blocks == records_of(entries)[b].blocks,
        store_after(all_blocks(entries), level).len() <= all_blocks(entries).len(),
        unique_digests(store_after(all_blocks(entries), level)),
{
    lemma_store_after(all_blocks(entries), level);
}

/// Where every block that gets stored has a frame, so has every block
/// that gets stored among the first `k`.
pub proof fn lemma_framed_prefix(raw: Seq<Seq<u8>>, k: int, level: int)
    requires
        0 <= k <= raw.len(),
        all_framed(raw, level),
    ensures
        all_framed(raw.take(k), level),
{
    let head = raw.take(k);
    assert forall|i: int|
        0 <= i < head.len() && #[trigger] gets_stored(head, i, level) implies zstd_frame(
        head[i],
        level,
        Seq::empty(),
    ) is Some by {
        assert(head.take(i) =~= raw.take(i));
        assert(gets_stored(raw, i, level));
        assert(head[i] == raw[i]);
    }
}

/// One more block leaves every stored block with a frame exactly where
/// the blocks before it did, and its digest is stored already or the
/// compressor gives a frame for it.
pub proof fn lemma_framed_push(raw: Seq<Seq<u8>>, block: Seq<u8>, level: int)
    ensures
        all_framed(raw.push(block), level) <==> all_framed(raw, level) && (has_digest(
            store_after(raw, level),
            digest_of(block),
        ) || zstd_frame(block, level, Seq::empty()) is Some),
{
    let more = raw.push(block);
    assert(more.take(raw.len() as int) =~= raw);
    if all_framed(more, level) {
        lemma_framed_prefix(more, raw.len() as int, level);
        assert(gets_stored(more, raw.len() as int, level) ==> zstd_frame(
            more[raw.len() as int],
            level,
            Seq::empty(),
        ) is Some);
    }
    if all_framed(raw, level) && (has_digest(store_after(raw, level), digest_of(block))
        || zstd_frame(block, level, Seq::empty()) is Some) {
        assert forall|i: int|
            0 <= i < more.len() && #[trigger] gets_stored(more, i, level) implies zstd_frame(
            more[i],
            level,
            Seq::empty(),
        ) is Some by {
            if i < raw.len() {
                assert(more.take(i) =~= raw.take(i));
                assert(gets_stored(raw, i, level));
                assert(more[i] == raw[i]);
            }
        }
    }
}

/// The store only grows: what the first `k` blocks leave in it weighs no
/// more than what all of them leave.
pub proof fn lemma_store_grows(raw: Seq<Seq<u8>>, k: int, level: int)
    requires
        0 <= k <= raw.len(),
    ensures
        compressed_total(store_after(raw.take(k), level)) <= compressed_total(
            store_after(raw, level),
        ),
    decreases raw.len(),
{
    if k == raw.len() {
        assert(raw.take(k) =~= raw);
    } else {
        let init = raw.drop_last();
        assert(init.take(k) =~= raw.take(k));
        lemma_store_grows(init, k, level);
        let before = store_after(init, level);
        if !has_digest(before, digest_of(raw.last())) {
            assert(before.push(stored_form(raw.last(), level)).drop_last() =~= before);
        }
    }
}

/// The blocks of the first `i` entries start the blocks of all of them,
/// and their bytes are no more.
pub proof fn lemma_blocks_prefix(entries: Seq<EntryModel>, i: int)
    requires
        0 <= i <= entries.len(),
    ensures
        all_blocks(entries.take(i)).len() <= all_blocks(entries).len(),
        all_blocks(entries.take(i)) == all_blocks(entries).take(
            all_blocks(entries.take(i)).len() as int,
        ),
        byte_total(entries.take(i)) <= byte_total(entries),
    decreases entries.len(),
{
    if i == entries.len() {
        assert(entries.take(i) =~= entries);
        assert(all_blocks(entries).take(all_blocks(entries).len() as int) =~= all_blocks(entries));
    } else {
        let init = entries.drop_last();
        assert(init.take(i) =~= entries.take(i));
        lemma_blocks_prefix(init, i);
        let n = all_blocks(entries.take(i)).len() as int;
        assert(all_blocks(entries).take(n) =~= all_blocks(init).take(n));
    }
}

/// Where the first `i` entries cannot be made an image, neither can all
/// of them: a block without a frame stays without one, and a total that
/// is out of range stays so.
pub proof fn lemma_prefix_decides(entries: Seq<EntryModel>, i: int, level: int)
    requires
        0 <= i <= entries.len(),
    ensures
        all_framed(all_blocks(entries), level) ==> all_framed(
            all_blocks(entries.take(i)),
            level,
        ),
        totals_fit(entries, level) ==> totals_fit(entries.take(i), level),
{
    lemma_blocks_prefix(entries, i);
    let n = all_blocks(entries.take(i)).len() as int;
    if all_framed(all_blocks(entries), level) {
        lemma_framed_prefix(all_blocks(entries), n, level);
    }
    lemma_store_grows(all_blocks(entries), n, level);
}

/// What the block at place `j` of `bs`, offered after `raw0` and the
/// blocks before it, decides for all of them.
proof fn lemma_block_decides(raw0: Seq<Seq<u8>>, bs: Seq<Seq<u8>>, j: int, level: int)
    requires
        0 <= j < bs.len(),
    ensures
        all_framed(raw0 + bs.take(j + 1), level) <==> all_framed(raw0 + bs.take(j), level) && (
        has_digest(store_after(raw0 + bs.take(j), level), digest_of(bs[j])) || zstd_frame(
            bs[j],
            level,
            Seq::empty(),
        ) is Some),
        all_framed(raw0 + bs, level) ==> all_framed(raw0 + bs.take(j + 1), level),
        compressed_total(store_after(raw0 + bs.take(j + 1), level)) <= compressed_total(
            store_after(raw0 + bs, level),
        ),
{
    assert(raw0 + bs.take(j + 1) =~= (raw0 + bs.take(j)).push(bs[j]));
    assert((raw0 + bs).take(raw0.len() + j + 1) =~= raw0 + bs.take(j + 1));
    lemma_framed_push(raw0 + bs.take(j), bs[j], level);
    lemma_store_grows(raw0 + bs, raw0.len() + j + 1, level);
    if all_framed(raw0 + bs, level) {
        lemma_framed_prefix(raw0 + bs, raw0.len() + j + 1, level);
    }
}

/// Offers one block to the store and keeps the sum of the compressed
/// lengths.
fn offer_block(
    store: &mut BlockStore,
    compressed_size: u64,
    digest: BlockHash,
    block: &[u8],
    level: i32,
    Ghost(raw): Ghost<Seq<Seq<u8>>>,
) -> (r: Result<u64, CompressionError>)
    requires
        old(store).wf(),
        old(store)@ == store_after(raw, level as int),
        faithful(old(store)@, raw),
        compressed_size == compressed_total(old(store)@),
        digest@ == digest_of(block@),
    ensures
        match r {
            Ok(total) => final(store).wf() && final(store)@ == store_after(
                raw.push(block@),
                level as int,
            ) && faithful(final(store)@, raw.push(block@)) && total == compressed_total(
                final(store)@,
            ) && (final(store)@ == old(store)@ || final(store)@ == old(store)@.push(
                stored_form(block@, level as int),
            )) && (has_digest(old(store)@, digest@) || zstd_frame(
                block@,
                level as int,
                Seq::empty(),
            ) is Some),
            Err(CompressionError::CompressionFailed(_)) => !has_digest(old(store)@, digest@)
                && zstd_frame(block@, level as int, Seq::empty()) is None,
            Err(CompressionError::InvalidFormat) => compressed_total(
                store_after(raw.push(block@), level as int),
            ) > u64::MAX,
            Err(_) => false,
        },
        has_digest(old(store)@, digest@) ==> r is Ok,
{
    let ghost before = store@;
    proof {
        assert(raw.push(block@).drop_last() =~= raw);
    }
    let inserted = match store.insert_if_absent(digest, block, level) {
        Ok(x) => x,
        Err(e) => { return Err(e); },
    };
    if !inserted {
        return Ok(compressed_size);
    }
    let added = store.entry(store.len() - 1).1.compressed_data.len() as u64;
    proof {
        let stored = stored_form(block@, level as int);
        assert(before.push(stored).drop_last() =~= before);
        lemma_faithful_push(before, raw, stored, block@);
    }
    match compressed_size.checked_add(added) {
        Some(x) => Ok(x),
        None => Err(CompressionError::InvalidFormat),
    }
}

/// The digest of every block of `content` is stored in `blocks`.
pub open spec fn all_stored(blocks: Seq<StoredBlock>, content: Seq<u8>) -> bool {
    forall|j: int|
        0 <= j < block_count(content.len()) ==> has_digest(
            blocks,
            digest_of(#[trigger] block_at(content, j)),
        )
}

/// Offers the blocks of `content` to the store in order, and gives their
/// digests, the new sum of the compressed lengths and the new number of
/// block references.
fn store_blocks(
    store: &mut BlockStore,
    compressed_size: u64,
    block_refs: u64,
    content: &[u8],
    level: i32,
    Ghost(raw0): Ghost<Seq<Seq<u8>>>,
) -> (r: Result<(Vec<BlockHash>, u64, u64), CompressionError>)
    requires
        old(store).wf(),
        old(store)@ == store_after(raw0, level as int),
        faithful(old(store)@, raw0),
        compressed_size == compressed_total(old(store)@),
        block_refs == raw0.len(),
        all_framed(raw0, level as int),
    ensures
        match r {
            Ok((digests, total, refs)) => {
                &&& final(store).wf()
                &&& final(store)@ == store_after(raw0 + blocks_of(content@), level as int)
                &&& faithful(final(store)@, raw0 + blocks_of(content@))
                &&& total == compressed_total(final(store)@)
                &&& refs == raw0.len() + blocks_of(content@).len()
                &&& digest_views(digests@) == digests_of(content@)
                &&& all_framed(raw0 + blocks_of(content@), level as int)
            },
            Err(CompressionError::CompressionFailed(_)) => !all_framed(
                raw0 + blocks_of(content@),
                level as int,
            ),
            Err(CompressionError::InvalidFormat) => raw0.len() + blocks_of(content@).len()
                > u64::MAX || compressed_total(
                store_after(raw0 + blocks_of(content@), level as int),
            ) > u64::MAX,
            Err(_) => false,
        },
        all_stored(old(store)@, content@) && raw0.len() + block_count(content@.len()) <= u64::MAX
            ==> r is Ok,
{
    let ghost start = store@;
    let ghost bs = blocks_of(content@);
    let pairs = split_into_blocks(content);
    let n = pairs.len();
    let mut digests: Vec<BlockHash> = Vec::new();
    let mut total = compressed_size;
    let mut refs = block_refs;
    let mut j: usize = 0;
    while j < n
        invariant
            n == pairs@.len(),
            n == block_count(content@.len()),
            bs == blocks_of(content@),
            forall|i: int|
                0 <= i < n ==> (#[trigger] pairs@[i]).1@ == block_at(content@, i) && pairs@[i].0@
                    == digest_of(block_at(content@, i)),
            j <= n,
            store.wf(),
            store@ == store_after(raw0 + bs.take(j as int), level as int),
            faithful(store@, raw0 + bs.take(j as int)),
            total == compressed_total(store@),
            refs == raw0.len() + j,
            digests@.len() == j,
            forall|i: int| 0 <= i < j ==> (#[trigger] digests@[i])@ == digest_of(block_at(content@, i)),
            start == old(store)@,
            start.len() <= store@.len(),
            forall|k: int| 0 <= k < start.len() ==> #[trigger] store@[k] == start[k],
            all_stored(start, content@) && raw0.len() + block_count(content@.len()) <= u64::MAX
                ==> refs + (n - j) <= u64::MAX,
            all_framed(raw0 + bs.take(j as int), level as int),
            bs.len() == n,
        decreases n - j,
    {
        let digest = pairs[j].0;
        proof {
            assert(raw0 + bs.take(j + 1) =~= (raw0 + bs.take(j as int)).push(bs[j as int]));
            lemma_block_decides(raw0, bs, j as int, level as int);
            if all_stored(start, content@) {
                let d = digest_of(block_at(content@, j as int));
                let k = choose|k: int| 0 <= k < start.len() && (#[trigger] start[k]).digest == d;
                assert(store@[k].digest == d);
            }
        }
        total = match offer_block(
            store,
            total,
            digest,
            pairs[j].1.as_slice(),
            level,
            Ghost(raw0 + bs.take(j as int)),
        ) {
            Ok(x) => x,
            Err(e) => { return Err(e); },
        };
        refs = match refs.checked_add(1) {
            Some(x) => x,
            None => { return Err(CompressionError::InvalidFormat); },
        };
        digests.push(digest);
        j += 1;
    }
    proof {
        assert(bs.take(n as int) =~= bs);
    }
    Ok((digests, total, refs))
}

/// The records of a list with one more entry.
proof fn lemma_records_push(files: Seq<FileEntry>, f: FileEntry)
    ensures
        records(files.push(f)) == records(files).push(f@),
{
}

/// What one more entry adds to the blocks, the totals and the records.
pub proof fn lemma_entries_push(entries: Seq<EntryModel>, e: EntryModel)
    ensures
        all_blocks(entries.push(e)) == all_blocks(entries) + entry_blocks(e),
        file_total(entries.push(e)) == file_total(entries) + if e.is_directory {
            0nat
        } else {
            1nat
        },
        byte_total(entries.push(e)) == byte_total(entries) + if e.is_directory {
            0
        } else {
            e.content.len()
        },
        records_of(entries.push(e)) == records_of(entries).push(record_of(e)),
{
    assert(entries.push(e).drop_last() =~= entries);
}

/// Builds an image entry by entry, so that only one file's bytes need to
/// be at hand at a time.
pub struct ImageBuilder {
    level: i32,
    store: BlockStore,
    files: Vec<FileEntry>,
    total_files: u64,
    total_size: u64,
    compressed_size: u64,
    block_refs: u64,
    entries: Ghost<Seq<EntryModel>>,
}

impl ImageBuilder {
    /// The entries added so far.
    pub closed spec fn entries(&self) -> Seq<EntryModel> {
        self.entries@
    }

    /// The level at which blocks are compressed.
    pub closed spec fn level(&self) -> int {
        self.level as int
    }

    /// The blocks stored so far.
    pub closed spec fn blocks(&self) -> Seq<StoredBlock> {
        self.store@
    }

    /// The builder holds what adding its entries one by one gives.
    pub closed spec fn wf(&self) -> bool {
        &&& self.store.wf()
        &&& self.store@ == store_after(all_blocks(self.entries@), self.level as int)
        &&& faithful(self.store@, all_blocks(self.entries@))
        &&& records(self.files@) == records_of(self.entries@)
        &&& self.total_files == file_total(self.entries@)
        &&& self.total_files <= self.files@.len()
        &&& self.total_size == byte_total(self.entries@)
        &&& self.compressed_size == compressed_total(self.store@)
        &&& self.block_refs == all_blocks(self.entries@).len()
        &&& all_framed(all_blocks(self.entries@), self.level as int)
        &&& forall|i: int|
            0 <= i < self.entries@.len() ==> encode_utf8((#[trigger] self.entries@[i]).path).len()
                <= usize::MAX
    }

    /// What a well-formed builder holds, as callers see it: the store that
    /// its entries give, faithful to their blocks, and an image that can be
    /// written, with totals that fit their fields.
    pub proof fn lemma_wf(&self, created: u64)
        requires
            self.wf(),
        ensures
            self.blocks() == store_after(all_blocks(self.entries()), self.level()),
            faithful(self.blocks(), all_blocks(self.entries())),
            file_total(self.entries()) <= u64::MAX,
            byte_total(self.entries()) <= u64::MAX,
            compressed_total(self.blocks()) <= u64::MAX,
            all_blocks(self.entries()).len() <= u64::MAX,
            all_framed(all_blocks(self.entries()), self.level()),
            totals_fit(self.entries(), self.level()),
            writable_image(image_of(self.entries(), self.level(), created)),
    {
        let img = image_of(self.entries@, self.level as int, created);
        self.store.lemma_wf();
        assert(self.files.len() == self.files@.len());
        assert forall|i: int| 0 <= i < img.files.len() implies writable_file(
            #[trigger] img.files[i],
        ) by {
            assert(records(self.files@)[i] == self.files@[i]@);
            assert(self.files@[i].blocks.len() == self.files@[i].blocks@.len());
        }
    }

    /// A builder with no entries, for blocks compressed at `level`.
    pub fn new(level: i32) -> (r: Self)
        ensures
            r.wf(),
            r.level() == level,
            r.entries() == Seq::<EntryModel>::empty(),
    {
        let r = ImageBuilder {
            level,
            store: BlockStore::new(),
            files: Vec::new(),
            total_files: 0,
            total_size: 0,
            compressed_size: 0,
            block_refs: 0,
            entries: Ghost(Seq::empty()),
        };
        assert(records(r.files@) =~= records_of(r.entries@));
        r
    }

    /// Number of blocks stored so far: each is a block whose digest had not
    /// been seen.
    pub fn unique_blocks(&self) -> (r: u64)
        requires
            self.wf(),
        ensures
            r == store_after(all_blocks(self.entries()), self.level()).len(),
    {
        self.store.len() as u64
    }

    /// Number of block references that found their digest stored already.
    pub fn duplicate_blocks(&self) -> (r: u64)
        requires
            self.wf(),
        ensures
            r == all_blocks(self.entries()).len() - store_after(
                all_blocks(self.entries()),
                self.level(),
            ).len(),
    {
        proof {
            lemma_store_after(all_blocks(self.entries@), self.level as int);
        }
        self.block_refs - self.store.len() as u64
    }

    /// Adds a directory.
    pub fn add_directory(self, path: String) -> (r: Self)
        requires
            self.wf(),
        ensures
            r.wf(),
            r.level() == self.level(),
            r.entries() == self.entries().push(
                EntryModel { path: path@, is_directory: true, modified: 0, content: Seq::empty() },
            ),
    {
        let ghost e = EntryModel {
            path: path@,
            is_directory: true,
            modified: 0,
            content: Seq::empty(),
        };
        self.push_directory(path, Ghost(e))
    }

    /// Adds the directory that `e` stands for.
    fn push_directory(self, path: String, Ghost(e): Ghost<EntryModel>) -> (r: Self)
        requires
            self.wf(),
            e.is_directory,
            e.path == path@,
        ensures
            r.wf(),
            r.level() == self.level(),
            r.entries() == self.entries().push(e),
    {
        let ImageBuilder {
            level,
            store,
            files,
            total_files,
            total_size,
            compressed_size,
            block_refs,
            entries,
        } = self;
        let mut files = files;
        let path_len = path.as_str().as_bytes().len();
        assert(encode_utf8(e.path).len() == path_len);
        let f = FileEntry { path, size: 0, modified: 0, is_directory: true, blocks: Vec::new() };
        proof {
            assert(digest_views(f.blocks@) =~= Seq::<Seq<u8>>::empty());
            lemma_records_push(files@, f);
            lemma_entries_push(entries@, e);
        }
        files.push(f);
        ImageBuilder {
            level,
            store,
            files,
            total_files,
            total_size,
            compressed_size,
            block_refs,
            entries: Ghost(entries@.push(e)),
        }
    }

    /// Adds a file: splits `content` into blocks, stores each block whose
    /// digest is new, and records the digests in order. It fails with
    /// `CompressionFailed` where the compressor gives no frame for a block
    /// that gets stored, and with `InvalidFormat` where a total leaves the
    /// 64-bit range; the build is then over.
    pub fn add_file(self, path: String, modified: u64, content: &[u8]) -> (r: Result<
        Self,
        CompressionError,
    >)
        requires
            self.wf(),
        ensures
            match r {
                Ok(b) => b.wf() && b.level() == self.level() && b.entries() == self.entries().push(
                    EntryModel { path: path@, is_directory: false, modified, content: content@ },
                ),
                Err(CompressionError::CompressionFailed(_)) => !all_framed(
                    all_blocks(
                        self.entries().push(
                            EntryModel {
                                path: path@,
                                is_directory: false,
                                modified,
                                content: content@,
                            },
                        ),
                    ),
                    self.level(),
                ),
                Err(CompressionError::InvalidFormat) => !totals_fit(
                    self.entries().push(
                        EntryModel { path: path@, is_directory: false, modified, content: content@ },
                    ),
                    self.level(),
                ),
                Err(_) => false,
            },
            r is Ok <==> all_framed(
                all_blocks(
                    self.entries().push(
                        EntryModel { path: path@, is_directory: false, modified, content: content@ },
                    ),
                ),
                self.level(),
            ) && totals_fit(
                self.entries().push(
                    EntryModel { path: path@, is_directory: false, modified, content: content@ },
                ),
                self.level(),
            ),
            all_stored(self.blocks(), content@) && all_blocks(self.entries()).len() + block_count(
                content@.len(),
            ) <= u64::MAX && byte_total(self.entries()) + content@.len() <= u64::MAX ==> r is Ok,
    {
        let ghost e = EntryModel { path: path@, is_directory: false, modified, content: content@ };
        let ghost raw0 = all_blocks(self.entries@);
        proof {
            lemma_entries_push(self.entries@, e);
        }
        let ImageBuilder {
            level,
            store,
            files,
            total_files,
            total_size,
            compressed_size,
            block_refs,
            entries,
        } = self;
        let mut store = store;
        let mut files = files;
        let (digests, compressed_size, block_refs) = match store_blocks(
            &mut store,
            compressed_size,
            block_refs,
            content,
            level,
            Ghost(raw0),
        ) {
            Ok(x) => x,
            Err(e) => { return Err(e); },
        };
        let total_size = match total_size.checked_add(content.len() as u64) {
            Some(x) => x,
            None => { return Err(CompressionError::InvalidFormat); },
        };
        let ghost before = files@;
        let path_len = path.as_str().as_bytes().len();
        assert(encode_utf8(e.path).len() == path_len);
        let f = FileEntry {
            path,
            size: content.len() as u64,
            modified,
            is_directory: false,
            blocks: digests,
        };
        proof {
            lemma_records_push(before, f);
            lemma_entries_push(entries@, e);
        }
        files.push(f);
        let count = files.len();
        assert(total_files < count);
        Ok(
            ImageBuilder {
                level,
                store,
                files,
                total_files: total_files + 1,
                total_size,
                compressed_size,
                block_refs,
                entries: Ghost(entries@.push(e)),
            },
        )
    }

    /// Adds a tree entry: a directory, or a file with its bytes.
    pub fn add_entry(self, entry: &TreeEntry) -> (r: Result<Self, CompressionError>)
        requires
            self.wf(),
        ensures
            match r {
                Ok(b) => b.wf() && b.level() == self.level() && b.entries() == self.entries().push(
                    entry@,
                ),
                Err(CompressionError::CompressionFailed(_)) => !all_framed(
                    all_blocks(self.entries().push(entry@)),
                    self.level(),
                ),
                Err(CompressionError::InvalidFormat) => !totals_fit(
                    self.entries().push(entry@),
                    self.level(),
                ),
                Err(_) => false,
            },
            r is Ok <==> all_framed(all_blocks(self.entries().push(entry@)), self.level())
                && totals_fit(self.entries().push(entry@), self.level()),
            entry.is_directory || (all_stored(self.blocks(), entry.content@) && all_blocks(
                self.entries(),
            ).len() + block_count(entry.content@.len()) <= u64::MAX && byte_total(self.entries())
                + entry.content@.len() <= u64::MAX) ==> r is Ok,
    {
        if entry.is_directory {
            Ok(self.push_directory(entry.path.clone(), Ghost(entry@)))
        } else {
            self.add_file(entry.path.clone(), entry.modified, entry.content.as_slice())
        }
    }

    /// Writes the image of the entries added so far, with `created` as the
    /// time it was made.
    pub fn finish(self, created: u64) -> (r: Vec<u8>)
        requires
            self.wf(),
        ensures
            r@ == image_bytes(image_of(self.entries(), self.level(), created)),
    {
        let header = ImageHeader {
            version: IMAGE_VERSION,
            created,
            total_files: self.total_files,
            total_size: self.total_size,
            compressed_size: self.compressed_size,
            block_count: self.store.len() as u64,
        };
        encode_image(&header, &self.store, &self.files)
    }
}

/// Captures `tree` as an image: every file is split into blocks, each
/// block is compressed once at the level that `options` names, however
/// often it occurs, and the header is computed when the walk is done.
/// `created` is the time of the capture, in seconds. The image is made
/// exactly where the compressor gives a frame for every block that gets
/// stored and the totals fit their fields: `CompressionFailed` says that
/// a block has no frame, `InvalidFormat` that a total is out of range.
pub fn create_image(options: &ImageOptions, tree: &Vec<TreeEntry>, created: u64) -> (r: Result<
    Vec<u8>,
    CompressionError,
>)
    ensures
        match r {
            Ok(bytes) => {
                let entries = entry_views(tree@);
                let level = options.compression_level as int;
                &&& bytes@ == image_bytes(image_of(entries, level, created))
                &&& writable_image(image_of(entries, level, created))
                &&& faithful(store_after(all_blocks(entries), level), all_blocks(entries))
                &&& file_total(entries) <= u64::MAX
                &&& byte_total(entries) <= u64::MAX
                &&& compressed_total(store_after(all_blocks(entries), level)) <= u64::MAX
            },
            Err(CompressionError::CompressionFailed(_)) => !all_framed(
                all_blocks(entry_views(tree@)),
                options.compression_level as int,
            ),
            Err(CompressionError::InvalidFormat) => !totals_fit(
                entry_views(tree@),
                options.compression_level as int,
            ),
            Err(_) => false,
        },
        r is Ok <==> all_framed(all_blocks(entry_views(tree@)), options.compression_level as int)
            && totals_fit(entry_views(tree@), options.compression_level as int),
        (forall|i: int|
            0 <= i < tree@.len() ==> (#[trigger] tree@[i]).is_directory || tree@[i].content@.len()
                == 0) ==> r is Ok,
{
    let n = tree.len();
    let ghost entries = entry_views(tree@);
    let mut builder = ImageBuilder::new(options.compression_level);
    let mut i: usize = 0;
    while i < n
        invariant
            n == tree@.len(),
            entries == entry_views(tree@),
            i <= n,
            builder.wf(),
            builder.level() == options.compression_level,
            builder.entries() == entries.take(i as int),
        decreases n - i,
    {
        proof {
            assert(entries.take(i as int).push(entries[i as int]) =~= entries.take(i + 1));
            lemma_prefix_decides(entries, i + 1, options.compression_level as int);
        }
        builder = match builder.add_entry(&tree[i]) {
            Ok(b) => b,
            Err(e) => { return Err(e); },
        };
        i += 1;
    }
    proof {
        assert(entries.take(n as int) =~= entries);
        builder.lemma_wf(created);
    }
    Ok(builder.finish(created))
}
} // verus!
