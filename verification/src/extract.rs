//! Reading the entries back out of an image.

use crate::block::{block_at, block_count, blocks_of, digests_of, lemma_blocks_cover};
use crate::codec::{zstd_content, zstd_decode};
use crate::hash::digest_of;
pub use crate::image::collision_free;
use crate::image::{
    all_blocks, faithful, image_of, lemma_all_blocks_member, lemma_store_after, occurs,
    records_of, store_after,
};
use crate::path::stays_as_it_is;
use crate::tree::{restored_all, EntryModel};
use crate::wire::concat;
use crate::zpak::{image_bytes, lemma_parse_image_written, writable_image};
use crate::error::{io_error_text, DecompressionError};
use crate::hash::BlockHash;
use crate::path::{sanitize_path, sanitized};
use crate::store::{has_digest, index_of_digest, StoredBlock};
use crate::tree::{extracted_views, ExtractedEntry, ExtractedModel};
use crate::wire::put_bytes;
use crate::zpak::{digest_views, parse_image, parse_image_index, FileRecord, ImageIndex};
use vstd::prelude::*;
use vstd::slice::*;

verus! {
/// The bytes of the block stored under `digest`, or nothing where no such
/// block is stored or it does not decompress.
pub open spec fn block_content(blocks: Seq<StoredBlock>, digest: Seq<u8>) -> Option<Seq<u8>> {
    if has_digest(blocks, digest) {
        zstd_content(blocks[index_of_digest(blocks, digest)].compressed, Seq::empty())
    } else {
        None
    }
}

/// The bytes of a file: its blocks, found by their digests, decompressed
/// and joined in order; nothing where one of them gives nothing.
pub open spec fn file_content(blocks: Seq<StoredBlock>, digests: Seq<Seq<u8>>) -> Option<Seq<u8>>
    decreases digests.len(),
{
    if digests.len() == 0 {
        Some(Seq::empty())
    } else {
        match (file_content(blocks, digests.drop_last()), block_content(blocks, digests.last())) {
            (Some(head), Some(last)) => Some(head + last),
            _ => None,
        }
    }
}

/// Every one of `digests` is stored.
pub open spec fn all_present(blocks: Seq<StoredBlock>, digests: Seq<Seq<u8>>) -> bool {
    forall|j: int| 0 <= j < digests.len() ==> has_digest(blocks, #[trigger] digests[j])
}

/// The record can be extracted as far as the format goes: its path can be
/// made safe, and it is a directory or every block it names is stored.
pub open spec fn entry_well_formed(blocks: Seq<StoredBlock>, f: FileRecord) -> bool {
    sanitized(f.path) is Some && (f.is_directory || all_present(blocks, f.blocks))
}

/// What is extracted for one record: its safe path, and for a file its
/// bytes. A directory gives no bytes, whatever blocks it names.
pub open spec fn extracted_entry(blocks: Seq<StoredBlock>, f: FileRecord) -> Option<
    ExtractedModel,
> {
    match sanitized(f.path) {
        None => None,
        Some(path) => if f.is_directory {
            Some(ExtractedModel { path, is_directory: true, content: Seq::empty() })
        } else {
            match file_content(blocks, f.blocks) {
                None => None,
                Some(content) => Some(ExtractedModel { path, is_directory: false, content }),
            }
        },
    }
}

/// What is extracted for `files`, in order; nothing where one of them
/// gives nothing.
pub open spec fn extracted_entries(blocks: Seq<StoredBlock>, files: Seq<FileRecord>) -> Option<
    Seq<ExtractedModel>,
>
    decreases files.len(),
{
    if files.len() == 0 {
        Some(Seq::empty())
    } else {
        match (
            extracted_entries(blocks, files.drop_last()),
            extracted_entry(blocks, files.last()),
        ) {
            (Some(head), Some(last)) => Some(head.push(last)),
            _ => None,
        }
    }
}

/// What is extracted from the image `data`.
pub open spec fn extracted(data: Seq<u8>) -> Option<Seq<ExtractedModel>> {
    match parse_image(data) {
        None => None,
        Some(img) => extracted_entries(img.blocks, img.files),
    }
}

/// `data` is an image, and each of its records can be extracted as far as
/// the format goes.
pub open spec fn image_well_formed(data: Seq<u8>) -> bool {
    match parse_image(data) {
        None => false,
        Some(img) => forall|i: int|
            0 <= i < img.files.len() ==> entry_well_formed(img.blocks, #[trigger] img.files[i]),
    }
}

/// No record among `files` names a block: each is a directory or a file
/// without bytes.
pub open spec fn names_no_blocks(files: Seq<FileRecord>) -> bool {
    forall|i: int|
        0 <= i < files.len() ==> (#[trigger] files[i]).is_directory || files[i].blocks.len() == 0
}

/// Records that name no block give their entries wherever their paths can
/// be made safe: nothing has to be decompressed for them.
pub proof fn lemma_without_blocks(blocks: Seq<StoredBlock>, files: Seq<FileRecord>)
    requires
        names_no_blocks(files),
        forall|i: int| 0 <= i < files.len() ==> entry_well_formed(blocks, #[trigger] files[i]),
    ensures
        extracted_entries(blocks, files) is Some,
    decreases files.len(),
{
    if files.len() > 0 {
        let init = files.drop_last();
        assert forall|i: int| 0 <= i < init.len() implies ((#[trigger] init[i]).is_directory
            || init[i].blocks.len() == 0) && entry_well_formed(blocks, init[i]) by {
            assert(init[i] == files[i]);
        }
        lemma_without_blocks(blocks, init);
        let last = files[files.len() - 1];
        assert(entry_well_formed(blocks, last));
        assert(last.is_directory || last.blocks.len() == 0);
    }
}

/// A file whose blocks all give bytes names only stored blocks.
pub proof fn lemma_content_needs_blocks(blocks: Seq<StoredBlock>, digests: Seq<Seq<u8>>)
    requires
        file_content(blocks, digests) is Some,
    ensures
        all_present(blocks, digests),
    decreases digests.len(),
{
    if digests.len() > 0 {
        lemma_content_needs_blocks(blocks, digests.drop_last());
        assert forall|j: int| 0 <= j < digests.len() implies has_digest(
            blocks,
            #[trigger] digests[j],
        ) by {
            if j < digests.len() - 1 {
                assert(digests.drop_last()[j] == digests[j]);
            }
        }
    }
}

/// Where the first `k` blocks of a file give nothing, the file gives
/// nothing.
pub proof fn lemma_content_prefix_fails(blocks: Seq<StoredBlock>, digests: Seq<Seq<u8>>, k: int)
    requires
        0 <= k <= digests.len(),
        file_content(blocks, digests.take(k)) is None,
    ensures
        file_content(blocks, digests) is None,
    decreases digests.len() - k,
{
    if k < digests.len() {
        assert(digests.take(k + 1).drop_last() =~= digests.take(k));
        lemma_content_prefix_fails(blocks, digests, k + 1);
    } else {
        assert(digests.take(k) =~= digests);
    }
}

/// Where the first `k` records give nothing, all of them give nothing.
pub proof fn lemma_entries_prefix_fail(blocks: Seq<StoredBlock>, files: Seq<FileRecord>, k: int)
    requires
        0 <= k <= files.len(),
        extracted_entries(blocks, files.take(k)) is None,
    ensures
        extracted_entries(blocks, files) is None,
    decreases files.len() - k,
{
    if k < files.len() {
        assert(files.take(k + 1).drop_last() =~= files.take(k));
        lemma_entries_prefix_fail(blocks, files, k + 1);
    } else {
        assert(files.take(k) =~= files);
    }
}

/// A record that gives something can be extracted as far as the format
/// goes.
pub proof fn lemma_entry_needs_format(blocks: Seq<StoredBlock>, f: FileRecord)
    requires
        extracted_entry(blocks, f) is Some,
    ensures
        entry_well_formed(blocks, f),
{
    if !f.is_directory {
        lemma_content_needs_blocks(blocks, f.blocks);
    }
}

/// An image that gives its entries is well formed.
pub proof fn lemma_entries_need_format(blocks: Seq<StoredBlock>, files: Seq<FileRecord>)
    requires
        extracted_entries(blocks, files) is Some,
    ensures
        forall|i: int| 0 <= i < files.len() ==> entry_well_formed(blocks, #[trigger] files[i]),
    decreases files.len(),
{
    if files.len() > 0 {
        lemma_entries_need_format(blocks, files.drop_last());
        lemma_entry_needs_format(blocks, files.last());
        assert forall|i: int| 0 <= i < files.len() implies entry_well_formed(
            blocks,
            #[trigger] files[i],
        ) by {
            if i < files.len() - 1 {
                assert(files.drop_last()[i] == files[i]);
            }
        }
    }
}


/// In a faithful store over blocks without collisions, the digest of a
/// block that was offered leads back to the block.
pub proof fn lemma_block_restored(blocks: Seq<StoredBlock>, raw: Seq<Seq<u8>>, b: Seq<u8>)
    requires
        faithful(blocks, raw),
        collision_free(raw),
        occurs(raw, b),
        has_digest(blocks, digest_of(b)),
    ensures
        block_content(blocks, digest_of(b)) == Some(b),
{
}

/// The first `n` blocks of a file come back as its bytes up to the end of
/// the last of them.
proof fn lemma_file_prefix_restored(
    blocks: Seq<StoredBlock>,
    raw: Seq<Seq<u8>>,
    content: Seq<u8>,
    n: int,
)
    requires
        faithful(blocks, raw),
        collision_free(raw),
        0 <= n <= block_count(content.len()),
        forall|j: int|
            0 <= j < block_count(content.len()) ==> occurs(raw, #[trigger] block_at(content, j))
                && has_digest(blocks, digest_of(block_at(content, j))),
    ensures
        file_content(blocks, digests_of(content).take(n)) == Some(
            concat(blocks_of(content).take(n)),
        ),
    decreases n,
{
    let ds = digests_of(content).take(n);
    let bs = blocks_of(content).take(n);
    if n > 0 {
        lemma_file_prefix_restored(blocks, raw, content, n - 1);
        assert(ds.drop_last() =~= digests_of(content).take(n - 1));
        assert(bs.drop_last() =~= blocks_of(content).take(n - 1));
    }
}

/// The first `n` entries come back as they went in.
proof fn lemma_entries_restored(entries: Seq<EntryModel>, level: int, n: int)
    requires
        faithful(store_after(all_blocks(entries), level), all_blocks(entries)),
        collision_free(all_blocks(entries)),
        forall|i: int| 0 <= i < entries.len() ==> stays_as_it_is(#[trigger] entries[i].path),
        0 <= n <= entries.len(),
    ensures
        extracted_entries(store_after(all_blocks(entries), level), records_of(entries).take(n))
            == Some(restored_all(entries).take(n)),
    decreases n,
{
    let raw = all_blocks(entries);
    let blocks = store_after(raw, level);
    let files = records_of(entries).take(n);
    if n > 0 {
        lemma_entries_restored(entries, level, n - 1);
        let e = entries[n - 1];
        assert(files.drop_last() =~= records_of(entries).take(n - 1));
        if !e.is_directory {
            let count = block_count(e.content.len()) as int;
            lemma_store_after(raw, level);
            assert forall|j: int| 0 <= j < count implies occurs(raw, #[trigger] block_at(e.content, j))
                && has_digest(blocks, digest_of(block_at(e.content, j))) by {
                lemma_all_blocks_member(entries, n - 1, j);
            }
            lemma_file_prefix_restored(blocks, raw, e.content, count);
            lemma_blocks_cover(e.content);
            assert(digests_of(e.content).take(count) =~= digests_of(e.content));
            assert(blocks_of(e.content).take(count) =~= blocks_of(e.content));
        }
    }
}

/// Extracting a created image gives the tree back: the same paths, the
/// same directories, and for every file the same bytes. This holds of an
/// image that can be written and whose store is faithful, which is what
/// `create_image` gives; of a tree in which no two different blocks share
/// a digest; and of paths that the sanitizer leaves as they are.
pub proof fn lemma_image_round_trip(entries: Seq<EntryModel>, level: int, created: u64)
    requires
        writable_image(image_of(entries, level, created)),
        faithful(store_after(all_blocks(entries), level), all_blocks(entries)),
        collision_free(all_blocks(entries)),
        forall|i: int| 0 <= i < entries.len() ==> stays_as_it_is(#[trigger] entries[i].path),
    ensures
        extracted(image_bytes(image_of(entries, level, created))) == Some(restored_all(entries)),
{
    let img = image_of(entries, level, created);
    lemma_parse_image_written(img);
    lemma_entries_restored(entries, level, entries.len() as int);
    assert(records_of(entries).take(entries.len() as int) =~= records_of(entries));
}

/// Where the block with `digest` lies, if the index has it.
fn find_block(index: &ImageIndex, digest: &BlockHash, Ghost(data): Ghost<Seq<u8>>) -> (r:
    Option<usize>)
    requires
        index.wf(data),
    ensures
        match r {
            Some(k) => k < index.blocks@.len() && has_digest(index.image(data).blocks, digest@)
                && index_of_digest(index.image(data).blocks, digest@) == k,
            None => !has_digest(index.image(data).blocks, digest@),
        },
{
    let ghost blocks = index.image(data).blocks;
    match index.table.position(digest) {
        Some(k) => {
            proof {
                assert(index.table@[k as int] == index.blocks@[k as int].digest@);
                assert(blocks[k as int].digest == digest@);
                let c = index_of_digest(blocks, digest@);
                if c < k {
                    assert(blocks[c].digest != blocks[k as int].digest);
                } else if c > k {
                    assert(blocks[k as int].digest != blocks[c].digest);
                }
            }
            Some(k)
        },
        None => {
            proof {
                if has_digest(blocks, digest@) {
                    let c = index_of_digest(blocks, digest@);
                    assert(index.table@[c] == index.blocks@[c].digest@);
                }
            }
            None
        },
    }
}

/// Whether record `i` can be extracted as far as the format goes.
#[verifier::loop_isolation(false)]
pub fn check_entry(data: &[u8], index: &ImageIndex, i: usize) -> (r: bool)
    requires
        index.wf(data@),
        i < index.files@.len(),
    ensures
        r == entry_well_formed(index.image(data@).blocks, index.files@[i as int]@),
{
    let f = &index.files[i];
    let ghost blocks = index.image(data@).blocks;
    let ghost digests = digest_views(f.blocks@);
    match sanitize_path(f.path.as_str()) {
        Ok(_) => {},
        Err(_) => { return false; },
    }
    if f.is_directory {
        return true;
    }
    let n = f.blocks.len();
    let mut j: usize = 0;
    while j < n
        invariant
            index.wf(data@),
            n == f.blocks@.len(),
            blocks == index.image(data@).blocks,
            digests == digest_views(f.blocks@),
            j <= n,
            forall|k: int| 0 <= k < j ==> has_digest(blocks, #[trigger] digests[k]),
        decreases n - j,
    {
        match find_block(index, &f.blocks[j], Ghost(data@)) {
            Some(_) => {},
            None => {
                assert(digests[j as int] == f.blocks@[j as int]@);
                return false;
            },
        }
        j += 1;
    }
    true
}

/// Extracts record `i` of an image: a directory to make, or a file with
/// its bytes, put together from its blocks in the order of its digests.
/// A record whose path cannot be made safe, or that names a block which
/// the image does not hold, is refused before anything is decompressed.
#[verifier::loop_isolation(false)]
pub fn extract_entry(data: &[u8], index: &ImageIndex, i: usize) -> (r: Result<
    ExtractedEntry,
    DecompressionError,
>)
    requires
        index.wf(data@),
        i < index.files@.len(),
    ensures
        match r {
            Ok(e) => extracted_entry(index.image(data@).blocks, index.files@[i as int]@) == Some(
                e@,
            ),
            Err(DecompressionError::InvalidFormat) => !entry_well_formed(
                index.image(data@).blocks,
                index.files@[i as int]@,
            ),
            Err(DecompressionError::DecompressionFailed(_)) => entry_well_formed(
                index.image(data@).blocks,
                index.files@[i as int]@,
            ) && extracted_entry(index.image(data@).blocks, index.files@[i as int]@) is None,
            Err(DecompressionError::Io(_)) => false,
        },
        extracted_entry(index.image(data@).blocks, index.files@[i as int]@) is Some ==> r is Ok,
{
    proof {
        if extracted_entry(index.image(data@).blocks, index.files@[i as int]@) is Some {
            lemma_entry_needs_format(index.image(data@).blocks, index.files@[i as int]@);
        }
    }
    if !check_entry(data, index, i) {
        return Err(DecompressionError::InvalidFormat);
    }
    let f = &index.files[i];
    let ghost blocks = index.image(data@).blocks;
    let ghost digests = digest_views(f.blocks@);
    let path = match sanitize_path(f.path.as_str()) {
        Ok(p) => p,
        Err(e) => { return Err(e); },
    };
    if f.is_directory {
        return Ok(ExtractedEntry { path, is_directory: true, content: Vec::new() });
    }
    let empty: Vec<u8> = Vec::new();
    let mut content: Vec<u8> = Vec::new();
    let n = f.blocks.len();
    let mut j: usize = 0;
    while j < n
        invariant
            j <= n,
            file_content(blocks, digests.take(j as int)) == Some(content@),
        decreases n - j,
    {
        let k = match find_block(index, &f.blocks[j], Ghost(data@)) {
            Some(k) => k,
            None => {
                assert(digests[j as int] == f.blocks@[j as int]@);
                return Err(DecompressionError::InvalidFormat);
            },
        };
        let at = &index.blocks[k];
        let len = data.len();
        assert(at.offset + at.compressed_size <= len);
        let frame = slice_subrange(data, at.offset, at.offset + at.compressed_size);
        let raw = match zstd_decode(frame, empty.as_slice()) {
            Ok(v) => v,
            Err(e) => {
                proof {
                    assert(digests.take(j + 1).drop_last() =~= digests.take(j as int));
                    assert(block_content(blocks, digests[j as int]) is None);
                    lemma_content_prefix_fails(blocks, digests, j + 1);
                }
                return Err(DecompressionError::DecompressionFailed(io_error_text(&e)));
            },
        };
        put_bytes(&mut content, raw.as_slice());
        proof {
            assert(digests.take(j + 1).drop_last() =~= digests.take(j as int));
        }
        j += 1;
    }
    assert(digests.take(n as int) =~= digests);
    Ok(ExtractedEntry { path, is_directory: false, content })
}

/// Extracts every entry of the image `data`, in the order of its records.
/// An image that is malformed, or holds a record that cannot be extracted
/// as far as the format goes, is refused as a whole before anything is
/// decompressed.
#[verifier::loop_isolation(false)]
pub fn extract_image(data: &[u8]) -> (r: Result<Vec<ExtractedEntry>, DecompressionError>)
    ensures
        match r {
            Ok(out) => extracted(data@) == Some(extracted_views(out@)),
            Err(DecompressionError::InvalidFormat) => !image_well_formed(data@),
            Err(DecompressionError::DecompressionFailed(_)) => image_well_formed(data@)
                && extracted(data@) is None,
            Err(DecompressionError::Io(_)) => false,
        },
        extracted(data@) is Some ==> r is Ok,
        image_well_formed(data@) && names_no_blocks(parse_image(data@)->0.files) ==> r is Ok,
        !image_well_formed(data@) ==> r matches Err(DecompressionError::InvalidFormat),
{
    proof {
        if extracted(data@) is Some {
            let whole = parse_image(data@)->0;
            lemma_entries_need_format(whole.blocks, whole.files);
        }
        if image_well_formed(data@) && names_no_blocks(parse_image(data@)->0.files) {
            let whole = parse_image(data@)->0;
            lemma_without_blocks(whole.blocks, whole.files);
        }
    }
    let index = match parse_image_index(data) {
        Ok(x) => x,
        Err(e) => { return Err(e); },
    };
    let ghost img = index.image(data@);
    let n = index.files.len();
    let mut i: usize = 0;
    while i < n
        invariant
            i <= n,
            forall|k: int| 0 <= k < i ==> entry_well_formed(img.blocks, #[trigger] img.files[k]),
        decreases n - i,
    {
        if !check_entry(data, &index, i) {
            assert(!entry_well_formed(img.blocks, img.files[i as int]));
            return Err(DecompressionError::InvalidFormat);
        }
        i += 1;
    }
    let mut out: Vec<ExtractedEntry> = Vec::new();
    i = 0;
    while i < n
        invariant
            i <= n,
            extracted_entries(img.blocks, img.files.take(i as int)) == Some(extracted_views(out@)),
        decreases n - i,
    {
        assert(img.files[i as int] == index.files@[i as int]@);
        let e = match extract_entry(data, &index, i) {
            Ok(e) => e,
            Err(e) => {
                proof {
                    assert(img.files.take(i + 1).drop_last() =~= img.files.take(i as int));
                    assert(extracted_entry(img.blocks, img.files[i as int]) is None);
                    lemma_entries_prefix_fail(img.blocks, img.files, i + 1);
                }
                return Err(e);
            },
        };
        out.push(e);
        proof {
            assert(img.files.take(i + 1).drop_last() =~= img.files.take(i as int));
        }
        i += 1;
    }
    assert(img.files.take(n as int) =~= img.files);
    Ok(out)
}
} // verus!
