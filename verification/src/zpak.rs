//! The image container: a header, the index of the blocks, their payloads
//! in the order of the index, and the records of the files.

use crate::hash::BlockHash;
use crate::store::{unique_digests, BlockStore, StoredBlock};
use crate::table::DigestTable;
use crate::error::DecompressionError;
use crate::wire::{
    concat, get_bytes, get_u32, get_u64, lemma_concat_part, lemma_offset_fixed, lemma_offset_step,
    lemma_parse_many_fails, lemma_parse_many_written, lemma_u32_at_written, lemma_u64_at_written,
    offset_in, parse_many, put_bytes, put_u32, put_u64, ser_many, string_from_utf8, u32_at, u64_at,
};
use vstd::slice::*;
use vstd::bytes::*;
use vstd::prelude::*;
use vstd::utf8::*;

verus! {
/// The version that this library writes and reads.
pub const IMAGE_VERSION: u32 = 1;

/// Number of bytes in the header.
pub const HEADER_LEN: usize = 44;

/// Number of bytes in one record of the block index.
pub const INDEX_RECORD_LEN: usize = 48;

/// The totals at the start of an image.
#[derive(Debug, Clone, Copy)]
pub struct ImageHeader {
    pub version: u32,
    pub created: u64,
    pub total_files: u64,
    pub total_size: u64,
    pub compressed_size: u64,
    pub block_count: u64,
}

/// One file or directory of an image: where it was, and the digests of the
/// blocks that make up its bytes, in order.
#[derive(Debug, Clone)]
pub struct FileEntry {
    pub path: String,
    pub size: u64,
    pub modified: u64,
    pub is_directory: bool,
    pub blocks: Vec<BlockHash>,
}

/// A file entry as the contracts see it.
pub ghost struct FileRecord {
    pub path: Seq<char>,
    pub size: u64,
    pub modified: u64,
    pub is_directory: bool,
    pub blocks: Seq<Seq<u8>>,
}

/// An image as the contracts see it.
pub ghost struct Image {
    pub header: ImageHeader,
    pub blocks: Seq<StoredBlock>,
    pub files: Seq<FileRecord>,
}

/// The digests of `blocks`, each as its bytes.
pub open spec fn digest_views(blocks: Seq<BlockHash>) -> Seq<Seq<u8>> {
    Seq::new(blocks.len(), |i: int| blocks[i]@)
}

impl View for FileEntry {
    type V = FileRecord;

    open spec fn view(&self) -> FileRecord {
        FileRecord {
            path: self.path@,
            size: self.size,
            modified: self.modified,
            is_directory: self.is_directory,
            blocks: digest_views(self.blocks@),
        }
    }
}

/// The entries of `files`, each as its record.
pub open spec fn records(files: Seq<FileEntry>) -> Seq<FileRecord> {
    Seq::new(files.len(), |i: int| files[i]@)
}

/// The header's six fields, little-endian.
pub open spec fn header_bytes(h: ImageHeader) -> Seq<u8> {
    spec_u32_to_le_bytes(h.version) + spec_u64_to_le_bytes(h.created) + spec_u64_to_le_bytes(
        h.total_files,
    ) + spec_u64_to_le_bytes(h.total_size) + spec_u64_to_le_bytes(h.compressed_size)
        + spec_u64_to_le_bytes(h.block_count)
}

/// One record of the block index: digest, original length, compressed
/// length.
pub open spec fn index_record(b: StoredBlock) -> Seq<u8> {
    b.digest + spec_u64_to_le_bytes(b.original_len as u64) + spec_u64_to_le_bytes(
        b.compressed.len() as u64,
    )
}

/// The records of the block index, in the order of `blocks`.
pub open spec fn index_parts(blocks: Seq<StoredBlock>) -> Seq<Seq<u8>> {
    Seq::new(blocks.len(), |i: int| index_record(blocks[i]))
}

/// The payloads, in the order of `blocks`.
pub open spec fn payload_parts(blocks: Seq<StoredBlock>) -> Seq<Seq<u8>> {
    Seq::new(blocks.len(), |i: int| blocks[i].compressed)
}

/// The byte that says whether an entry is a directory.
pub open spec fn flag_byte(is_directory: bool) -> u8 {
    if is_directory {
        1
    } else {
        0
    }
}

/// One file record: path length, path, size, modification time, directory
/// flag, number of blocks, digests.
pub open spec fn file_bytes(f: FileRecord) -> Seq<u8> {
    spec_u64_to_le_bytes(encode_utf8(f.path).len() as u64) + encode_utf8(f.path)
        + spec_u64_to_le_bytes(f.size) + spec_u64_to_le_bytes(f.modified) + seq![
        flag_byte(f.is_directory),
    ] + spec_u64_to_le_bytes(f.blocks.len() as u64) + concat(f.blocks)
}

/// `file_bytes` as a value.
pub open spec fn file_writer() -> spec_fn(FileRecord) -> Seq<u8> {
    |f: FileRecord| file_bytes(f)
}

/// The bytes of an image.
pub open spec fn image_bytes(img: Image) -> Seq<u8> {
    header_bytes(img.header) + concat(index_parts(img.blocks)) + concat(payload_parts(img.blocks))
        + spec_u64_to_le_bytes(img.files.len() as u64) + ser_many(file_writer(), img.files)
}

fn write_header(out: &mut Vec<u8>, h: &ImageHeader)
    ensures
        final(out)@ == old(out)@ + header_bytes(*h),
{
    put_u32(out, h.version);
    put_u64(out, h.created);
    put_u64(out, h.total_files);
    put_u64(out, h.total_size);
    put_u64(out, h.compressed_size);
    put_u64(out, h.block_count);
}

fn write_digests(out: &mut Vec<u8>, blocks: &Vec<BlockHash>)
    ensures
        final(out)@ == old(out)@ + concat(digest_views(blocks@)),
{
    let n = blocks.len();
    let ghost parts = digest_views(blocks@);
    let mut i: usize = 0;
    while i < n
        invariant
            n == blocks@.len(),
            parts == digest_views(blocks@),
            i <= n,
            out@ == old(out)@ + concat(parts.take(i as int)),
        decreases n - i,
    {
        put_bytes(out, blocks[i].as_bytes().as_slice());
        proof {
            assert(parts.take(i + 1).drop_last() =~= parts.take(i as int));
        }
        i += 1;
    }
    assert(parts.take(n as int) =~= parts);
}

fn write_file(out: &mut Vec<u8>, f: &FileEntry)
    ensures
        final(out)@ == old(out)@ + file_bytes(f@),
{
    let path = f.path.as_str().as_bytes();
    put_u64(out, path.len() as u64);
    put_bytes(out, path);
    put_u64(out, f.size);
    put_u64(out, f.modified);
    out.push(if f.is_directory { 1u8 } else { 0u8 });
    put_u64(out, f.blocks.len() as u64);
    write_digests(out, &f.blocks);
}

/// Writes an image: the header, the index of `store` in its order, the
/// payloads in the same order, then the records of `files`.
pub fn encode_image(header: &ImageHeader, store: &BlockStore, files: &Vec<FileEntry>) -> (r: Vec<
    u8,
>)
    requires
        store.wf(),
    ensures
        r@ == image_bytes(Image { header: *header, blocks: store@, files: records(files@) }),
{
    let mut out: Vec<u8> = Vec::new();
    write_header(&mut out, header);
    let n = store.len();
    let ghost index = index_parts(store@);
    let ghost payloads = payload_parts(store@);
    let ghost recs = records(files@);
    let mut i: usize = 0;
    while i < n
        invariant
            store.wf(),
            n == store@.len(),
            index == index_parts(store@),
            i <= n,
            out@ == header_bytes(*header) + concat(index.take(i as int)),
        decreases n - i,
    {
        let (digest, block) = store.entry(i);
        put_bytes(&mut out, digest.as_bytes().as_slice());
        put_u64(&mut out, block.original_size as u64);
        put_u64(&mut out, block.compressed_data.len() as u64);
        proof {
            assert(index.take(i + 1).drop_last() =~= index.take(i as int));
        }
        i += 1;
    }
    assert(index.take(n as int) =~= index);
    i = 0;
    while i < n
        invariant
            store.wf(),
            n == store@.len(),
            payloads == payload_parts(store@),
            i <= n,
            out@ == header_bytes(*header) + concat(index) + concat(payloads.take(i as int)),
        decreases n - i,
    {
        let (_, block) = store.entry(i);
        put_bytes(&mut out, block.compressed_data.as_slice());
        proof {
            assert(payloads.take(i + 1).drop_last() =~= payloads.take(i as int));
        }
        i += 1;
    }
    assert(payloads.take(n as int) =~= payloads);
    let m = files.len();
    put_u64(&mut out, m as u64);
    let ghost head = out@;
    let mut k: usize = 0;
    while k < m
        invariant
            m == files@.len(),
            recs == records(files@),
            k <= m,
            out@ == head + ser_many(file_writer(), recs.take(k as int)),
        decreases m - k,
    {
        write_file(&mut out, &files[k]);
        proof {
            assert(recs.take(k + 1).drop_last() =~= recs.take(k as int));
        }
        k += 1;
    }
    assert(recs.take(m as int) =~= recs);
    out
}

/// The header at the start of `data`, where there are bytes enough.
pub open spec fn parse_header(data: Seq<u8>) -> Option<ImageHeader> {
    if data.len() < HEADER_LEN {
        None
    } else {
        Some(
            ImageHeader {
                version: u32_at(data, 0),
                created: u64_at(data, 4),
                total_files: u64_at(data, 12),
                total_size: u64_at(data, 20),
                compressed_size: u64_at(data, 28),
                block_count: u64_at(data, 36),
            },
        )
    }
}

/// Where record `i` of the block index starts.
pub open spec fn index_pos(i: int) -> int {
    HEADER_LEN + INDEX_RECORD_LEN * i
}

/// The compressed length that record `i` of the block index declares.
pub open spec fn index_compressed(data: Seq<u8>, i: int) -> int {
    u64_at(data, index_pos(i) + 40) as int
}

/// Where payload `i` starts, counted from the first payload: the sum of the
/// compressed lengths declared before it.
pub open spec fn payload_offset(data: Seq<u8>, i: int) -> int
    decreases i,
{
    if i <= 0 {
        0
    } else {
        payload_offset(data, i - 1) + index_compressed(data, i - 1)
    }
}

/// Block `i` of an image with `n` blocks, as its index declares it.
pub open spec fn parsed_block(data: Seq<u8>, n: int, i: int) -> StoredBlock {
    StoredBlock {
        digest: data.subrange(index_pos(i), index_pos(i) + 32),
        compressed: data.subrange(
            index_pos(n) + payload_offset(data, i),
            index_pos(n) + payload_offset(data, i + 1),
        ),
        original_len: u64_at(data, index_pos(i) + 32) as nat,
    }
}

/// The blocks of an image with `n` blocks.
pub open spec fn parsed_blocks(data: Seq<u8>, n: int) -> Seq<StoredBlock> {
    Seq::new(n as nat, |i: int| parsed_block(data, n, i))
}

/// The file record that starts at `pos`, and the position behind it.
pub open spec fn parse_file(data: Seq<u8>, pos: int) -> Option<(FileRecord, int)> {
    if pos < 0 || pos + 8 > data.len() {
        None
    } else {
        let path_len = u64_at(data, pos) as int;
        let path_at = pos + 8;
        let fields_at = path_at + path_len;
        if fields_at > data.len() || !valid_utf8(data.subrange(path_at, fields_at)) || fields_at + 25 > data.len() {
            None
        } else {
            let n = u64_at(data, fields_at + 17) as int;
            let digests_at = fields_at + 25;
            if digests_at + 32 * n > data.len() {
                None
            } else {
                Some(
                    (
                        FileRecord {
                            path: decode_utf8(data.subrange(path_at, fields_at)),
                            size: u64_at(data, fields_at),
                            modified: u64_at(data, fields_at + 8),
                            is_directory: data[fields_at + 16] == 1,
                            blocks: Seq::new(
                                n as nat,
                                |i: int| data.subrange(digests_at + 32 * i, digests_at + 32 * i + 32),
                            ),
                        },
                        digests_at + 32 * n,
                    ),
                )
            }
        }
    }
}

/// `parse_file` as a value.
pub open spec fn file_reader() -> spec_fn(Seq<u8>, int) -> Option<(FileRecord, int)> {
    |data: Seq<u8>, pos: int| parse_file(data, pos)
}

/// The image that `data` holds, or nothing where `data` is no image: where
/// it ends too early, has another version, declares a digest twice or a
/// path that is no UTF-8.
pub open spec fn parse_image(data: Seq<u8>) -> Option<Image> {
    match parse_header(data) {
        None => None,
        Some(h) => {
            let n = h.block_count as int;
            let files_pos = index_pos(n) + payload_offset(data, n);
            if h.version != IMAGE_VERSION || index_pos(n) > data.len() || files_pos + 8
                > data.len() || !unique_digests(parsed_blocks(data, n)) {
                None
            } else {
                match parse_many(
                    file_reader(),
                    data,
                    files_pos + 8,
                    u64_at(data, files_pos) as nat,
                ) {
                    None => None,
                    Some((files, _)) => Some(
                        Image { header: h, blocks: parsed_blocks(data, n), files },
                    ),
                }
            }
        },
    }
}

/// Where a block of an image lies in the image's bytes.
#[derive(Debug, Clone, Copy)]
pub struct BlockRef {
    pub digest: BlockHash,
    pub original_size: u64,
    pub offset: usize,
    pub compressed_size: usize,
}

/// What the start and the end of an image say: the header, where each block
/// lies, and the file records.
#[derive(Debug)]
pub struct ImageIndex {
    pub header: ImageHeader,
    pub blocks: Vec<BlockRef>,
    pub files: Vec<FileEntry>,
    /// The digests of `blocks` in their order, to find a block by.
    pub table: DigestTable,
}

/// The digests of `blocks`, in order.
pub open spec fn ref_digests(blocks: Seq<BlockRef>) -> Seq<Seq<u8>> {
    Seq::new(blocks.len(), |i: int| blocks[i].digest@)
}

impl ImageIndex {
    /// The block at place `i`, cut out of `data`.
    pub open spec fn block(&self, data: Seq<u8>, i: int) -> StoredBlock {
        StoredBlock {
            digest: self.blocks@[i].digest@,
            compressed: data.subrange(
                self.blocks@[i].offset as int,
                self.blocks@[i].offset + self.blocks@[i].compressed_size,
            ),
            original_len: self.blocks@[i].original_size as nat,
        }
    }

    /// The image that the index describes, its payloads cut out of `data`.
    pub open spec fn image(&self, data: Seq<u8>) -> Image {
        Image {
            header: self.header,
            blocks: Seq::new(self.blocks@.len(), |i: int| self.block(data, i)),
            files: records(self.files@),
        }
    }

    /// Every block lies inside `data`, no digest occurs twice, and the
    /// table holds the digests of the blocks in their order.
    pub open spec fn wf(&self, data: Seq<u8>) -> bool {
        &&& forall|i: int|
            0 <= i < self.blocks@.len() ==> (#[trigger] self.blocks@[i]).offset
                + self.blocks@[i].compressed_size <= data.len()
        &&& unique_digests(self.image(data).blocks)
        &&& self.table.wf()
        &&& self.table@ == ref_digests(self.blocks@)
    }
}

/// The sum of declared lengths grows with the number of blocks.
proof fn lemma_payload_offset_grows(data: Seq<u8>, i: int, j: int)
    requires
        0 <= i <= j,
    ensures
        0 <= payload_offset(data, i) <= payload_offset(data, j),
    decreases j,
{
    if i < j {
        lemma_payload_offset_grows(data, i, j - 1);
    } else if i > 0 {
        lemma_payload_offset_grows(data, i - 1, i - 1);
    }
}

fn read_file(data: &[u8], pos: usize) -> (r: Option<(FileEntry, usize)>)
    ensures
        match r {
            Some((f, next)) => parse_file(data@, pos as int) == Some((f@, next as int)) && next
                <= data@.len(),
            None => parse_file(data@, pos as int) is None,
        },
{
    let len = data.len();
    let path_len = match get_u64(data, pos) {
        Some(x) => x,
        None => { return None; },
    };
    let path_at = pos + 8;
    if path_len > (len - path_at) as u64 {
        return None;
    }
    let fields_at = path_at + path_len as usize;
    let path_bytes = match get_bytes(data, path_at, path_len as usize) {
        Some(b) => b,
        None => { return None; },
    };
    let path = match string_from_utf8(path_bytes) {
        Some(s) => s,
        None => { return None; },
    };
    if len - fields_at < 25 {
        return None;
    }
    let size = match get_u64(data, fields_at) {
        Some(x) => x,
        None => { return None; },
    };
    let modified = match get_u64(data, fields_at + 8) {
        Some(x) => x,
        None => { return None; },
    };
    let is_directory = data[fields_at + 16] == 1;
    let n = match get_u64(data, fields_at + 17) {
        Some(x) => x,
        None => { return None; },
    };
    let digests_at = fields_at + 25;
    if n > ((len - digests_at) / 32) as u64 {
        return None;
    }
    let count = n as usize;
    let mut blocks: Vec<BlockHash> = Vec::new();
    let mut i: usize = 0;
    while i < count
        invariant
            len == data@.len(),
            digests_at + 32 * count <= len,
            i <= count,
            blocks@.len() == i,
            forall|j: int|
                0 <= j < i ==> (#[trigger] blocks@[j])@ == data@.subrange(
                    digests_at + 32 * j,
                    digests_at + 32 * j + 32,
                ),
        decreases count - i,
    {
        let q = digests_at + 32 * i;
        match BlockHash::from_slice(slice_subrange(data, q, q + 32)) {
            Some(h) => blocks.push(h),
            None => { return None; },
        }
        i += 1;
    }
    let f = FileEntry { path, size, modified, is_directory, blocks };
    proof {
        let spec_blocks = Seq::new(
            n as nat,
            |i: int| data@.subrange(digests_at + 32 * i, digests_at + 32 * i + 32),
        );
        assert(f@.blocks =~= spec_blocks);
    }
    Some((f, digests_at + 32 * count))
}

/// Reads the header, the block index and the file records of an image.
/// The payloads stay where they are: the index says where each one lies.
#[verifier::loop_isolation(false)]
pub fn parse_image_index(data: &[u8]) -> (r: Result<ImageIndex, DecompressionError>)
    ensures
        match r {
            Ok(index) => index.wf(data@) && parse_image(data@) == Some(index.image(data@)),
            Err(e) => e is InvalidFormat && parse_image(data@) is None,
        },
        data@.len() >= HEADER_LEN && index_pos(u64_at(data@, 36) as int) > data@.len() ==> r is Err,
{
    let len = data.len();
    if len < HEADER_LEN {
        return Err(DecompressionError::InvalidFormat);
    }
    let version = match get_u32(data, 0) {
        Some(x) => x,
        None => { return Err(DecompressionError::InvalidFormat); },
    };
    let created = match get_u64(data, 4) {
        Some(x) => x,
        None => { return Err(DecompressionError::InvalidFormat); },
    };
    let total_files = match get_u64(data, 12) {
        Some(x) => x,
        None => { return Err(DecompressionError::InvalidFormat); },
    };
    let total_size = match get_u64(data, 20) {
        Some(x) => x,
        None => { return Err(DecompressionError::InvalidFormat); },
    };
    let compressed_size = match get_u64(data, 28) {
        Some(x) => x,
        None => { return Err(DecompressionError::InvalidFormat); },
    };
    let block_count = match get_u64(data, 36) {
        Some(x) => x,
        None => { return Err(DecompressionError::InvalidFormat); },
    };
    let header = ImageHeader {
        version,
        created,
        total_files,
        total_size,
        compressed_size,
        block_count,
    };
    if version != IMAGE_VERSION {
        return Err(DecompressionError::InvalidFormat);
    }
    if block_count > ((len - HEADER_LEN) / INDEX_RECORD_LEN) as u64 {
        return Err(DecompressionError::InvalidFormat);
    }
    let n = block_count as usize;
    let payload_start = HEADER_LEN + INDEX_RECORD_LEN * n;
    let mut blocks: Vec<BlockRef> = Vec::new();
    let mut table = DigestTable::new();
    assert(table@ =~= ref_digests(blocks@));
    let mut off: usize = 0;
    let mut i: usize = 0;
    while i < n
        invariant
            len == data@.len(),
            payload_start == index_pos(n as int),
            payload_start <= len,
            i <= n,
            blocks@.len() == i,
            off == payload_offset(data@, i as int),
            payload_start + off <= len,
            forall|j: int|
                0 <= j < i ==> {
                    &&& (#[trigger] blocks@[j]).digest@ == parsed_block(data@, n as int, j).digest
                    &&& blocks@[j].original_size == parsed_block(data@, n as int, j).original_len
                    &&& blocks@[j].offset == payload_start + payload_offset(data@, j)
                    &&& blocks@[j].offset + blocks@[j].compressed_size == payload_start
                        + payload_offset(data@, j + 1)
                    &&& blocks@[j].offset + blocks@[j].compressed_size <= len
                },
            forall|j: int, k: int|
                0 <= j < k < i ==> (#[trigger] blocks@[j]).digest@ != (#[trigger] blocks@[k]).digest@,
            table.wf(),
            table@ == ref_digests(blocks@),
        decreases n - i,
    {
        let p = HEADER_LEN + INDEX_RECORD_LEN * i;
        let digest = match BlockHash::from_slice(slice_subrange(data, p, p + 32)) {
            Some(h) => h,
            None => { return Err(DecompressionError::InvalidFormat); },
        };
        let original_size = match get_u64(data, p + 32) {
            Some(x) => x,
            None => { return Err(DecompressionError::InvalidFormat); },
        };
        let compressed = match get_u64(data, p + 40) {
            Some(x) => x,
            None => { return Err(DecompressionError::InvalidFormat); },
        };
        if compressed > (len - payload_start - off) as u64 {
            proof {
                lemma_payload_offset_grows(data@, i + 1, n as int);
            }
            return Err(DecompressionError::InvalidFormat);
        }
        let ghost seen = table@;
        if !table.insert(digest) {
            proof {
                let j = choose|j: int| 0 <= j < seen.len() && #[trigger] seen[j] == digest@;
                assert(blocks@[j].digest@ == digest@);
                let all = parsed_blocks(data@, n as int);
                assert(all[j].digest == all[i as int].digest);
            }
            return Err(DecompressionError::InvalidFormat);
        }
        proof {
            assert forall|j: int| 0 <= j < i implies (#[trigger] blocks@[j]).digest@ != digest@ by {
                assert(seen[j] == blocks@[j].digest@);
            }
        }
        let ghost before = blocks@;
        blocks.push(
            BlockRef {
                digest,
                original_size,
                offset: payload_start + off,
                compressed_size: compressed as usize,
            },
        );
        assert(ref_digests(blocks@) =~= ref_digests(before).push(digest@));
        off = off + compressed as usize;
        i += 1;
    }
    let files_pos = payload_start + off;
    let file_count = match get_u64(data, files_pos) {
        Some(x) => x,
        None => { return Err(DecompressionError::InvalidFormat); },
    };
    let mut files: Vec<FileEntry> = Vec::new();
    let mut pos: usize = files_pos + 8;
    let mut k: u64 = 0;
    while k < file_count
        invariant
            len == data@.len(),
            k <= file_count,
            pos <= len,
            parse_many(file_reader(), data@, files_pos + 8, k as nat) == Some(
                (records(files@), pos as int),
            ),
        decreases file_count - k,
    {
        match read_file(data, pos) {
            Some((f, next)) => {
                files.push(f);
                pos = next;
            },
            None => {
                proof {
                    lemma_parse_many_fails(
                        file_reader(),
                        data@,
                        files_pos + 8,
                        (k + 1) as nat,
                        file_count as nat,
                    );
                }
                return Err(DecompressionError::InvalidFormat);
            },
        }
        k += 1;
    }
    let index = ImageIndex { header, blocks, files, table };
    proof {
        assert(index.image(data@).blocks =~= parsed_blocks(data@, n as int));
    }
    Ok(index)
}

/// A file record can be written: its lengths fit their fields, and each of
/// its digests has 32 bytes.
pub open spec fn writable_file(f: FileRecord) -> bool {
    &&& encode_utf8(f.path).len() <= u64::MAX
    &&& f.blocks.len() <= u64::MAX
    &&& forall|i: int| 0 <= i < f.blocks.len() ==> (#[trigger] f.blocks[i]).len() == 32
}

/// An image can be written and read back: it has the version of this
/// library, its header counts its blocks, no digest occurs twice, and all
/// lengths fit their fields.
pub open spec fn writable_image(img: Image) -> bool {
    &&& img.header.version == IMAGE_VERSION
    &&& img.header.block_count == img.blocks.len()
    &&& unique_digests(img.blocks)
    &&& forall|i: int|
        0 <= i < img.blocks.len() ==> {
            &&& (#[trigger] img.blocks[i]).digest.len() == 32
            &&& img.blocks[i].original_len <= u64::MAX
            &&& img.blocks[i].compressed.len() <= u64::MAX
        }
    &&& img.files.len() <= u64::MAX
    &&& forall|i: int| 0 <= i < img.files.len() ==> writable_file(#[trigger] img.files[i])
}

/// A file record that was written after `head` is read back from there.
#[verifier::rlimit(40)]
pub proof fn lemma_parse_file_written(f: FileRecord, head: Seq<u8>, tail: Seq<u8>)
    requires
        writable_file(f),
    ensures
        parse_file(head + file_bytes(f) + tail, head.len() as int) == Some(
            (f, (head.len() + file_bytes(f).len()) as int),
        ),
{
    broadcast use encode_utf8_valid_utf8, encode_utf8_decode_utf8;

    let data = head + file_bytes(f) + tail;
    let pb = encode_utf8(f.path);
    let nb = f.blocks.len();
    let pos = head.len() as int;
    let path_at = pos + 8;
    let fields_at = path_at + pb.len();
    let digests_at = fields_at + 25;
    let l_path = spec_u64_to_le_bytes(pb.len() as u64);
    let l_size = spec_u64_to_le_bytes(f.size);
    let l_mod = spec_u64_to_le_bytes(f.modified);
    let flag = seq![flag_byte(f.is_directory)];
    let l_n = spec_u64_to_le_bytes(nb as u64);
    let digests = concat(f.blocks);
    lemma_offset_fixed(f.blocks, 32, nb as int);
    lemma_offset_step_all(f.blocks);
    assert(data =~= head + l_path + (pb + l_size + l_mod + flag + l_n + digests + tail));
    lemma_u64_at_written(head, pb.len() as u64, pb + l_size + l_mod + flag + l_n + digests + tail);
    assert(data.subrange(path_at, fields_at) =~= pb);
    assert(data =~= (head + l_path + pb) + l_size + (l_mod + flag + l_n + digests + tail));
    lemma_u64_at_written(head + l_path + pb, f.size, l_mod + flag + l_n + digests + tail);
    assert(data =~= (head + l_path + pb + l_size) + l_mod + (flag + l_n + digests + tail));
    lemma_u64_at_written(head + l_path + pb + l_size, f.modified, flag + l_n + digests + tail);
    assert(data =~= (head + l_path + pb + l_size + l_mod + flag) + l_n + (digests + tail));
    lemma_u64_at_written(head + l_path + pb + l_size + l_mod + flag, nb as u64, digests + tail);
    let read = Seq::new(nb as nat, |i: int| data.subrange(digests_at + 32 * i, digests_at + 32 * i + 32));
    assert forall|i: int| 0 <= i < nb implies read[i] == f.blocks[i] by {
        lemma_concat_part(f.blocks, i);
        lemma_offset_fixed(f.blocks, 32, i);
    }
    assert(read =~= f.blocks);
}

/// The whole of `parts` ends where its last part ends.
pub proof fn lemma_offset_step_all(parts: Seq<Seq<u8>>)
    ensures
        offset_in(parts, parts.len() as int) == concat(parts).len(),
{
    assert(parts.take(parts.len() as int) =~= parts);
}

/// In what was written for `blocks` after a header, the declared lengths
/// add up to where the payloads start.
proof fn lemma_index_written(data: Seq<u8>, blocks: Seq<StoredBlock>, rest: Seq<u8>, i: int)
    requires
        0 <= i < blocks.len(),
        data.len() >= HEADER_LEN,
        data.subrange(HEADER_LEN as int, data.len() as int) == concat(index_parts(blocks)) + rest,
        forall|j: int|
            0 <= j < blocks.len() ==> {
                &&& (#[trigger] blocks[j]).digest.len() == 32
                &&& blocks[j].original_len <= u64::MAX
                &&& blocks[j].compressed.len() <= u64::MAX
            },
    ensures
        index_pos(i) + 48 <= data.len(),
        data.subrange(index_pos(i), index_pos(i) + 32) == blocks[i].digest,
        u64_at(data, index_pos(i) + 32) == blocks[i].original_len,
        u64_at(data, index_pos(i) + 40) == blocks[i].compressed.len(),
{
    lemma_auto_spec_u64_to_from_le_bytes();
    let parts = index_parts(blocks);
    let b = blocks[i];
    lemma_concat_part(parts, i);
    lemma_offset_fixed(parts, 48, i);
    let rec = index_record(b);
    let body = data.subrange(HEADER_LEN as int, data.len() as int);
    assert(body.len() == concat(parts).len() + rest.len());
    assert(data.subrange(index_pos(i), index_pos(i) + 48) =~= rec) by {
        assert(data.subrange(index_pos(i), index_pos(i) + 48) =~= body.subrange(
            48 * i,
            48 * i + 48,
        ));
    }
    let window = data.subrange(index_pos(i), index_pos(i) + 48);
    assert(data.subrange(index_pos(i) + 32, index_pos(i) + 40) =~= window.subrange(32, 40));
    assert(window.subrange(32, 40) =~= spec_u64_to_le_bytes(b.original_len as u64));
    assert(data.subrange(index_pos(i) + 40, index_pos(i) + 48) =~= window.subrange(40, 48));
    assert(window.subrange(40, 48) =~= spec_u64_to_le_bytes(b.compressed.len() as u64));
}

/// The sum of the lengths that the index declares is where the payloads lie
/// among themselves.
proof fn lemma_payload_offsets_written(
    data: Seq<u8>,
    blocks: Seq<StoredBlock>,
    rest: Seq<u8>,
    i: int,
)
    requires
        0 <= i <= blocks.len(),
        data.len() >= HEADER_LEN,
        data.subrange(HEADER_LEN as int, data.len() as int) == concat(index_parts(blocks)) + rest,
        forall|j: int|
            0 <= j < blocks.len() ==> {
                &&& (#[trigger] blocks[j]).digest.len() == 32
                &&& blocks[j].original_len <= u64::MAX
                &&& blocks[j].compressed.len() <= u64::MAX
            },
    ensures
        payload_offset(data, i) == offset_in(payload_parts(blocks), i),
    decreases i,
{
    if i > 0 {
        lemma_payload_offsets_written(data, blocks, rest, i - 1);
        lemma_index_written(data, blocks, rest, i - 1);
        lemma_offset_step(payload_parts(blocks), i - 1);
    }
}

/// Reading what was written gives the image back.
pub proof fn lemma_parse_image_written(img: Image)
    requires
        writable_image(img),
    ensures
        parse_image(image_bytes(img)) == Some(img),
{
    lemma_auto_spec_u64_to_from_le_bytes();
    let h = img.header;
    let n = img.blocks.len() as int;
    let m = img.files.len();
    let data = image_bytes(img);
    let hb = header_bytes(h);
    let ib = concat(index_parts(img.blocks));
    let pb = concat(payload_parts(img.blocks));
    let lm = spec_u64_to_le_bytes(m as u64);
    let fb = ser_many(file_writer(), img.files);
    let v = spec_u32_to_le_bytes(h.version);
    let c = spec_u64_to_le_bytes(h.created);
    let tf = spec_u64_to_le_bytes(h.total_files);
    let ts = spec_u64_to_le_bytes(h.total_size);
    let cs = spec_u64_to_le_bytes(h.compressed_size);
    let bc = spec_u64_to_le_bytes(h.block_count);
    let body = ib + pb + lm + fb;
    let e = Seq::<u8>::empty();
    assert(data =~= e + v + (c + tf + ts + cs + bc + body));
    lemma_u32_at_written(e, h.version, c + tf + ts + cs + bc + body);
    assert(data =~= v + c + (tf + ts + cs + bc + body));
    lemma_u64_at_written(v, h.created, tf + ts + cs + bc + body);
    assert(data =~= (v + c) + tf + (ts + cs + bc + body));
    lemma_u64_at_written(v + c, h.total_files, ts + cs + bc + body);
    assert(data =~= (v + c + tf) + ts + (cs + bc + body));
    lemma_u64_at_written(v + c + tf, h.total_size, cs + bc + body);
    assert(data =~= (v + c + tf + ts) + cs + (bc + body));
    lemma_u64_at_written(v + c + tf + ts, h.compressed_size, bc + body);
    assert(data =~= (v + c + tf + ts + cs) + bc + body);
    lemma_u64_at_written(v + c + tf + ts + cs, h.block_count, body);
    let rest = pb + lm + fb;
    assert(data.subrange(HEADER_LEN as int, data.len() as int) =~= ib + rest);
    let parts = index_parts(img.blocks);
    lemma_offset_fixed(parts, 48, n);
    lemma_offset_step_all(parts);
    lemma_payload_offsets_written(data, img.blocks, rest, n);
    let pay = payload_parts(img.blocks);
    lemma_offset_step_all(pay);
    lemma_u64_at_written(hb + ib + pb, m as u64, fb);
    let read = parsed_blocks(data, n);
    assert forall|i: int| 0 <= i < n implies read[i] == img.blocks[i] by {
        lemma_index_written(data, img.blocks, rest, i);
        lemma_payload_offsets_written(data, img.blocks, rest, i + 1);
        lemma_concat_part(pay, i);
        lemma_offset_step(pay, i);
        assert(data.subrange(
            index_pos(n) + payload_offset(data, i),
            index_pos(n) + payload_offset(data, i + 1),
        ) =~= pb.subrange(offset_in(pay, i), offset_in(pay, i) + pay[i].len()));
    }
    assert(read =~= img.blocks);
    let head = hb + ib + pb + lm;
    assert forall|i: int, h2: Seq<u8>, t2: Seq<u8>| 0 <= i < img.files.len() implies #[trigger] file_reader()(
        h2 + file_writer()(img.files[i]) + t2,
        h2.len() as int,
    ) == Some((img.files[i], (h2.len() + file_writer()(img.files[i]).len()) as int)) by {
        lemma_parse_file_written(img.files[i], h2, t2);
    }
    lemma_parse_many_written(file_writer(), file_reader(), img.files, head, e);
}
} // verus!
