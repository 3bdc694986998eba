//! The solid archive container: a dictionary, one compressed blob that
//! holds the bytes of all files one after the other, and an index that
//! says where each file lies in the decompressed blob.

use crate::codec::{is_single_frame, zstd_first_frame_len, zstd_frame_len};
use crate::wire::{
    get_bytes, get_u64, lemma_parse_many_fails, lemma_parse_many_written, lemma_u64_at_written,
    parse_many, put_bytes, put_u64, ser_many, string_from_utf8, u64_at,
};
use vstd::bytes::*;
use vstd::prelude::*;
use vstd::slice::*;
use vstd::utf8::*;

verus! {
/// Largest dictionary that is read, in bytes: 100 MiB.
pub const MAX_DICTIONARY_LEN: usize = 104857600;

/// Where one file lies in the decompressed blob.
#[derive(Debug, Clone)]
pub struct SolidEntry {
    pub path: String,
    pub start: u64,
    pub length: u64,
}

/// A solid entry as the contracts see it.
pub ghost struct SolidRecord {
    pub path: Seq<char>,
    pub start: u64,
    pub length: u64,
}

impl View for SolidEntry {
    type V = SolidRecord;

    open spec fn view(&self) -> SolidRecord {
        SolidRecord { path: self.path@, start: self.start, length: self.length }
    }
}

/// The entries of `index`, each as its record.
pub open spec fn solid_records(index: Seq<SolidEntry>) -> Seq<SolidRecord> {
    Seq::new(index.len(), |i: int| index[i]@)
}

/// A solid archive: the shared dictionary, the compressed blob, and the
/// index of the files.
#[derive(Debug, Clone)]
pub struct SolidIndex {
    pub dictionary: Vec<u8>,
    pub blob: Vec<u8>,
    pub index: Vec<SolidEntry>,
}

/// A solid archive as the contracts see it.
pub ghost struct SolidModel {
    pub dictionary: Seq<u8>,
    pub blob: Seq<u8>,
    pub index: Seq<SolidRecord>,
}

impl View for SolidIndex {
    type V = SolidModel;

    open spec fn view(&self) -> SolidModel {
        SolidModel {
            dictionary: self.dictionary@,
            blob: self.blob@,
            index: solid_records(self.index@),
        }
    }
}

/// One record of the index: path length, path, start, length.
pub open spec fn solid_entry_bytes(e: SolidRecord) -> Seq<u8> {
    spec_u64_to_le_bytes(encode_utf8(e.path).len() as u64) + encode_utf8(e.path)
        + spec_u64_to_le_bytes(e.start) + spec_u64_to_le_bytes(e.length)
}

/// `solid_entry_bytes` as a value.
pub open spec fn solid_entry_writer() -> spec_fn(SolidRecord) -> Seq<u8> {
    |e: SolidRecord| solid_entry_bytes(e)
}

/// The bytes of a solid archive.
pub open spec fn solid_bytes(m: SolidModel) -> Seq<u8> {
    spec_u64_to_le_bytes(m.dictionary.len() as u64) + m.dictionary + m.blob
        + spec_u64_to_le_bytes(m.index.len() as u64) + ser_many(solid_entry_writer(), m.index)
}

/// The dictionary that the solid archive `bytes` carries: what follows its
/// first field, as long as that field says.
pub open spec fn written_dictionary(bytes: Seq<u8>) -> Seq<u8> {
    bytes.subrange(8, 8 + u64_at(bytes, 0))
}

/// The dictionary of a solid archive is the one that is read out of its
/// bytes.
pub proof fn lemma_written_dictionary(m: SolidModel)
    requires
        m.dictionary.len() <= u64::MAX,
    ensures
        written_dictionary(solid_bytes(m)) == m.dictionary,
{
    let data = solid_bytes(m);
    let rest = m.dictionary + m.blob + spec_u64_to_le_bytes(m.index.len() as u64) + ser_many(
        solid_entry_writer(),
        m.index,
    );
    let e = Seq::<u8>::empty();
    assert(data =~= e + spec_u64_to_le_bytes(m.dictionary.len() as u64) + rest);
    lemma_u64_at_written(e, m.dictionary.len() as u64, rest);
    assert(data.subrange(8, 8 + m.dictionary.len() as int) =~= m.dictionary);
}

/// The index record that starts at `pos`, and the position behind it.
pub open spec fn parse_solid_entry(data: Seq<u8>, pos: int) -> Option<(SolidRecord, int)> {
    if pos < 0 || pos + 8 > data.len() {
        None
    } else {
        let path_len = u64_at(data, pos) as int;
        let path_at = pos + 8;
        let fields_at = path_at + path_len;
        if fields_at > data.len() || !valid_utf8(data.subrange(path_at, fields_at)) || fields_at + 16 > data.len() {
            None
        } else {
            Some(
                (
                    SolidRecord {
                        path: decode_utf8(data.subrange(path_at, fields_at)),
                        start: u64_at(data, fields_at),
                        length: u64_at(data, fields_at + 8),
                    },
                    fields_at + 16,
                ),
            )
        }
    }
}

/// `parse_solid_entry` as a value.
pub open spec fn solid_entry_reader() -> spec_fn(Seq<u8>, int) -> Option<(SolidRecord, int)> {
    |data: Seq<u8>, pos: int| parse_solid_entry(data, pos)
}

/// The solid archive that `data` holds, or nothing where `data` is none:
/// where it declares a dictionary above the ceiling, ends too early, holds
/// no whole zstd frame behind the dictionary, or a path that is no UTF-8.
pub open spec fn parse_solid(data: Seq<u8>) -> Option<SolidModel> {
    if data.len() < 8 {
        None
    } else {
        let dict_len = u64_at(data, 0) as int;
        let blob_pos = 8 + dict_len;
        if dict_len > MAX_DICTIONARY_LEN || blob_pos > data.len() {
            None
        } else {
            match zstd_first_frame_len(data.subrange(blob_pos, data.len() as int)) {
                None => None,
                Some(blob_len) => {
                    let index_pos = blob_pos + blob_len;
                    if index_pos + 8 > data.len() {
                        None
                    } else {
                        match parse_many(
                            solid_entry_reader(),
                            data,
                            index_pos + 8,
                            u64_at(data, index_pos) as nat,
                        ) {
                            None => None,
                            Some((index, _)) => Some(
                                SolidModel {
                                    dictionary: data.subrange(8, blob_pos),
                                    blob: data.subrange(blob_pos, index_pos),
                                    index,
                                },
                            ),
                        }
                    }
                },
            }
        }
    }
}

/// Writes a solid archive.
pub fn encode_solid(dictionary: &[u8], blob: &[u8], index: &Vec<SolidEntry>) -> (r: Vec<u8>)
    ensures
        r@ == solid_bytes(
            SolidModel { dictionary: dictionary@, blob: blob@, index: solid_records(index@) },
        ),
{
    let mut out: Vec<u8> = Vec::new();
    put_u64(&mut out, dictionary.len() as u64);
    put_bytes(&mut out, dictionary);
    put_bytes(&mut out, blob);
    let n = index.len();
    put_u64(&mut out, n as u64);
    let ghost head = out@;
    let ghost recs = solid_records(index@);
    let mut i: usize = 0;
    while i < n
        invariant
            n == index@.len(),
            recs == solid_records(index@),
            i <= n,
            out@ == head + ser_many(solid_entry_writer(), recs.take(i as int)),
        decreases n - i,
    {
        let e = &index[i];
        let path = e.path.as_str().as_bytes();
        put_u64(&mut out, path.len() as u64);
        put_bytes(&mut out, path);
        put_u64(&mut out, e.start);
        put_u64(&mut out, e.length);
        proof {
            assert(recs.take(i + 1).drop_last() =~= recs.take(i as int));
        }
        i += 1;
    }
    assert(recs.take(n as int) =~= recs);
    out
}

fn read_solid_entry(data: &[u8], pos: usize) -> (r: Option<(SolidEntry, usize)>)
    ensures
        match r {
            Some((e, next)) => parse_solid_entry(data@, pos as int) == Some((e@, next as int))
                && next <= data@.len(),
            None => parse_solid_entry(data@, pos as int) is None,
        },
{
    let len = data.len();
    let path_len = match get_u64(data, pos) {
        Some(x) => x,
        None => { return None; },
    };
    let path_at = pos + 8;
    if path_len > (len - path_at) as u64 {
        return None;
    }
    let fields_at = path_at + path_len as usize;
    let path_bytes = match get_bytes(data, path_at, path_len as usize) {
        Some(b) => b,
        None => { return None; },
    };
    let path = match string_from_utf8(path_bytes) {
        Some(s) => s,
        None => { return None; },
    };
    if len - fields_at < 16 {
        return None;
    }
    let start = match get_u64(data, fields_at) {
        Some(x) => x,
        None => { return None; },
    };
    let length = match get_u64(data, fields_at + 8) {
        Some(x) => x,
        None => { return None; },
    };
    Some((SolidEntry { path, start, length }, fields_at + 16))
}

/// Reads a solid archive: the dictionary, the blob and the index. A
/// dictionary that is declared longer than the ceiling is refused before
/// any of it is read.
#[verifier::loop_isolation(false)]
pub fn decode_solid(data: &[u8]) -> (r: Option<SolidIndex>)
    ensures
        match r {
            Some(archive) => parse_solid(data@) == Some(archive@),
            None => parse_solid(data@) is None,
        },
        data@.len() >= 8 && u64_at(data@, 0) > MAX_DICTIONARY_LEN ==> r is None,
{
    let len = data.len();
    let declared = match get_u64(data, 0) {
        Some(x) => x,
        None => { return None; },
    };
    if declared > MAX_DICTIONARY_LEN as u64 || declared > (len - 8) as u64 {
        return None;
    }
    let blob_pos = 8 + declared as usize;
    let rest = slice_subrange(data, blob_pos, len);
    let blob_len = match zstd_frame_len(rest) {
        Some(n) => n,
        None => { return None; },
    };
    if blob_len > len - blob_pos || len - blob_pos - blob_len < 8 {
        return None;
    }
    let index_pos = blob_pos + blob_len;
    let count = match get_u64(data, index_pos) {
        Some(x) => x,
        None => { return None; },
    };
    let mut index: Vec<SolidEntry> = Vec::new();
    let mut pos: usize = index_pos + 8;
    let mut k: u64 = 0;
    while k < count
        invariant
            k <= count,
            pos <= len,
            parse_many(solid_entry_reader(), data@, index_pos + 8, k as nat) == Some(
                (solid_records(index@), pos as int),
            ),
        decreases count - k,
    {
        match read_solid_entry(data, pos) {
            Some((e, next)) => {
                index.push(e);
                pos = next;
            },
            None => {
                proof {
                    lemma_parse_many_fails(
                        solid_entry_reader(),
                        data@,
                        index_pos + 8,
                        (k + 1) as nat,
                        count as nat,
                    );
                }
                return None;
            },
        }
        k += 1;
    }
    let dictionary = slice_to_vec(slice_subrange(data, 8, blob_pos));
    let blob = slice_to_vec(slice_subrange(data, blob_pos, index_pos));
    Some(SolidIndex { dictionary, blob, index })
}

/// A solid archive can be written and read back: its dictionary is not
/// above the ceiling, its blob is one whole zstd frame, and all lengths
/// fit their fields.
pub open spec fn writable_solid(m: SolidModel) -> bool {
    &&& m.dictionary.len() <= MAX_DICTIONARY_LEN
    &&& is_single_frame(m.blob)
    &&& m.index.len() <= u64::MAX
    &&& forall|i: int|
        0 <= i < m.index.len() ==> encode_utf8((#[trigger] m.index[i]).path).len() <= u64::MAX
}

/// An index record that was written after `head` is read back from there.
pub proof fn lemma_parse_solid_entry_written(e: SolidRecord, head: Seq<u8>, tail: Seq<u8>)
    requires
        encode_utf8(e.path).len() <= u64::MAX,
    ensures
        parse_solid_entry(head + solid_entry_bytes(e) + tail, head.len() as int) == Some(
            (e, (head.len() + solid_entry_bytes(e).len()) as int),
        ),
{
    broadcast use encode_utf8_valid_utf8, encode_utf8_decode_utf8;

    let data = head + solid_entry_bytes(e) + tail;
    let pb = encode_utf8(e.path);
    let pos = head.len() as int;
    let path_at = pos + 8;
    let fields_at = path_at + pb.len();
    let l_path = spec_u64_to_le_bytes(pb.len() as u64);
    let l_start = spec_u64_to_le_bytes(e.start);
    let l_len = spec_u64_to_le_bytes(e.length);
    assert(data =~= head + l_path + (pb + l_start + l_len + tail));
    lemma_u64_at_written(head, pb.len() as u64, pb + l_start + l_len + tail);
    assert(data.subrange(path_at, fields_at) =~= pb);
    assert(data =~= (head + l_path + pb) + l_start + (l_len + tail));
    lemma_u64_at_written(head + l_path + pb, e.start, l_len + tail);
    assert(data =~= (head + l_path + pb + l_start) + l_len + tail);
    lemma_u64_at_written(head + l_path + pb + l_start, e.length, tail);
}

/// Reading what was written gives the solid archive back.
pub proof fn lemma_parse_solid_written(m: SolidModel)
    requires
        writable_solid(m),
    ensures
        parse_solid(solid_bytes(m)) == Some(m),
{
    let data = solid_bytes(m);
    let ld = spec_u64_to_le_bytes(m.dictionary.len() as u64);
    let lc = spec_u64_to_le_bytes(m.index.len() as u64);
    let entries = ser_many(solid_entry_writer(), m.index);
    let e = Seq::<u8>::empty();
    assert(data =~= e + ld + (m.dictionary + m.blob + lc + entries));
    lemma_u64_at_written(e, m.dictionary.len() as u64, m.dictionary + m.blob + lc + entries);
    let blob_pos = (8 + m.dictionary.len()) as int;
    assert(data.subrange(blob_pos, data.len() as int) =~= m.blob + (lc + entries));
    let index_pos = (blob_pos + m.blob.len()) as int;
    lemma_u64_at_written(ld + m.dictionary + m.blob, m.index.len() as u64, entries);
    assert(data.subrange(8, blob_pos) =~= m.dictionary);
    assert(data.subrange(blob_pos, index_pos) =~= m.blob);
    let head = ld + m.dictionary + m.blob + lc;
    assert forall|i: int, h2: Seq<u8>, t2: Seq<u8>| 0 <= i < m.index.len() implies #[trigger] solid_entry_reader()(
        h2 + solid_entry_writer()(m.index[i]) + t2,
        h2.len() as int,
    ) == Some((m.index[i], (h2.len() + solid_entry_writer()(m.index[i]).len()) as int)) by {
        lemma_parse_solid_entry_written(m.index[i], h2, t2);
    }
    lemma_parse_many_written(solid_entry_writer(), solid_entry_reader(), m.index, head, e);
}
} // verus!
