//! The plain archive container: one record per file, each a path that a
//! zero byte ends, the length of the payload and the payload; an empty path
//! ends the archive.

use crate::wire::{
    get_bytes, get_u64, lemma_u64_at_written, put_bytes, put_u64, ser_many, string_from_utf8,
    u64_at,
};
use vstd::bytes::*;
use vstd::prelude::*;
use vstd::utf8::*;

verus! {
/// One file of a plain archive: where it was, and its compressed bytes.
#[derive(Debug, Clone)]
pub struct ArchiveEntry {
    pub relative_path: String,
    pub compressed_bytes: Vec<u8>,
}

/// An archive entry as the contracts see it.
pub ghost struct ArchiveRecord {
    pub path: Seq<char>,
    pub payload: Seq<u8>,
}

impl View for ArchiveEntry {
    type V = ArchiveRecord;

    open spec fn view(&self) -> ArchiveRecord {
        ArchiveRecord { path: self.relative_path@, payload: self.compressed_bytes@ }
    }
}

/// The entries of `entries`, each as its record.
pub open spec fn archive_records(entries: Seq<ArchiveEntry>) -> Seq<ArchiveRecord> {
    Seq::new(entries.len(), |i: int| entries[i]@)
}

/// A path can stand in a record: written as UTF-8 it is not empty and
/// holds no zero byte.
pub open spec fn storable_path(path: Seq<char>) -> bool {
    encode_utf8(path).len() > 0 && forall|i: int|
        0 <= i < encode_utf8(path).len() ==> #[trigger] encode_utf8(path)[i] != 0
}

/// One record: the path, a zero byte, the length of the payload, the
/// payload.
pub open spec fn record_bytes(e: ArchiveRecord) -> Seq<u8> {
    encode_utf8(e.path) + seq![0u8] + spec_u64_to_le_bytes(e.payload.len() as u64) + e.payload
}

/// `record_bytes` as a value.
pub open spec fn record_writer() -> spec_fn(ArchiveRecord) -> Seq<u8> {
    |e: ArchiveRecord| record_bytes(e)
}

/// The bytes of a plain archive: the records in order, then an empty path.
pub open spec fn plain_bytes(entries: Seq<ArchiveRecord>) -> Seq<u8> {
    ser_many(record_writer(), entries) + seq![0u8]
}

/// Where the first zero byte at or after `pos` stands; the length of
/// `data` where there is none.
pub open spec fn zero_from(data: Seq<u8>, pos: int) -> int
    decreases data.len() - pos,
{
    if pos < 0 || pos >= data.len() {
        data.len() as int
    } else if data[pos] == 0 {
        pos
    } else {
        zero_from(data, pos + 1)
    }
}

/// The record that starts at `pos`, and the position behind it; nothing
/// where the data end too early or the path is no UTF-8.
pub open spec fn parse_record(data: Seq<u8>, pos: int) -> Option<(ArchiveRecord, int)> {
    let nul = zero_from(data, pos);
    if pos < 0 || nul >= data.len() || !valid_utf8(data.subrange(pos, nul)) || nul + 9
        > data.len() {
        None
    } else {
        let size = u64_at(data, nul + 1) as int;
        if nul + 9 + size > data.len() {
            None
        } else {
            Some(
                (
                    ArchiveRecord {
                        path: decode_utf8(data.subrange(pos, nul)),
                        payload: data.subrange(nul + 9, nul + 9 + size),
                    },
                    nul + 9 + size,
                ),
            )
        }
    }
}

/// The records from `pos` up to the empty path that ends the archive;
/// nothing where a record is malformed or the archive ends without an
/// empty path. What follows the empty path is not read.
pub open spec fn parse_records(data: Seq<u8>, pos: int) -> Option<Seq<ArchiveRecord>>
    decreases data.len() - pos,
{
    if pos < 0 || pos >= data.len() {
        None
    } else if data[pos] == 0 {
        Some(Seq::empty())
    } else {
        match parse_record(data, pos) {
            None => None,
            Some((e, next)) => if next <= pos {
                None
            } else {
                match parse_records(data, next) {
                    None => None,
                    Some(rest) => Some(seq![e] + rest),
                }
            },
        }
    }
}

/// The records of the plain archive `data`.
pub open spec fn parse_plain(data: Seq<u8>) -> Option<Seq<ArchiveRecord>> {
    parse_records(data, 0)
}

/// Where the bytes from `pos` to `end` are not zero and the one at `end`
/// is, the first zero byte from `pos` stands at `end`.
pub proof fn lemma_zero_at(data: Seq<u8>, pos: int, end: int)
    requires
        0 <= pos <= end < data.len(),
        forall|i: int| pos <= i < end ==> #[trigger] data[i] != 0,
        data[end] == 0,
    ensures
        zero_from(data, pos) == end,
    decreases end - pos,
{
    if pos < end {
        lemma_zero_at(data, pos + 1, end);
    }
}

/// Writes a plain archive: the records of `entries` in order, then the
/// empty path that ends it.
pub fn encode_plain(entries: &Vec<ArchiveEntry>) -> (r: Vec<u8>)
    ensures
        r@ == plain_bytes(archive_records(entries@)),
{
    let n = entries.len();
    let ghost recs = archive_records(entries@);
    let mut out: Vec<u8> = Vec::new();
    let mut i: usize = 0;
    while i < n
        invariant
            n == entries@.len(),
            recs == archive_records(entries@),
            i <= n,
            out@ == ser_many(record_writer(), recs.take(i as int)),
        decreases n - i,
    {
        let e = &entries[i];
        put_bytes(&mut out, e.relative_path.as_str().as_bytes());
        out.push(0u8);
        put_u64(&mut out, e.compressed_bytes.len() as u64);
        put_bytes(&mut out, e.compressed_bytes.as_slice());
        proof {
            assert(recs.take(i + 1).drop_last() =~= recs.take(i as int));
        }
        i += 1;
    }
    assert(recs.take(n as int) =~= recs);
    out.push(0u8);
    out
}

fn find_zero(data: &[u8], pos: usize) -> (r: usize)
    requires
        pos <= data@.len(),
    ensures
        r == zero_from(data@, pos as int),
        pos <= r <= data@.len(),
{
    let n = data.len();
    let mut i: usize = pos;
    while i < n && data[i] != 0
        invariant
            n == data@.len(),
            pos <= i <= n,
            zero_from(data@, pos as int) == zero_from(data@, i as int),
        decreases n - i,
    {
        i += 1;
    }
    i
}

fn read_record(data: &[u8], pos: usize) -> (r: Option<(ArchiveEntry, usize)>)
    requires
        pos <= data@.len(),
    ensures
        match r {
            Some((e, next)) => parse_record(data@, pos as int) == Some((e@, next as int)) && pos
                < next <= data@.len(),
            None => parse_record(data@, pos as int) is None,
        },
{
    let len = data.len();
    let nul = find_zero(data, pos);
    if nul >= len {
        return None;
    }
    let path_bytes = match get_bytes(data, pos, nul - pos) {
        Some(b) => b,
        None => { return None; },
    };
    let relative_path = match string_from_utf8(path_bytes) {
        Some(s) => s,
        None => { return None; },
    };
    let size = match get_u64(data, nul + 1) {
        Some(x) => x,
        None => { return None; },
    };
    if size > (len - (nul + 9)) as u64 {
        return None;
    }
    let compressed_bytes = match get_bytes(data, nul + 9, size as usize) {
        Some(b) => b,
        None => { return None; },
    };
    Some((ArchiveEntry { relative_path, compressed_bytes }, nul + 9 + size as usize))
}

/// Reads the records of a plain archive, up to the empty path that ends
/// it.
pub fn decode_plain(data: &[u8]) -> (r: Option<Vec<ArchiveEntry>>)
    ensures
        match r {
            Some(entries) => parse_plain(data@) == Some(archive_records(entries@)),
            None => parse_plain(data@) is None,
        },
{
    let len = data.len();
    let mut out: Vec<ArchiveEntry> = Vec::new();
    let mut pos: usize = 0;
    while pos < len && data[pos] != 0
        invariant
            len == data@.len(),
            pos <= len,
            parse_plain(data@) == match parse_records(data@, pos as int) {
                None => None,
                Some(rest) => Some(archive_records(out@) + rest),
            },
        decreases len - pos,
    {
        match read_record(data, pos) {
            None => { return None; },
            Some((e, next)) => {
                out.push(e);
                pos = next;
            },
        }
    }
    if pos >= len {
        return None;
    }
    Some(out)
}

/// A record can be written and read back: its path can stand in a record,
/// and the length of its payload fits its field.
pub open spec fn writable_record(e: ArchiveRecord) -> bool {
    storable_path(e.path) && e.payload.len() <= u64::MAX
}

/// A record that was written after `head` is read back from there.
pub proof fn lemma_parse_record_written(e: ArchiveRecord, head: Seq<u8>, tail: Seq<u8>)
    requires
        writable_record(e),
    ensures
        parse_record(head + record_bytes(e) + tail, head.len() as int) == Some(
            (e, (head.len() + record_bytes(e).len()) as int),
        ),
        (head + record_bytes(e) + tail)[head.len() as int] != 0,
        record_bytes(e).len() > 0,
{
    broadcast use encode_utf8_valid_utf8, encode_utf8_decode_utf8;

    let data = head + record_bytes(e) + tail;
    let pb = encode_utf8(e.path);
    let pos = head.len() as int;
    let nul = pos + pb.len();
    let size = spec_u64_to_le_bytes(e.payload.len() as u64);
    lemma_zero_at(data, pos, nul);
    assert(data.subrange(pos, nul) =~= pb);
    assert(data =~= (head + pb + seq![0u8]) + size + (e.payload + tail));
    lemma_u64_at_written(head + pb + seq![0u8], e.payload.len() as u64, e.payload + tail);
    assert(data.subrange(nul + 9, nul + 9 + e.payload.len()) =~= e.payload);
}

/// What was written for the records from the `k`-th on is read back as
/// them.
proof fn lemma_parse_records_written(entries: Seq<ArchiveRecord>, k: int)
    requires
        0 <= k <= entries.len(),
        forall|i: int| 0 <= i < entries.len() ==> writable_record(#[trigger] entries[i]),
    ensures
        parse_records(
            plain_bytes(entries),
            ser_many(record_writer(), entries.take(k)).len() as int,
        ) == Some(entries.skip(k)),
    decreases entries.len() - k,
{
    let data = plain_bytes(entries);
    let done = ser_many(record_writer(), entries.take(k));
    if k == entries.len() {
        assert(entries.take(k) =~= entries);
    } else {
        let e = entries[k];
        let next = ser_many(record_writer(), entries.take(k + 1));
        assert(entries.take(k + 1).drop_last() =~= entries.take(k));
        lemma_ser_many_take(entries, k + 1);
        let tail = data.subrange(next.len() as int, data.len() as int);
        assert(data =~= done + record_bytes(e) + tail);
        lemma_parse_record_written(e, done, tail);
        lemma_parse_records_written(entries, k + 1);
    }
}

/// What is written for the first `k` items starts what is written for all
/// of them.
pub proof fn lemma_ser_many_take(entries: Seq<ArchiveRecord>, k: int)
    requires
        0 <= k <= entries.len(),
    ensures
        ser_many(record_writer(), entries.take(k)).len() <= ser_many(
            record_writer(),
            entries,
        ).len(),
        ser_many(record_writer(), entries).subrange(
            0,
            ser_many(record_writer(), entries.take(k)).len() as int,
        ) == ser_many(record_writer(), entries.take(k)),
    decreases entries.len() - k,
{
    if k == entries.len() {
        assert(entries.take(k) =~= entries);
    } else {
        lemma_ser_many_take(entries, k + 1);
        assert(entries.take(k + 1).drop_last() =~= entries.take(k));
    }
}

/// The bytes of an archive in which, after the records of `before`, a
/// record for `path` declares a payload of `size` bytes and only `rest`
/// follows.
pub open spec fn cut_short(
    before: Seq<ArchiveRecord>,
    path: Seq<char>,
    size: u64,
    rest: Seq<u8>,
) -> Seq<u8> {
    ser_many(record_writer(), before) + encode_utf8(path) + seq![0u8] + spec_u64_to_le_bytes(
        size,
    ) + rest
}

/// What is read from behind the first `k` records of an archive that is
/// cut short is nothing.
proof fn lemma_cut_short_from(
    before: Seq<ArchiveRecord>,
    path: Seq<char>,
    size: u64,
    rest: Seq<u8>,
    k: int,
)
    requires
        0 <= k <= before.len(),
        forall|i: int| 0 <= i < before.len() ==> writable_record(#[trigger] before[i]),
        storable_path(path),
        size > rest.len(),
    ensures
        parse_records(
            cut_short(before, path, size, rest),
            ser_many(record_writer(), before.take(k)).len() as int,
        ) is None,
    decreases before.len() - k,
{
    broadcast use encode_utf8_valid_utf8;

    let data = cut_short(before, path, size, rest);
    let done = ser_many(record_writer(), before.take(k));
    let pos = done.len() as int;
    if k == before.len() {
        assert(before.take(k) =~= before);
        let pb = encode_utf8(path);
        let nul = pos + pb.len();
        assert(data =~= (done + pb + seq![0u8]) + spec_u64_to_le_bytes(size) + rest);
        lemma_u64_at_written(done + pb + seq![0u8], size, rest);
        lemma_zero_at(data, pos, nul);
        assert(data.subrange(pos, nul) =~= pb);
        assert(data[pos] == pb[0]);
        assert(parse_record(data, pos) is None);
    } else {
        let e = before[k];
        let next = ser_many(record_writer(), before.take(k + 1));
        assert(before.take(k + 1).drop_last() =~= before.take(k));
        lemma_ser_many_take(before, k + 1);
        let tail = data.subrange(next.len() as int, data.len() as int);
        assert(data =~= done + record_bytes(e) + tail);
        lemma_parse_record_written(e, done, tail);
        lemma_cut_short_from(before, path, size, rest, k + 1);
    }
}

/// An archive in which a record declares more payload than there are bytes
/// left is no plain archive, whatever stands before that record.
pub proof fn lemma_cut_short_is_refused(
    before: Seq<ArchiveRecord>,
    path: Seq<char>,
    size: u64,
    rest: Seq<u8>,
)
    requires
        forall|i: int| 0 <= i < before.len() ==> writable_record(#[trigger] before[i]),
        storable_path(path),
        size > rest.len(),
    ensures
        parse_plain(cut_short(before, path, size, rest)) is None,
{
    lemma_cut_short_from(before, path, size, rest, 0);
}

/// Reading what was written gives the records back.
pub proof fn lemma_parse_plain_written(entries: Seq<ArchiveRecord>)
    requires
        forall|i: int| 0 <= i < entries.len() ==> writable_record(#[trigger] entries[i]),
    ensures
        parse_plain(plain_bytes(entries)) == Some(entries),
{
    lemma_parse_records_written(entries, 0);
}
} // verus!
