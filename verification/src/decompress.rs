//! Reading the files back out of a plain or a solid archive.

use crate::codec::{zstd_content, zstd_decode};
use crate::compress::{
    blob_holds, jobs_match, joined, prepared, solid_index_of, solid_model, successes, JobModel,
};
use crate::error::{io_error_text, DecompressionError};
pub use crate::path::sanitize_path;
use crate::path::{is_refused, sanitized, stays_as_it_is};
use crate::text::trim;
use crate::solid::{
    decode_solid, lemma_parse_solid_written, parse_solid, solid_bytes, writable_solid,
    SolidEntry, SolidIndex, SolidModel, SolidRecord, MAX_DICTIONARY_LEN,
};
use crate::tree::{extracted_views, EntryModel, ExtractedEntry, ExtractedModel};
use crate::wire::u64_at;
use crate::zpp::{
    archive_records, decode_plain, lemma_parse_plain_written, parse_plain, plain_bytes,
    writable_record, ArchiveEntry, ArchiveRecord,
};
use vstd::prelude::*;
use vstd::slice::*;

verus! {
/// What `decompress_archive` is asked to do: where the archive is, and the
/// root under which its files go.
#[derive(Debug, Clone)]
pub struct DecompressionOptions {
    pub input_path: String,
    pub output_path: String,
}

impl Default for DecompressionOptions {
    fn default() -> (r: Self)
        ensures
            r.input_path@ == Seq::<char>::empty(),
            r.output_path@ == Seq::<char>::empty(),
    {
        DecompressionOptions { input_path: String::new(), output_path: String::new() }
    }
}

/// What is extracted for one record of a plain archive: its safe path and
/// its decompressed payload.
pub open spec fn extracted_record(e: ArchiveRecord) -> Option<ExtractedModel> {
    match (sanitized(e.path), zstd_content(e.payload, Seq::empty())) {
        (Some(path), Some(content)) => Some(
            ExtractedModel { path, is_directory: false, content },
        ),
        _ => None,
    }
}

/// What is extracted for `recs`, in order; nothing where one of them gives
/// nothing.
pub open spec fn extracted_records(recs: Seq<ArchiveRecord>) -> Option<Seq<ExtractedModel>>
    decreases recs.len(),
{
    if recs.len() == 0 {
        Some(Seq::empty())
    } else {
        match (extracted_records(recs.drop_last()), extracted_record(recs.last())) {
            (Some(head), Some(last)) => Some(head.push(last)),
            _ => None,
        }
    }
}

/// Extracts one record of a plain archive: makes its path safe, then
/// decompresses its payload. A caller that goes through the records one
/// by one keeps what came before a record that fails.
pub fn extract_record(entry: &ArchiveEntry) -> (r: Result<ExtractedEntry, DecompressionError>)
    ensures
        match r {
            Ok(e) => extracted_record(entry@) == Some(e@),
            Err(DecompressionError::InvalidFormat) => sanitized(entry.relative_path@) is None,
            Err(DecompressionError::DecompressionFailed(_)) => sanitized(entry.relative_path@)
                is Some && zstd_content(entry.compressed_bytes@, Seq::empty()) is None,
            Err(DecompressionError::Io(_)) => false,
        },
{
    let path = match sanitize_path(entry.relative_path.as_str()) {
        Ok(p) => p,
        Err(e) => { return Err(e); },
    };
    let empty: Vec<u8> = Vec::new();
    match zstd_decode(entry.compressed_bytes.as_slice(), empty.as_slice()) {
        Ok(content) => Ok(ExtractedEntry { path, is_directory: false, content }),
        Err(e) => Err(DecompressionError::DecompressionFailed(io_error_text(&e))),
    }
}

/// What is extracted from the plain archive `data`.
pub open spec fn extracted_plain(data: Seq<u8>) -> Option<Seq<ExtractedModel>> {
    match parse_plain(data) {
        None => None,
        Some(recs) => extracted_records(recs),
    }
}

/// `data` is a plain archive, and each of its paths can be made safe.
pub open spec fn plain_well_formed(data: Seq<u8>) -> bool {
    match parse_plain(data) {
        None => false,
        Some(recs) => forall|i: int| 0 <= i < recs.len() ==> sanitized((#[trigger] recs[i]).path) is Some,
    }
}

/// Extracts every file of the plain archive `data`, in the order of its
/// records. An archive that is malformed, or holds a path that cannot be
/// made safe, is refused as a whole before anything is decompressed.
#[verifier::loop_isolation(false)]
pub fn extract_plain(data: &[u8]) -> (r: Result<Vec<ExtractedEntry>, DecompressionError>)
    ensures
        match r {
            Ok(out) => extracted_plain(data@) == Some(extracted_views(out@)),
            Err(DecompressionError::InvalidFormat) => !plain_well_formed(data@),
            Err(DecompressionError::DecompressionFailed(_)) => plain_well_formed(data@)
                && extracted_plain(data@) is None,
            Err(DecompressionError::Io(_)) => false,
        },
        extracted_plain(data@) is Some ==> r is Ok,
        !plain_well_formed(data@) ==> r matches Err(DecompressionError::InvalidFormat),
{
    proof {
        if extracted_plain(data@) is Some {
            lemma_plain_needs_paths(parse_plain(data@)->0);
        }
    }
    let entries = match decode_plain(data) {
        Some(x) => x,
        None => { return Err(DecompressionError::InvalidFormat); },
    };
    let ghost recs = archive_records(entries@);
    let n = entries.len();
    let mut paths: Vec<String> = Vec::new();
    let mut i: usize = 0;
    while i < n
        invariant
            i <= n,
            paths@.len() == i,
            forall|k: int| 0 <= k < i ==> sanitized((#[trigger] recs[k]).path) == Some(paths@[k]@),
        decreases n - i,
    {
        match sanitize_path(entries[i].relative_path.as_str()) {
            Ok(p) => {
                paths.push(p);
            },
            Err(_) => {
                assert(recs[i as int].path == entries@[i as int].relative_path@);
                return Err(DecompressionError::InvalidFormat);
            },
        }
        i += 1;
    }
    let empty: Vec<u8> = Vec::new();
    let mut out: Vec<ExtractedEntry> = Vec::new();
    i = 0;
    while i < n
        invariant
            i <= n,
            extracted_records(recs.take(i as int)) == Some(extracted_views(out@)),
        decreases n - i,
    {
        let content = match zstd_decode(entries[i].compressed_bytes.as_slice(), empty.as_slice()) {
            Ok(v) => v,
            Err(e) => {
                proof {
                    assert(recs.take(i + 1).drop_last() =~= recs.take(i as int));
                    assert(recs[i as int] == entries@[i as int]@);
                    assert(extracted_record(recs[i as int]) is None);
                    lemma_records_prefix_fail(recs, i + 1);
                }
                return Err(DecompressionError::DecompressionFailed(io_error_text(&e)));
            },
        };
        let e = ExtractedEntry { path: paths[i].clone(), is_directory: false, content };
        out.push(e);
        proof {
            assert(recs.take(i + 1).drop_last() =~= recs.take(i as int));
        }
        i += 1;
    }
    assert(recs.take(n as int) =~= recs);
    Ok(out)
}

/// What is extracted for one record of a solid index: its safe path, and
/// the bytes of `buffer` that it points at; nothing where the path cannot
/// be made safe or the bytes lie outside the buffer.
pub open spec fn extracted_solid_entry(buffer: Seq<u8>, e: SolidRecord) -> Option<ExtractedModel> {
    match sanitized(e.path) {
        None => None,
        Some(path) => if e.start + e.length <= buffer.len() {
            Some(
                ExtractedModel {
                    path,
                    is_directory: false,
                    content: buffer.subrange(e.start as int, e.start + e.length),
                },
            )
        } else {
            None
        },
    }
}

/// What is extracted for `index`, in order; nothing where one of its
/// records gives nothing.
pub open spec fn extracted_solid_entries(buffer: Seq<u8>, index: Seq<SolidRecord>) -> Option<
    Seq<ExtractedModel>,
>
    decreases index.len(),
{
    if index.len() == 0 {
        Some(Seq::empty())
    } else {
        match (
            extracted_solid_entries(buffer, index.drop_last()),
            extracted_solid_entry(buffer, index.last()),
        ) {
            (Some(head), Some(last)) => Some(head.push(last)),
            _ => None,
        }
    }
}

/// Decompresses the blob of a solid archive with its dictionary: the
/// bytes that the records of its index point into.
pub fn read_blob(archive: &SolidIndex) -> (r: Result<Vec<u8>, DecompressionError>)
    ensures
        match r {
            Ok(buffer) => zstd_content(archive@.blob, archive@.dictionary) == Some(buffer@),
            Err(e) => e is DecompressionFailed && zstd_content(
                archive@.blob,
                archive@.dictionary,
            ) is None,
        },
{
    match zstd_decode(archive.blob.as_slice(), archive.dictionary.as_slice()) {
        Ok(buffer) => Ok(buffer),
        Err(e) => Err(DecompressionError::DecompressionFailed(io_error_text(&e))),
    }
}

/// Extracts one record of a solid index from the decompressed bytes
/// `buffer`: makes its path safe, then takes the bytes that it points at.
/// A record whose path has no safe form, or that points outside the
/// buffer, is refused. A caller that goes through the records one by one
/// keeps what came before a record that fails.
pub fn extract_solid_entry(buffer: &[u8], entry: &SolidEntry) -> (r: Result<
    ExtractedEntry,
    DecompressionError,
>)
    ensures
        match r {
            Ok(e) => extracted_solid_entry(buffer@, entry@) == Some(e@),
            Err(e) => e is InvalidFormat && extracted_solid_entry(buffer@, entry@) is None,
        },
{
    let path = match sanitize_path(entry.path.as_str()) {
        Ok(p) => p,
        Err(e) => { return Err(e); },
    };
    let len = buffer.len();
    if entry.start > len as u64 || entry.length > len as u64 - entry.start {
        return Err(DecompressionError::InvalidFormat);
    }
    let start = entry.start as usize;
    let end = start + entry.length as usize;
    let content = slice_to_vec(slice_subrange(buffer, start, end));
    Ok(ExtractedEntry { path, is_directory: false, content })
}

/// What is extracted from the solid archive `data`.
pub open spec fn extracted_solid(data: Seq<u8>) -> Option<Seq<ExtractedModel>> {
    match parse_solid(data) {
        None => None,
        Some(m) => match zstd_content(m.blob, m.dictionary) {
            None => None,
            Some(buffer) => extracted_solid_entries(buffer, m.index),
        },
    }
}

/// `data` is a solid archive, and each of its paths can be made safe.
pub open spec fn solid_well_formed(data: Seq<u8>) -> bool {
    match parse_solid(data) {
        None => false,
        Some(m) => forall|i: int|
            0 <= i < m.index.len() ==> sanitized((#[trigger] m.index[i]).path) is Some,
    }
}

/// Extracts every file of the solid archive `data`, in the order of its
/// index: the blob is decompressed once with the dictionary, and each file
/// is the run of bytes that its record points at. An archive that is
/// malformed, or holds a path that cannot be made safe, is refused before
/// anything is decompressed; one whose index points outside the
/// decompressed bytes is refused after.
#[verifier::loop_isolation(false)]
pub fn extract_solid(data: &[u8]) -> (r: Result<Vec<ExtractedEntry>, DecompressionError>)
    ensures
        match r {
            Ok(out) => extracted_solid(data@) == Some(extracted_views(out@)),
            Err(DecompressionError::InvalidFormat) => extracted_solid(data@) is None && (
            solid_well_formed(data@) ==> zstd_content(
                parse_solid(data@)->0.blob,
                parse_solid(data@)->0.dictionary,
            ) is Some),
            Err(DecompressionError::DecompressionFailed(_)) => solid_well_formed(data@)
                && extracted_solid(data@) is None,
            Err(DecompressionError::Io(_)) => false,
        },
        extracted_solid(data@) is Some ==> r is Ok,
        !solid_well_formed(data@) ==> r matches Err(DecompressionError::InvalidFormat),
        data@.len() >= 8 && u64_at(data@, 0) > MAX_DICTIONARY_LEN ==> r matches Err(
            DecompressionError::InvalidFormat,
        ),
{
    let archive = match decode_solid(data) {
        Some(x) => x,
        None => { return Err(DecompressionError::InvalidFormat); },
    };
    let ghost m = archive@;
    let n = archive.index.len();
    let mut paths: Vec<String> = Vec::new();
    let mut i: usize = 0;
    while i < n
        invariant
            i <= n,
            paths@.len() == i,
            forall|k: int| 0 <= k < i ==> sanitized((#[trigger] m.index[k]).path) == Some(paths@[k]@),
        decreases n - i,
    {
        match sanitize_path(archive.index[i].path.as_str()) {
            Ok(p) => {
                paths.push(p);
            },
            Err(_) => {
                assert(extracted_solid(data@) is None) by {
                    if zstd_content(m.blob, m.dictionary) is Some {
                        lemma_solid_needs_paths(
                            zstd_content(m.blob, m.dictionary)->0,
                            m.index,
                            i as int,
                        );
                    }
                }
                return Err(DecompressionError::InvalidFormat);
            },
        }
        i += 1;
    }
    let buffer = match zstd_decode(archive.blob.as_slice(), archive.dictionary.as_slice()) {
        Ok(v) => v,
        Err(e) => { return Err(DecompressionError::DecompressionFailed(io_error_text(&e))); },
    };
    let len = buffer.len();
    let mut out: Vec<ExtractedEntry> = Vec::new();
    i = 0;
    while i < n
        invariant
            i <= n,
            extracted_solid_entries(buffer@, m.index.take(i as int)) == Some(
                extracted_views(out@),
            ),
        decreases n - i,
    {
        let e = &archive.index[i];
        proof {
            assert(m.index.take(i + 1).drop_last() =~= m.index.take(i as int));
        }
        if e.start > len as u64 || e.length > len as u64 - e.start {
            proof {
                lemma_solid_prefix_fails(buffer@, m.index, i + 1);
            }
            return Err(DecompressionError::InvalidFormat);
        }
        let start = e.start as usize;
        let end = start + e.length as usize;
        let content = slice_to_vec(slice_subrange(buffer.as_slice(), start, end));
        let x = ExtractedEntry { path: paths[i].clone(), is_directory: false, content };
        out.push(x);
        i += 1;
    }
    assert(m.index.take(n as int) =~= m.index);
    Ok(out)
}

/// Where the first `k` records give nothing, all of them give nothing.
proof fn lemma_solid_prefix_fails(buffer: Seq<u8>, index: Seq<SolidRecord>, k: int)
    requires
        0 <= k <= index.len(),
        extracted_solid_entries(buffer, index.take(k)) is None,
    ensures
        extracted_solid_entries(buffer, index) is None,
    decreases index.len() - k,
{
    if k < index.len() {
        assert(index.take(k + 1).drop_last() =~= index.take(k));
        lemma_solid_prefix_fails(buffer, index, k + 1);
    } else {
        assert(index.take(k) =~= index);
    }
}

/// A record whose path cannot be made safe lets the whole index give
/// nothing.
proof fn lemma_solid_needs_paths(buffer: Seq<u8>, index: Seq<SolidRecord>, i: int)
    requires
        0 <= i < index.len(),
        sanitized(index[i].path) is None,
    ensures
        extracted_solid_entries(buffer, index) is None,
{
    lemma_solid_prefix_fails(buffer, index, i + 1);
}

/// The two forms of an archive.
#[derive(Debug, Clone, Copy, PartialEq, Eq, Structural)]
pub enum ArchiveForm {
    /// One record per file, each compressed by itself.
    Plain,
    /// One compressed blob for all files, with a dictionary and an index.
    Solid,
}

/// What is extracted from the archive `data`, read in the form `form`.
pub open spec fn extracted_as(data: Seq<u8>, form: ArchiveForm) -> Option<Seq<ExtractedModel>> {
    match form {
        ArchiveForm::Plain => extracted_plain(data),
        ArchiveForm::Solid => extracted_solid(data),
    }
}

/// The archive `data` is well formed as one of the form `form`.
pub open spec fn well_formed_as(data: Seq<u8>, form: ArchiveForm) -> bool {
    match form {
        ArchiveForm::Plain => plain_well_formed(data),
        ArchiveForm::Solid => solid_well_formed(data),
    }
}

/// The form as which `data` is read where nobody names one: a solid
/// archive where it has the layout of one, else a plain one.
pub open spec fn form_of(data: Seq<u8>) -> ArchiveForm {
    if parse_solid(data) is Some {
        ArchiveForm::Solid
    } else {
        ArchiveForm::Plain
    }
}

/// Tells the form of an archive by its layout.
pub fn detect_form(data: &[u8]) -> (r: ArchiveForm)
    ensures
        r == form_of(data@),
{
    match decode_solid(data) {
        Some(_) => ArchiveForm::Solid,
        None => ArchiveForm::Plain,
    }
}

/// A solid archive that can be written is told as one.
pub proof fn lemma_solid_is_detected(m: SolidModel)
    requires
        writable_solid(m),
    ensures
        form_of(solid_bytes(m)) == ArchiveForm::Solid,
{
    lemma_parse_solid_written(m);
}

/// An archive that holds a path which starts at a root, or carries a drive
/// marker, is not well formed in the form in which it holds that path.
pub proof fn lemma_rooted_path_is_refused(data: Seq<u8>, form: ArchiveForm, i: int)
    requires
        match form {
            ArchiveForm::Plain => parse_plain(data) is Some && 0 <= i < parse_plain(data)->0.len()
                && is_refused(trim(parse_plain(data)->0[i].path)),
            ArchiveForm::Solid => parse_solid(data) is Some && 0 <= i < parse_solid(
                data,
            )->0.index.len() && is_refused(trim(parse_solid(data)->0.index[i].path)),
        },
    ensures
        !well_formed_as(data, form),
{
}

/// Extracts every file of an archive of the form that the caller names.
/// It succeeds exactly where the archive gives its files in that form: it
/// is well formed, every path in it can be made safe, and zstd reads what
/// it holds. An archive that is not well formed is refused as a whole with
/// `InvalidFormat`; so is a solid one whose index points outside what its
/// blob holds. `DecompressionFailed` says that zstd refused a payload of a
/// well-formed archive.
pub fn decompress_archive(data: &[u8], form: ArchiveForm) -> (r: Result<
    Vec<ExtractedEntry>,
    DecompressionError,
>)
    ensures
        match r {
            Ok(out) => extracted_as(data@, form) == Some(extracted_views(out@)),
            Err(DecompressionError::InvalidFormat) => extracted_as(data@, form) is None && (
            well_formed_as(data@, form) ==> form is Solid && zstd_content(
                parse_solid(data@)->0.blob,
                parse_solid(data@)->0.dictionary,
            ) is Some),
            Err(DecompressionError::DecompressionFailed(_)) => well_formed_as(data@, form)
                && extracted_as(data@, form) is None,
            Err(DecompressionError::Io(_)) => false,
        },
        extracted_as(data@, form) is Some ==> r is Ok,
        !well_formed_as(data@, form) ==> r matches Err(DecompressionError::InvalidFormat),
        form is Solid && data@.len() >= 8 && u64_at(data@, 0) > MAX_DICTIONARY_LEN ==> r matches Err(
            DecompressionError::InvalidFormat,
        ),
{
    match form {
        ArchiveForm::Plain => {
            let r = extract_plain(data);
            proof {
                if extracted_plain(data@) is Some {
                    lemma_plain_needs_paths(parse_plain(data@)->0);
                }
            }
            r
        },
        ArchiveForm::Solid => extract_solid(data),
    }
}

/// Where the first `k` records give nothing, all of them give nothing.
proof fn lemma_records_prefix_fail(recs: Seq<ArchiveRecord>, k: int)
    requires
        0 <= k <= recs.len(),
        extracted_records(recs.take(k)) is None,
    ensures
        extracted_records(recs) is None,
    decreases recs.len() - k,
{
    if k < recs.len() {
        assert(recs.take(k + 1).drop_last() =~= recs.take(k));
        lemma_records_prefix_fail(recs, k + 1);
    } else {
        assert(recs.take(k) =~= recs);
    }
}

/// Records that give something all have paths that can be made safe.
proof fn lemma_plain_needs_paths(recs: Seq<ArchiveRecord>)
    requires
        extracted_records(recs) is Some,
    ensures
        forall|i: int| 0 <= i < recs.len() ==> sanitized((#[trigger] recs[i]).path) is Some,
    decreases recs.len(),
{
    if recs.len() > 0 {
        lemma_plain_needs_paths(recs.drop_last());
        assert forall|i: int| 0 <= i < recs.len() implies sanitized((#[trigger] recs[i]).path) is Some by {
            if i < recs.len() - 1 {
                assert(recs.drop_last()[i] == recs[i]);
            }
        }
    }
}

/// The files that come back for `recs` where each gives `contents` at its
/// place.
pub open spec fn restored_records(recs: Seq<ArchiveRecord>, contents: Seq<Seq<u8>>) -> Seq<
    ExtractedModel,
> {
    Seq::new(
        recs.len(),
        |i: int| ExtractedModel { path: recs[i].path, is_directory: false, content: contents[i] },
    )
}

/// Extracting a plain archive gives back, for every record, its path and
/// the bytes that were compressed for it. This holds of records that can
/// be written, with paths that the sanitizer leaves as they are, whose
/// payloads give those bytes back.
pub proof fn lemma_plain_round_trip(recs: Seq<ArchiveRecord>, contents: Seq<Seq<u8>>)
    requires
        recs.len() == contents.len(),
        forall|i: int|
            0 <= i < recs.len() ==> writable_record(#[trigger] recs[i]) && stays_as_it_is(
                recs[i].path,
            ) && zstd_content(recs[i].payload, Seq::empty()) == Some(contents[i]),
    ensures
        extracted_plain(plain_bytes(recs)) == Some(restored_records(recs, contents)),
{
    lemma_parse_plain_written(recs);
    lemma_records_restored(recs, contents, recs.len() as int);
    assert(recs.take(recs.len() as int) =~= recs);
}

/// The first `n` records come back.
proof fn lemma_records_restored(recs: Seq<ArchiveRecord>, contents: Seq<Seq<u8>>, n: int)
    requires
        recs.len() == contents.len(),
        0 <= n <= recs.len(),
        forall|i: int|
            0 <= i < recs.len() ==> stays_as_it_is((#[trigger] recs[i]).path) && zstd_content(
                recs[i].payload,
                Seq::empty(),
            ) == Some(contents[i]),
    ensures
        extracted_records(recs.take(n)) == Some(restored_records(recs, contents).take(n)),
    decreases n,
{
    if n > 0 {
        lemma_records_restored(recs, contents, n - 1);
        assert(recs.take(n).drop_last() =~= recs.take(n - 1));
    }
}

/// What comes back for the files of `entries` whose jobs gave a payload:
/// the path, and the bytes that were prepared for compression, which for
/// a file that is no text are the bytes of the file.
pub open spec fn restored_jobs(entries: Seq<EntryModel>, jobs: Seq<JobModel>) -> Seq<
    ExtractedModel,
>
    decreases entries.len(),
{
    if entries.len() == 0 || jobs.len() == 0 {
        Seq::empty()
    } else if entries.last().is_directory {
        restored_jobs(entries.drop_last(), jobs)
    } else if jobs.last().payload is Some {
        restored_jobs(entries.drop_last(), jobs.drop_last()).push(
            ExtractedModel {
                path: entries.last().path,
                is_directory: false,
                content: prepared(entries.last().path, entries.last().content),
            },
        )
    } else {
        restored_jobs(entries.drop_last(), jobs.drop_last())
    }
}

/// Extracting the plain archive of a tree gives back every file that went
/// into it, with its path and the bytes that were prepared for it: for a
/// file that is no text, the bytes of the file. This holds of a tree with
/// paths that the sanitizer leaves as they are.
pub proof fn lemma_folder_round_trip(entries: Seq<EntryModel>, jobs: Seq<JobModel>)
    requires
        jobs_match(entries, jobs),
        forall|i: int|
            0 <= i < entries.len() && !(#[trigger] entries[i]).is_directory ==> stays_as_it_is(
                entries[i].path,
            ),
    ensures
        extracted_plain(plain_bytes(successes(jobs))) == Some(restored_jobs(entries, jobs)),
{
    lemma_jobs_restored(entries, jobs);
    let recs = successes(jobs);
    let back = restored_jobs(entries, jobs);
    let contents = Seq::new(recs.len(), |i: int| back[i].content);
    lemma_plain_round_trip(recs, contents);
}

/// The records of the jobs that gave a payload can be written and read,
/// and hold what was prepared.
proof fn lemma_jobs_restored(entries: Seq<EntryModel>, jobs: Seq<JobModel>)
    requires
        jobs_match(entries, jobs),
        forall|i: int|
            0 <= i < entries.len() && !(#[trigger] entries[i]).is_directory ==> stays_as_it_is(
                entries[i].path,
            ),
    ensures
        successes(jobs).len() == restored_jobs(entries, jobs).len(),
        forall|i: int|
            0 <= i < successes(jobs).len() ==> {
                &&& writable_record(#[trigger] successes(jobs)[i])
                &&& stays_as_it_is(successes(jobs)[i].path)
                &&& restored_jobs(entries, jobs)[i].path == successes(jobs)[i].path
                &&& !restored_jobs(entries, jobs)[i].is_directory
                &&& zstd_content(successes(jobs)[i].payload, Seq::empty()) == Some(
                    restored_jobs(entries, jobs)[i].content,
                )
            },
    decreases entries.len(),
{
    if entries.len() > 0 {
        let init = entries.drop_last();
        let last = entries.last();
        if last.is_directory {
            lemma_jobs_restored(init, jobs);
        } else {
            let rest = jobs.drop_last();
            lemma_jobs_restored(init, rest);
        }
    }
}

/// The files among `entries` as they come back out of a solid archive.
pub open spec fn restored_files(entries: Seq<EntryModel>) -> Seq<ExtractedModel>
    decreases entries.len(),
{
    if entries.len() == 0 {
        Seq::empty()
    } else if entries.last().is_directory {
        restored_files(entries.drop_last())
    } else {
        restored_files(entries.drop_last()).push(
            ExtractedModel {
                path: entries.last().path,
                is_directory: false,
                content: entries.last().content,
            },
        )
    }
}

/// The index of `entries` leads back to their bytes in any buffer that
/// starts with their joined bytes.
proof fn lemma_solid_entries_restored(entries: Seq<EntryModel>, buffer: Seq<u8>)
    requires
        joined(entries).len() <= buffer.len(),
        buffer.subrange(0, joined(entries).len() as int) == joined(entries),
        buffer.len() <= u64::MAX,
        forall|i: int|
            0 <= i < entries.len() && !(#[trigger] entries[i]).is_directory ==> stays_as_it_is(
                entries[i].path,
            ),
    ensures
        extracted_solid_entries(buffer, solid_index_of(entries)) == Some(restored_files(entries)),
    decreases entries.len(),
{
    if entries.len() > 0 {
        let init = entries.drop_last();
        let last = entries.last();
        assert(buffer.subrange(0, joined(init).len() as int) =~= joined(entries).subrange(
            0,
            joined(init).len() as int,
        ));
        assert(joined(entries).subrange(0, joined(init).len() as int) =~= joined(init));
        lemma_solid_entries_restored(init, buffer);
        if !last.is_directory {
            let start = joined(init).len() as int;
            assert(buffer.subrange(start, start + last.content.len()) =~= last.content) by {
                assert(buffer.subrange(start, start + last.content.len()) =~= buffer.subrange(
                    0,
                    joined(entries).len() as int,
                ).subrange(start, start + last.content.len()));
            }
            assert(solid_index_of(entries).drop_last() =~= solid_index_of(init));
        }
    }
}

/// Extracting a solid archive gives every file back byte for byte,
/// whatever its kind. This holds of an archive that can be written, whose
/// blob gives the joined bytes back, and of files with paths that the
/// sanitizer leaves as they are.
pub proof fn lemma_solid_round_trip(entries: Seq<EntryModel>, dictionary: Seq<u8>, level: int)
    requires
        writable_solid(solid_model(entries, dictionary, level)),
        blob_holds(solid_model(entries, dictionary, level), joined(entries)),
        joined(entries).len() <= u64::MAX,
        forall|i: int|
            0 <= i < entries.len() && !(#[trigger] entries[i]).is_directory ==> stays_as_it_is(
                entries[i].path,
            ),
    ensures
        extracted_solid(solid_bytes(solid_model(entries, dictionary, level))) == Some(
            restored_files(entries),
        ),
{
    let m = solid_model(entries, dictionary, level);
    lemma_parse_solid_written(m);
    let buffer = joined(entries);
    assert(buffer.subrange(0, buffer.len() as int) =~= buffer);
    lemma_solid_entries_restored(entries, buffer);
}
} // verus!
