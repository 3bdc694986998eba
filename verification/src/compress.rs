//! Building archives: one compression job per file for the plain archive,
//! and one compressed stream with a shared dictionary for the solid one.

use crate::codec::{
    frame_bytes, is_single_frame, zstd_content, zstd_encode, zstd_frame, zstd_train,
    total_len, trainable, training_count, DICTIONARY_HEADER_SIZE, DICTIONARY_SIZE, MAX_SAMPLES,
    MAX_SAMPLE_SIZE, MIN_TRAINING_SIZE,
};
use crate::error::{io_error_text, CompressionError};
use crate::profile::{detect_profile, detected_profile, is_text, lower_extension};
use crate::profile::extension;
use crate::solid::{
    encode_solid, lemma_written_dictionary, solid_bytes, solid_records, writable_solid,
    written_dictionary, SolidEntry, SolidModel, SolidRecord, MAX_DICTIONARY_LEN,
};
use crate::text::{chars_of, lower_text, string_of, trim_lines, trimmed_text};
use crate::tree::{entry_views, EntryModel, TreeEntry};
use crate::wire::{byte_views, put_bytes};
use crate::zpp::{
    archive_records, encode_plain, plain_bytes, storable_path, ArchiveEntry, ArchiveRecord,
};
use vstd::prelude::*;
use vstd::slice::*;
use vstd::string::*;
use vstd::utf8::*;

verus! {
/// What `compress_directory` is asked to do.
#[derive(Debug, Clone)]
pub struct CompressionOptions {
    pub input_path: String,
    pub output_path: String,
    pub threads: usize,
    pub level: i32,
    pub solid: bool,
}

/// What kind of file a name stands for, as far as preprocessing goes.
#[derive(Debug, Clone, Copy, PartialEq, Eq, Structural)]
pub enum FileType {
    Text,
    Binary,
    Json,
    Lua,
    Python,
    Other,
}

impl FileType {
    /// Files of this kind are text, and are preprocessed as text.
    pub open spec fn text_like(self) -> bool {
        self is Text || self is Json || self is Lua || self is Python
    }

    /// Whether files of this kind are preprocessed as text.
    pub fn is_text_like(&self) -> (r: bool)
        ensures
            r == self.text_like(),
    {
        match self {
            FileType::Text | FileType::Json | FileType::Lua | FileType::Python => true,
            FileType::Binary | FileType::Other => false,
        }
    }
}

/// The kind of a file with the extension `ext`, given in lower case.
pub open spec fn file_type_of(ext: Seq<char>) -> FileType {
    if ext == "txt"@ || ext == "md"@ || ext == "log"@ {
        FileType::Text
    } else if ext == "json"@ {
        FileType::Json
    } else if ext == "lua"@ {
        FileType::Lua
    } else if ext == "py"@ {
        FileType::Python
    } else if ext == "bin"@ || ext == "exe"@ || ext == "dll"@ || ext == "so"@ || ext == "dylib"@ {
        FileType::Binary
    } else {
        FileType::Other
    }
}

/// The kind of the file that `path` leads to.
pub open spec fn detected_file_type(path: Seq<char>) -> FileType {
    file_type_of(lower_text(extension(path)))
}

/// Tells the kind of a file by the extension of its name, whatever the
/// case of its letters.
pub fn detect_file_type(path: &str) -> (r: FileType)
    ensures
        r == detected_file_type(path@),
{
    let ext = lower_extension(path);
    if is_text(&ext, "txt") || is_text(&ext, "md") || is_text(&ext, "log") {
        FileType::Text
    } else if is_text(&ext, "json") {
        FileType::Json
    } else if is_text(&ext, "lua") {
        FileType::Lua
    } else if is_text(&ext, "py") {
        FileType::Python
    } else if is_text(&ext, "bin") || is_text(&ext, "exe") || is_text(&ext, "dll") || is_text(
        &ext,
        "so",
    ) || is_text(&ext, "dylib") {
        FileType::Binary
    } else {
        FileType::Other
    }
}

/// The text that `bytes` stand for, with a replacement character for each
/// run of bytes that is no UTF-8.
pub uninterp spec fn utf8_lossy(bytes: Seq<u8>) -> Seq<char>;

/// `String::from_utf8_lossy`: the text of `bytes`, a function of them; for
/// valid UTF-8 it is the text that they encode.
#[verifier::external_body]
pub(crate) fn lossy_text(bytes: &[u8]) -> (r: String)
    ensures
        r@ == utf8_lossy(bytes@),
        valid_utf8(bytes@) ==> r@ == decode_utf8(bytes@),
{
    String::from_utf8_lossy(bytes).into_owned()
}

/// What is compressed for a text file: its text with the white space at
/// the end of each line cut and single line feeds between the lines,
/// written as UTF-8.
pub open spec fn preprocessed(content: Seq<u8>) -> Seq<u8> {
    encode_utf8(trimmed_text(utf8_lossy(content)))
}

/// What is compressed for the file at `path`: its bytes as they are, or
/// preprocessed where its kind is text.
pub open spec fn prepared(path: Seq<char>, content: Seq<u8>) -> Seq<u8> {
    if detected_file_type(path).text_like() {
        preprocessed(content)
    } else {
        content
    }
}

/// Cuts the white space at the end of each line of a text file.
pub fn preprocess_text(content: &[u8]) -> (r: Vec<u8>)
    ensures
        r@ == preprocessed(content@),
{
    let text = lossy_text(content);
    let chars = chars_of(text.as_str());
    let cut = trim_lines(&chars);
    let out = string_of(cut.as_slice());
    slice_to_vec(out.as_str().as_bytes())
}

/// The frame `frame` holds `data`, compressed at `level` without a
/// dictionary, and gives it back.
pub open spec fn is_frame_of(frame: Seq<u8>, data: Seq<u8>, level: int) -> bool {
    zstd_frame(data, level, Seq::empty()) == Some(frame) && zstd_content(frame, Seq::empty())
        == Some(data)
}

/// The job for one file: preprocesses its bytes where its kind is text,
/// and compresses them at `level`. It fails exactly where the compressor
/// gives no frame for the prepared bytes.
pub fn process_file(path: &str, content: &[u8], level: i32) -> (r: Result<
    Vec<u8>,
    CompressionError,
>)
    ensures
        match r {
            Ok(frame) => is_frame_of(frame@, prepared(path@, content@), level as int),
            Err(e) => e is CompressionFailed,
        },
        r is Ok <==> zstd_frame(prepared(path@, content@), level as int, Seq::empty()) is Some,
{
    let empty: Vec<u8> = Vec::new();
    let kind = detect_file_type(path);
    let result = if kind.is_text_like() {
        let processed = preprocess_text(content);
        zstd_encode(processed.as_slice(), level, empty.as_slice())
    } else {
        zstd_encode(content, level, empty.as_slice())
    };
    match result {
        Ok(frame) => Ok(frame),
        Err(e) => Err(CompressionError::CompressionFailed(io_error_text(&e))),
    }
}

/// What became of one file's job: its path, and its compressed bytes or
/// the reason why there are none.
#[derive(Debug)]
pub struct CompressionJob {
    pub relative_path: String,
    pub result: Result<Vec<u8>, CompressionError>,
}

/// A job as the contracts see it.
pub ghost struct JobModel {
    pub path: Seq<char>,
    pub payload: Option<Seq<u8>>,
}

impl View for CompressionJob {
    type V = JobModel;

    open spec fn view(&self) -> JobModel {
        JobModel {
            path: self.relative_path@,
            payload: match self.result {
                Ok(v) => Some(v@),
                Err(_) => None,
            },
        }
    }
}

/// The jobs of `jobs`, each as its model.
pub open spec fn job_views(jobs: Seq<CompressionJob>) -> Seq<JobModel> {
    Seq::new(jobs.len(), |i: int| jobs[i]@)
}

/// The records of the jobs that gave compressed bytes, in the order of the
/// jobs.
pub open spec fn successes(jobs: Seq<JobModel>) -> Seq<ArchiveRecord>
    decreases jobs.len(),
{
    if jobs.len() == 0 {
        Seq::empty()
    } else {
        match jobs.last().payload {
            Some(payload) => successes(jobs.drop_last()).push(
                ArchiveRecord { path: jobs.last().path, payload },
            ),
            None => successes(jobs.drop_last()),
        }
    }
}

/// The level at which the file at `path` is compressed in a plain archive:
/// that of its profile.
pub open spec fn level_of(path: Seq<char>) -> int {
    detected_profile(path).level() as int
}

/// What the job of `e` gives: the frame of the prepared bytes at the level
/// of the file's profile, or nothing where the path cannot stand in a
/// record or the compressor gives no frame.
pub open spec fn job_of(e: EntryModel) -> JobModel {
    JobModel {
        path: e.path,
        payload: if storable_path(e.path) {
            zstd_frame(prepared(e.path, e.content), level_of(e.path), Seq::empty())
        } else {
            None
        },
    }
}

/// The job of `e` did what it was for: it gave what `job_of` says, and a
/// frame that it gave holds the prepared bytes of the file and fits the
/// length field of a record.
pub open spec fn job_done(e: EntryModel, job: JobModel) -> bool {
    &&& job == job_of(e)
    &&& job.payload matches Some(frame) ==> frame.len() <= u64::MAX && zstd_content(
        frame,
        Seq::empty(),
    ) == Some(prepared(e.path, e.content))
}

/// Whether `path`, written as UTF-8, can stand in a record of a plain
/// archive.
pub fn is_storable(path: &str) -> (r: bool)
    ensures
        r == storable_path(path@),
{
    let bytes = path.as_bytes();
    let n = bytes.len();
    if n == 0 {
        return false;
    }
    let mut i: usize = 0;
    while i < n
        invariant
            n == bytes@.len(),
            bytes@ == encode_utf8(path@),
            i <= n,
            forall|j: int| 0 <= j < i ==> #[trigger] bytes@[j] != 0,
        decreases n - i,
    {
        if bytes[i] == 0 {
            return false;
        }
        i += 1;
    }
    true
}

/// Runs the job of one file: tells its profile, preprocesses and
/// compresses its bytes at the profile's level. A file whose path cannot
/// stand in a record is refused with `InvalidFormat`; nothing is compressed
/// for it. One for which the compressor gives no frame fails with
/// `CompressionFailed`.
pub fn compress_entry(entry: &TreeEntry) -> (r: CompressionJob)
    ensures
        job_done(entry@, r@),
        r.result is Ok <==> storable_path(entry.path@) && zstd_frame(
            prepared(entry.path@, entry.content@),
            level_of(entry.path@),
            Seq::empty(),
        ) is Some,
        r.result matches Err(e) ==> if storable_path(entry.path@) {
            e is CompressionFailed
        } else {
            e is InvalidFormat
        },
{
    let relative_path = entry.path.clone();
    if !is_storable(entry.path.as_str()) {
        return CompressionJob { relative_path, result: Err(CompressionError::InvalidFormat) };
    }
    let level = detect_profile(entry.path.as_str()).get_compression_level();
    let result = process_file(entry.path.as_str(), entry.content.as_slice(), level);
    if let Ok(frame) = &result {
        let len = frame.len();
        assert(frame@.len() <= u64::MAX);
    }
    CompressionJob { relative_path, result }
}

/// A plain archive and what did not go into it.
#[derive(Debug)]
pub struct ArchiveOutput {
    /// The bytes of the archive.
    pub bytes: Vec<u8>,
    /// For each job, in order, whether its file is in the archive.
    pub stored: Vec<bool>,
    /// The errors of the jobs whose files are not, in order.
    pub failures: Vec<CompressionError>,
}

/// Number of jobs among `jobs` that gave nothing.
pub open spec fn failure_count(jobs: Seq<JobModel>) -> nat
    decreases jobs.len(),
{
    if jobs.len() == 0 {
        0
    } else if jobs.last().payload is None {
        failure_count(jobs.drop_last()) + 1
    } else {
        failure_count(jobs.drop_last())
    }
}

/// The errors of the jobs that gave nothing, in the order of the jobs.
pub open spec fn failures_of(jobs: Seq<CompressionJob>) -> Seq<CompressionError>
    decreases jobs.len(),
{
    if jobs.len() == 0 {
        Seq::empty()
    } else {
        match jobs.last().result {
            Ok(_) => failures_of(jobs.drop_last()),
            Err(e) => failures_of(jobs.drop_last()).push(e),
        }
    }
}

/// Writes the results of the jobs into a plain archive, in the order in
/// which the jobs were handed in, whatever the order in which they were
/// done. A job that failed leaves its file out; the archive holds the
/// others, and the errors of those that failed come back in their order.
pub fn write_archive(jobs: Vec<CompressionJob>) -> (r: ArchiveOutput)
    ensures
        r.bytes@ == plain_bytes(successes(job_views(jobs@))),
        r.stored@.len() == jobs@.len(),
        forall|i: int| 0 <= i < jobs@.len() ==> r.stored@[i] == (jobs@[i].result is Ok),
        r.failures@ == failures_of(jobs@),
        r.failures@.len() == failure_count(job_views(jobs@)),
{
    let ghost models = job_views(jobs@);
    let ghost all = jobs@;
    let mut entries: Vec<ArchiveEntry> = Vec::new();
    let mut stored: Vec<bool> = Vec::new();
    let mut failures: Vec<CompressionError> = Vec::new();
    for job in it: jobs
        invariant
            it.seq() == all,
            models == job_views(all),
            archive_records(entries@) == successes(models.take(it.index() as int)),
            stored@.len() == it.index(),
            forall|i: int| 0 <= i < it.index() ==> stored@[i] == (all[i].result is Ok),
            failures@.len() == failure_count(models.take(it.index() as int)),
            failures@ == failures_of(all.take(it.index() as int)),
    {
        let ghost done = it.index() as int;
        proof {
            assert(models.take(done + 1).drop_last() =~= models.take(done));
            assert(all.take(done + 1).drop_last() =~= all.take(done));
            assert(all.take(done + 1).last() == job);
        }
        let CompressionJob { relative_path, result } = job;
        match result {
            Ok(compressed_bytes) => {
                let e = ArchiveEntry { relative_path, compressed_bytes };
                entries.push(e);
                stored.push(true);
            },
            Err(e) => {
                stored.push(false);
                failures.push(e);
            },
        }
    }
    assert(models.take(all.len() as int) =~= models);
    assert(all.take(all.len() as int) =~= all);
    ArchiveOutput { bytes: encode_plain(&entries), stored, failures }
}

/// The jobs of the files among `entries`, in order: directories have none.
pub open spec fn jobs_match(entries: Seq<EntryModel>, jobs: Seq<JobModel>) -> bool
    decreases entries.len(),
{
    if entries.len() == 0 {
        jobs.len() == 0
    } else if entries.last().is_directory {
        jobs_match(entries.drop_last(), jobs)
    } else {
        jobs.len() > 0 && job_done(entries.last(), jobs.last()) && jobs_match(
            entries.drop_last(),
            jobs.drop_last(),
        )
    }
}

/// Runs the jobs of all files of `tree`, one after the other and in the
/// order of the walk.
pub fn compress_entries(tree: &Vec<TreeEntry>) -> (r: Vec<CompressionJob>)
    ensures
        jobs_match(entry_views(tree@), job_views(r@)),
{
    let n = tree.len();
    let ghost entries = entry_views(tree@);
    let mut jobs: Vec<CompressionJob> = Vec::new();
    let mut i: usize = 0;
    while i < n
        invariant
            n == tree@.len(),
            entries == entry_views(tree@),
            i <= n,
            jobs_match(entries.take(i as int), job_views(jobs@)),
        decreases n - i,
    {
        let ghost before = job_views(jobs@);
        proof {
            assert(entries.take(i + 1).drop_last() =~= entries.take(i as int));
        }
        if !tree[i].is_directory {
            let job = compress_entry(&tree[i]);
            let ghost model = job@;
            jobs.push(job);
            proof {
                assert(job_views(jobs@) =~= before.push(model));
                assert(before.push(model).drop_last() =~= before);
            }
        }
        i += 1;
    }
    assert(entries.take(n as int) =~= entries);
    jobs
}

/// For each job, in order, whether it gave a payload.
pub open spec fn stored_flags(jobs: Seq<JobModel>) -> Seq<bool> {
    Seq::new(jobs.len(), |i: int| jobs[i].payload is Some)
}

/// The jobs of the files among `entries`, in the order of the walk:
/// directories have none.
pub open spec fn jobs_of(entries: Seq<EntryModel>) -> Seq<JobModel>
    decreases entries.len(),
{
    if entries.len() == 0 {
        Seq::empty()
    } else if entries.last().is_directory {
        jobs_of(entries.drop_last())
    } else {
        jobs_of(entries.drop_last()).push(job_of(entries.last()))
    }
}

/// Jobs that did what they were for are the jobs of the entries.
pub proof fn lemma_jobs_determined(entries: Seq<EntryModel>, jobs: Seq<JobModel>)
    requires
        jobs_match(entries, jobs),
    ensures
        jobs == jobs_of(entries),
    decreases entries.len(),
{
    if entries.len() > 0 {
        if entries.last().is_directory {
            lemma_jobs_determined(entries.drop_last(), jobs);
        } else {
            lemma_jobs_determined(entries.drop_last(), jobs.drop_last());
            assert(jobs.drop_last().push(jobs.last()) =~= jobs);
        }
    } else {
        assert(jobs =~= Seq::<JobModel>::empty());
    }
}

/// Builds the plain archive of `tree`: one job per file, each at the level
/// of the file's profile, and the results written in the order of the
/// walk. Directories are not stored. A file whose job fails is left out:
/// the flags that come back say, for each file in order, whether it is in
/// the archive, and the archive holds the frames of those that are. A
/// file is in the archive exactly where its path can stand in a record
/// and the compressor gives a frame for its prepared bytes.
pub fn compress_folder(options: &CompressionOptions, tree: &Vec<TreeEntry>) -> (r: ArchiveOutput)
    ensures
        r.bytes@ == plain_bytes(successes(jobs_of(entry_views(tree@)))),
        jobs_match(entry_views(tree@), jobs_of(entry_views(tree@))),
        r.stored@ == stored_flags(jobs_of(entry_views(tree@))),
        r.failures@.len() == failure_count(jobs_of(entry_views(tree@))),
{
    let jobs = compress_entries(tree);
    let ghost models = job_views(jobs@);
    let out = write_archive(jobs);
    proof {
        lemma_jobs_determined(entry_views(tree@), models);
        assert(out.stored@ =~= stored_flags(models));
    }
    out
}

/// Fewest samples that a dictionary is trained on.
pub const MIN_SAMPLES: usize = 8;

/// The sample of a file: its first bytes, `MAX_SAMPLE_SIZE` at most.
pub open spec fn sample_of(content: Seq<u8>) -> Seq<u8> {
    if content.len() <= MAX_SAMPLE_SIZE {
        content
    } else {
        content.take(MAX_SAMPLE_SIZE as int)
    }
}

/// The samples of `entries`: those of its first files, `MAX_SAMPLES` at
/// most, in the order of the walk.
pub open spec fn samples_of(entries: Seq<EntryModel>) -> Seq<Seq<u8>>
    decreases entries.len(),
{
    if entries.len() == 0 {
        Seq::empty()
    } else {
        let before = samples_of(entries.drop_last());
        if entries.last().is_directory || before.len() >= MAX_SAMPLES {
            before
        } else {
            before.push(sample_of(entries.last().content))
        }
    }
}

/// Picks the samples of `tree` that a dictionary is trained on.
pub fn select_samples(tree: &Vec<TreeEntry>) -> (r: Vec<Vec<u8>>)
    ensures
        byte_views(r@) == samples_of(entry_views(tree@)),
        r@.len() <= MAX_SAMPLES,
        forall|i: int| 0 <= i < r@.len() ==> (#[trigger] r@[i])@.len() <= MAX_SAMPLE_SIZE,
{
    let n = tree.len();
    let ghost entries = entry_views(tree@);
    let mut samples: Vec<Vec<u8>> = Vec::new();
    let mut i: usize = 0;
    while i < n
        invariant
            n == tree@.len(),
            entries == entry_views(tree@),
            i <= n,
            byte_views(samples@) == samples_of(entries.take(i as int)),
            samples@.len() <= MAX_SAMPLES,
            forall|k: int|
                0 <= k < samples@.len() ==> (#[trigger] samples@[k])@.len() <= MAX_SAMPLE_SIZE,
        decreases n - i,
    {
        proof {
            assert(entries.take(i + 1).drop_last() =~= entries.take(i as int));
        }
        if !tree[i].is_directory && samples.len() < MAX_SAMPLES {
            let content = tree[i].content.as_slice();
            let len = if content.len() <= MAX_SAMPLE_SIZE {
                content.len()
            } else {
                MAX_SAMPLE_SIZE
            };
            let sample = slice_to_vec(slice_subrange(content, 0, len));
            let ghost view = sample@;
            proof {
                assert(view == sample_of(tree@[i as int].content@));
            }
            samples.push(sample);
        }
        i += 1;
    }
    assert(entries.take(n as int) =~= entries);
    samples
}

/// Whether a dictionary can be trained on `samples`.
pub fn is_trainable(samples: &Vec<Vec<u8>>) -> (r: bool)
    ensures
        r == trainable(byte_views(samples@)),
{
    let n = samples.len();
    if n > MAX_SAMPLES {
        return false;
    }
    let ghost views = byte_views(samples@);
    let share = 3 * n / 4;
    let mut sum: usize = 0;
    let mut i: usize = 0;
    while i < n
        invariant
            n == samples@.len(),
            n <= MAX_SAMPLES,
            views == byte_views(samples@),
            share == training_count(n as nat),
            i <= n,
            forall|k: int| 0 <= k < i ==> (#[trigger] views[k]).len() <= MAX_SAMPLE_SIZE,
            sum == total_len(views.take(if i <= share { i as int } else { share as int })),
            sum <= i * MAX_SAMPLE_SIZE,
        decreases n - i,
    {
        let len = samples[i].len();
        assert(views[i as int].len() == len);
        if len > MAX_SAMPLE_SIZE {
            return false;
        }
        if i < share {
            proof {
                assert(views.take(i + 1).drop_last() =~= views.take(i as int));
                assert((i + 1) * MAX_SAMPLE_SIZE == i * MAX_SAMPLE_SIZE + MAX_SAMPLE_SIZE)
                    by (nonlinear_arith);
            }
            sum = sum + len;
        } else {
            proof {
                assert(i * MAX_SAMPLE_SIZE <= (i + 1) * MAX_SAMPLE_SIZE) by (nonlinear_arith);
            }
        }
        i += 1;
    }
    sum >= MIN_TRAINING_SIZE
}

/// Takes the dictionary that the trainer gave: it is kept as it is where
/// it has `DICTIONARY_SIZE` bytes at most, and refused otherwise.
pub fn accept_dictionary(dictionary: Vec<u8>) -> (r: Result<Vec<u8>, CompressionError>)
    ensures
        match r {
            Ok(d) => d@ == dictionary@ && dictionary@.len() <= DICTIONARY_SIZE,
            Err(e) => e is DictionaryError && dictionary@.len() > DICTIONARY_SIZE,
        },
{
    if dictionary.len() <= DICTIONARY_SIZE {
        Ok(dictionary)
    } else {
        Err(CompressionError::DictionaryError(String::from_str("dictionary out of range")))
    }
}

/// Trains the shared dictionary of a solid archive on `samples`. Fewer
/// than `MIN_SAMPLES` samples give no dictionary, that is an empty one,
/// and nothing is trained. Samples that no dictionary can be trained on
/// are refused, and so is a dictionary that comes back longer than
/// `DICTIONARY_SIZE`. A dictionary that was trained holds its header at
/// least.
pub fn train_dictionary(samples: &Vec<Vec<u8>>) -> (r: Result<Vec<u8>, CompressionError>)
    ensures
        match r {
            Ok(d) => d@.len() <= DICTIONARY_SIZE && if samples@.len() < MIN_SAMPLES {
                d@ == Seq::<u8>::empty()
            } else {
                trainable(byte_views(samples@)) && d@.len() >= DICTIONARY_HEADER_SIZE
            },
            Err(e) => e is DictionaryError && samples@.len() >= MIN_SAMPLES,
        },
        samples@.len() < MIN_SAMPLES ==> r is Ok,
        samples@.len() >= MIN_SAMPLES && !trainable(byte_views(samples@)) ==> r is Err,
{
    if samples.len() < MIN_SAMPLES {
        return Ok(Vec::new());
    }
    if !is_trainable(samples) {
        return Err(CompressionError::DictionaryError(String::from_str("samples out of range")));
    }
    match zstd_train(samples, DICTIONARY_SIZE) {
        Ok(d) => accept_dictionary(d),
        Err(e) => Err(CompressionError::DictionaryError(io_error_text(&e))),
    }
}

/// Makes the shared dictionary of a solid archive of `tree` from the
/// samples of its first files: an empty one where there are fewer than
/// `MIN_SAMPLES` samples, else the one that the trainer gives, which has
/// between `DICTIONARY_HEADER_SIZE` and `DICTIONARY_SIZE` bytes.
pub fn generate_global_dictionary(tree: &Vec<TreeEntry>) -> (r: Result<Vec<u8>, CompressionError>)
    ensures
        match r {
            Ok(d) => d@.len() <= DICTIONARY_SIZE && if samples_of(entry_views(tree@)).len()
                < MIN_SAMPLES {
                d@ == Seq::<u8>::empty()
            } else {
                trainable(samples_of(entry_views(tree@))) && d@.len() >= DICTIONARY_HEADER_SIZE
            },
            Err(e) => e is DictionaryError && samples_of(entry_views(tree@)).len() >= MIN_SAMPLES,
        },
        samples_of(entry_views(tree@)).len() < MIN_SAMPLES ==> r is Ok,
        samples_of(entry_views(tree@)).len() >= MIN_SAMPLES && !trainable(
            samples_of(entry_views(tree@)),
        ) ==> r is Err,
{
    let samples = select_samples(tree);
    assert(byte_views(samples@).len() == samples@.len());
    train_dictionary(&samples)
}

/// The bytes of all files among `entries`, one after the other in the
/// order of the walk.
pub open spec fn joined(entries: Seq<EntryModel>) -> Seq<u8>
    decreases entries.len(),
{
    if entries.len() == 0 {
        Seq::empty()
    } else if entries.last().is_directory {
        joined(entries.drop_last())
    } else {
        joined(entries.drop_last()) + entries.last().content
    }
}

/// The index of a solid archive of `entries`: for each file, where its
/// bytes start among the joined bytes, and how many they are.
pub open spec fn solid_index_of(entries: Seq<EntryModel>) -> Seq<SolidRecord>
    decreases entries.len(),
{
    if entries.len() == 0 {
        Seq::empty()
    } else if entries.last().is_directory {
        solid_index_of(entries.drop_last())
    } else {
        solid_index_of(entries.drop_last()).push(
            SolidRecord {
                path: entries.last().path,
                start: joined(entries.drop_last()).len() as u64,
                length: entries.last().content.len() as u64,
            },
        )
    }
}

/// The solid archive of `entries` with `dictionary`, compressed at
/// `level`.
pub open spec fn solid_model(entries: Seq<EntryModel>, dictionary: Seq<u8>, level: int)
    -> SolidModel {
    SolidModel {
        dictionary,
        blob: frame_bytes(joined(entries), level, dictionary),
        index: solid_index_of(entries),
    }
}

/// Where the last of the ranges of `index` ends, if each starts where the
/// one before it ends: the sum of their lengths.
pub open spec fn ranges_end(index: Seq<SolidRecord>) -> int
    decreases index.len(),
{
    if index.len() == 0 {
        0
    } else {
        ranges_end(index.drop_last()) + index.last().length
    }
}

/// The ranges of `index` lie one after the other from the start: none
/// overlaps another, and nothing lies between two of them.
pub open spec fn consecutive(index: Seq<SolidRecord>) -> bool {
    forall|k: int| 0 <= k < index.len() ==> (#[trigger] index[k]).start == ranges_end(index.take(k))
}

/// The index of a solid archive covers the joined bytes exactly: its
/// ranges lie one after the other in the order of the files, and end
/// where the joined bytes end.
pub proof fn lemma_solid_index_covers(entries: Seq<EntryModel>)
    requires
        joined(entries).len() <= u64::MAX,
    ensures
        consecutive(solid_index_of(entries)),
        ranges_end(solid_index_of(entries)) == joined(entries).len(),
    decreases entries.len(),
{
    if entries.len() > 0 {
        let init = entries.drop_last();
        lemma_solid_index_covers(init);
        let index = solid_index_of(entries);
        if !entries.last().is_directory {
            assert forall|k: int| 0 <= k < index.len() implies (#[trigger] index[k]).start
                == ranges_end(index.take(k)) by {
                if k < index.len() - 1 {
                    assert(index.take(k) =~= solid_index_of(init).take(k));
                } else {
                    assert(index.take(k) =~= solid_index_of(init));
                }
            }
        }
    }
}

/// A file that is no text is compressed as it is.
pub proof fn lemma_other_files_stay(path: Seq<char>, content: Seq<u8>)
    requires
        !detected_file_type(path).text_like(),
    ensures
        prepared(path, content) == content,
{
}

/// The blob of `m` is one whole frame that gives `content` back with the
/// dictionary of `m`.
pub open spec fn blob_holds(m: SolidModel, content: Seq<u8>) -> bool {
    is_single_frame(m.blob) && zstd_content(m.blob, m.dictionary) == Some(content)
}

/// Builds a solid archive of `tree` with the given dictionary: the bytes
/// of all files are joined in the order of the walk and compressed once,
/// and the index says where each file lies among them.
pub fn build_solid_archive(tree: &Vec<TreeEntry>, dictionary: &[u8], level: i32) -> (r: Result<
    Vec<u8>,
    CompressionError,
>)
    ensures
        match r {
            Ok(bytes) => {
                let m = solid_model(entry_views(tree@), dictionary@, level as int);
                &&& bytes@ == solid_bytes(m)
                &&& blob_holds(m, joined(entry_views(tree@)))
                &&& joined(entry_views(tree@)).len() <= usize::MAX
                &&& dictionary@.len() <= MAX_DICTIONARY_LEN ==> writable_solid(m)
            },
            Err(e) => e is CompressionFailed,
        },
        r is Ok <==> zstd_frame(joined(entry_views(tree@)), level as int, dictionary@) is Some,
{
    let n = tree.len();
    let ghost entries = entry_views(tree@);
    let mut all: Vec<u8> = Vec::new();
    let mut index: Vec<SolidEntry> = Vec::new();
    let mut i: usize = 0;
    while i < n
        invariant
            n == tree@.len(),
            entries == entry_views(tree@),
            i <= n,
            all@ == joined(entries.take(i as int)),
            solid_records(index@) == solid_index_of(entries.take(i as int)),
            forall|k: int|
                0 <= k < index@.len() ==> encode_utf8((#[trigger] solid_records(index@)[k]).path).len()
                    <= usize::MAX,
        decreases n - i,
    {
        proof {
            assert(entries.take(i + 1).drop_last() =~= entries.take(i as int));
        }
        if !tree[i].is_directory {
            let start = all.len() as u64;
            let path_len = tree[i].path.as_str().as_bytes().len();
            let e = SolidEntry {
                path: tree[i].path.clone(),
                start,
                length: tree[i].content.len() as u64,
            };
            let ghost before = solid_records(index@);
            let ghost rec = e@;
            assert(encode_utf8(rec.path).len() == path_len);
            index.push(e);
            assert(solid_records(index@) =~= before.push(rec));
            put_bytes(&mut all, tree[i].content.as_slice());
        }
        i += 1;
    }
    proof {
        assert(entries.take(n as int) =~= entries);
    }
    let total = all.len();
    assert(joined(entries).len() == total);
    match zstd_encode(all.as_slice(), level, dictionary) {
        Ok(blob) => Ok(encode_solid(dictionary, blob.as_slice(), &index)),
        Err(e) => Err(CompressionError::CompressionFailed(io_error_text(&e))),
    }
}

/// `bytes` are a solid archive of `entries` at `level`: the archive of the
/// entries with the dictionary that the bytes carry, which has
/// `DICTIONARY_SIZE` bytes at most, is empty where the entries give fewer
/// than `MIN_SAMPLES` samples and holds its header where they give more;
/// its blob is the frame of the joined bytes of the files and gives them
/// back, and it can be written and read.
pub open spec fn solid_archive_of(bytes: Seq<u8>, entries: Seq<EntryModel>, level: int) -> bool {
    let m = solid_model(entries, written_dictionary(bytes), level);
    &&& bytes == solid_bytes(m)
    &&& blob_holds(m, joined(entries))
    &&& writable_solid(m)
    &&& zstd_frame(joined(entries), level, m.dictionary) is Some
    &&& m.dictionary.len() <= DICTIONARY_SIZE
    &&& if samples_of(entries).len() < MIN_SAMPLES {
        m.dictionary == Seq::<u8>::empty()
    } else {
        trainable(samples_of(entries)) && m.dictionary.len() >= DICTIONARY_HEADER_SIZE
    }
    &&& joined(entries).len() <= usize::MAX
}

/// Why no solid archive of `entries` was built: the dictionary could not
/// be trained, which happens only with `MIN_SAMPLES` samples or more; or
/// the compressor gave no frame for the joined bytes with the dictionary
/// at hand, which is the empty one where nothing was trained, and else
/// one of a length that a trained dictionary can have.
pub open spec fn solid_failure(e: CompressionError, entries: Seq<EntryModel>, level: int) -> bool {
    ||| e is DictionaryError && samples_of(entries).len() >= MIN_SAMPLES
    ||| e is CompressionFailed && if samples_of(entries).len() < MIN_SAMPLES {
        zstd_frame(joined(entries), level, Seq::empty()) is None
    } else {
        trainable(samples_of(entries)) && exists|d: Seq<u8>|
            DICTIONARY_HEADER_SIZE <= d.len() <= DICTIONARY_SIZE && (#[trigger] zstd_frame(
                joined(entries),
                level,
                d,
            )) is None
    }
}

/// Builds the solid archive of `tree`: trains the shared dictionary on
/// the samples of the tree, then compresses the joined bytes of all files
/// once with it, at the level that `options` names. Where the tree gives
/// fewer than `MIN_SAMPLES` samples nothing is trained, and the archive
/// is built exactly where the compressor gives a frame for the joined
/// bytes without a dictionary.
pub fn compress_directory_solid(options: &CompressionOptions, tree: &Vec<TreeEntry>) -> (r: Result<
    Vec<u8>,
    CompressionError,
>)
    ensures
        match r {
            Ok(bytes) => solid_archive_of(bytes@, entry_views(tree@), options.level as int),
            Err(e) => solid_failure(e, entry_views(tree@), options.level as int),
        },
        samples_of(entry_views(tree@)).len() < MIN_SAMPLES ==> (r is Ok <==> zstd_frame(
            joined(entry_views(tree@)),
            options.level as int,
            Seq::empty(),
        ) is Some),
        samples_of(entry_views(tree@)).len() >= MIN_SAMPLES && !trainable(
            samples_of(entry_views(tree@)),
        ) ==> r is Err,
{
    let dictionary = match generate_global_dictionary(tree) {
        Ok(d) => d,
        Err(e) => { return Err(e); },
    };
    proof {
        lemma_written_dictionary(
            solid_model(entry_views(tree@), dictionary@, options.level as int),
        );
    }
    build_solid_archive(tree, dictionary.as_slice(), options.level)
}

/// What `compress_directory` gives: the bytes of the archive, and for a
/// plain archive what did not go into it.
#[derive(Debug)]
pub enum DirectoryArchive {
    Plain(ArchiveOutput),
    Solid(Vec<u8>),
}

/// Builds the archive of `tree`: a solid one where `options` ask for it,
/// else a plain one.
pub fn compress_directory(options: &CompressionOptions, tree: &Vec<TreeEntry>) -> (r: Result<
    DirectoryArchive,
    CompressionError,
>)
    ensures
        match r {
            Ok(DirectoryArchive::Solid(bytes)) => options.solid && solid_archive_of(
                bytes@,
                entry_views(tree@),
                options.level as int,
            ),
            Ok(DirectoryArchive::Plain(out)) => {
                let jobs = jobs_of(entry_views(tree@));
                &&& !options.solid
                &&& out.bytes@ == plain_bytes(successes(jobs))
                &&& jobs_match(entry_views(tree@), jobs)
                &&& out.stored@ == stored_flags(jobs)
                &&& out.failures@.len() == failure_count(jobs)
            },
            Err(e) => options.solid && solid_failure(
                e,
                entry_views(tree@),
                options.level as int,
            ),
        },
        !options.solid ==> r is Ok,
{
    if options.solid {
        match compress_directory_solid(options, tree) {
            Ok(bytes) => Ok(DirectoryArchive::Solid(bytes)),
            Err(e) => Err(e),
        }
    } else {
        Ok(DirectoryArchive::Plain(compress_folder(options, tree)))
    }
}
} // verus!
