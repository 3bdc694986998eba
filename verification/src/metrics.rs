//! Counters of a run: files, bytes before and after compression, unique
//! and duplicate blocks, and the time that compression took.

use vstd::prelude::*;
use vstd::wrapping::u64_specs::wrapping_add;

verus! {
/// `std::time::Instant`, carried through as it is: nothing that it holds
/// is read here.
#[verifier::external_type_specification]
#[verifier::external_body]
pub struct ExInstant(std::time::Instant);

/// `std::time::Instant::now`: the present moment. Nothing is claimed of
/// it.
#[verifier::external_body]
pub(crate) fn instant_now() -> (r: std::time::Instant) {
    std::time::Instant::now()
}

/// `std::time::Instant::elapsed`, in nanoseconds: the time that has passed
/// since `start`. Nothing is claimed of it.
#[verifier::external_body]
pub(crate) fn nanos_since(start: &std::time::Instant) -> (r: u64) {
    start.elapsed().as_nanos() as u64
}

/// The counters of a run.
#[derive(Debug)]
pub struct Metrics {
    /// Number of files processed.
    pub files_processed: u64,
    /// Number of bytes processed, before compression.
    pub bytes_processed: u64,
    /// Number of bytes after compression.
    pub bytes_compressed: u64,
    /// Number of blocks that were stored.
    pub unique_blocks: u64,
    /// Number of blocks that were found stored already.
    pub duplicate_blocks: u64,
    compression_timing: Option<std::time::Instant>,
    compression_duration: u64,
}

/// The counters at one moment.
#[derive(Debug, Clone, Copy, PartialEq, Eq, Structural)]
pub struct MetricsSummary {
    pub files_processed: u64,
    pub bytes_processed: u64,
    pub bytes_compressed: u64,
    pub unique_blocks: u64,
    pub duplicate_blocks: u64,
    pub compression_nanos: u64,
}

impl Default for Metrics {
    fn default() -> (r: Self)
        ensures
            r.summary() == MetricsSummary::zero(),
            !r.is_timing(),
    {
        Metrics {
            files_processed: 0,
            bytes_processed: 0,
            bytes_compressed: 0,
            unique_blocks: 0,
            duplicate_blocks: 0,
            compression_timing: None,
            compression_duration: 0,
        }
    }
}

impl MetricsSummary {
    /// All counters at zero.
    pub open spec fn zero() -> MetricsSummary {
        MetricsSummary {
            files_processed: 0,
            bytes_processed: 0,
            bytes_compressed: 0,
            unique_blocks: 0,
            duplicate_blocks: 0,
            compression_nanos: 0,
        }
    }

    /// The two numbers whose quotient is the deduplication ratio: the
    /// duplicate blocks, and all block references. Where there are no
    /// references the ratio is taken as zero.
    pub open spec fn dedup_parts(self) -> (int, int) {
        (self.duplicate_blocks as int, self.unique_blocks + self.duplicate_blocks)
    }
}

impl Metrics {
    /// The counters as they stand.
    pub closed spec fn summary(&self) -> MetricsSummary {
        MetricsSummary {
            files_processed: self.files_processed,
            bytes_processed: self.bytes_processed,
            bytes_compressed: self.bytes_compressed,
            unique_blocks: self.unique_blocks,
            duplicate_blocks: self.duplicate_blocks,
            compression_nanos: self.compression_duration,
        }
    }

    /// A compression was started and has not ended yet.
    pub closed spec fn is_timing(&self) -> bool {
        self.compression_timing is Some
    }

    /// Counters at zero.
    pub fn new() -> (r: Self)
        ensures
            r.summary() == MetricsSummary::zero(),
            !r.is_timing(),
    {
        Metrics {
            files_processed: 0,
            bytes_processed: 0,
            bytes_compressed: 0,
            unique_blocks: 0,
            duplicate_blocks: 0,
            compression_timing: None,
            compression_duration: 0,
        }
    }

    /// Notes the moment at which compression starts.
    pub fn start_compression(&mut self)
        ensures
            final(self).is_timing(),
            final(self).summary() == old(self).summary(),
    {
        self.compression_timing = Some(instant_now());
    }

    /// Notes how long compression took, where it was started; the counters
    /// stay.
    pub fn end_compression(&mut self)
        ensures
            !final(self).is_timing(),
            final(self).summary().files_processed == old(self).summary().files_processed,
            final(self).summary().bytes_processed == old(self).summary().bytes_processed,
            final(self).summary().bytes_compressed == old(self).summary().bytes_compressed,
            final(self).summary().unique_blocks == old(self).summary().unique_blocks,
            final(self).summary().duplicate_blocks == old(self).summary().duplicate_blocks,
            !old(self).is_timing() ==> final(self).summary() == old(self).summary(),
    {
        let started = self.compression_timing.take();
        match started {
            Some(start) => {
                self.compression_duration = nanos_since(&start);
            },
            None => {},
        }
    }

    /// Counts one more file.
    pub fn increment_files(&mut self)
        ensures
            final(self).summary() == (MetricsSummary {
                files_processed: wrapping_add(old(self).summary().files_processed, 1),
                ..old(self).summary()
            }),
            final(self).is_timing() == old(self).is_timing(),
    {
        self.files_processed = self.files_processed.wrapping_add(1);
    }

    /// Counts `bytes` more bytes processed.
    pub fn add_bytes_processed(&mut self, bytes: u64)
        ensures
            final(self).summary() == (MetricsSummary {
                bytes_processed: wrapping_add(old(self).summary().bytes_processed, bytes),
                ..old(self).summary()
            }),
            final(self).is_timing() == old(self).is_timing(),
    {
        self.bytes_processed = self.bytes_processed.wrapping_add(bytes);
    }

    /// Counts `bytes` more bytes after compression.
    pub fn add_bytes_compressed(&mut self, bytes: u64)
        ensures
            final(self).summary() == (MetricsSummary {
                bytes_compressed: wrapping_add(old(self).summary().bytes_compressed, bytes),
                ..old(self).summary()
            }),
            final(self).is_timing() == old(self).is_timing(),
    {
        self.bytes_compressed = self.bytes_compressed.wrapping_add(bytes);
    }

    /// Counts one more block that was stored.
    pub fn increment_unique_blocks(&mut self)
        ensures
            final(self).summary() == (MetricsSummary {
                unique_blocks: wrapping_add(old(self).summary().unique_blocks, 1),
                ..old(self).summary()
            }),
            final(self).is_timing() == old(self).is_timing(),
    {
        self.unique_blocks = self.unique_blocks.wrapping_add(1);
    }

    /// Counts one more block that was found stored already.
    pub fn increment_duplicate_blocks(&mut self)
        ensures
            final(self).summary() == (MetricsSummary {
                duplicate_blocks: wrapping_add(old(self).summary().duplicate_blocks, 1),
                ..old(self).summary()
            }),
            final(self).is_timing() == old(self).is_timing(),
    {
        self.duplicate_blocks = self.duplicate_blocks.wrapping_add(1);
    }

    /// The two numbers whose quotient is the compression ratio: the bytes
    /// after compression, and the bytes before it.
    pub fn compression_parts(&self) -> (r: (u64, u64))
        ensures
            r.0 == self.summary().bytes_compressed,
            r.1 == self.summary().bytes_processed,
    {
        (self.bytes_compressed, self.bytes_processed)
    }

    /// The two numbers whose quotient is the deduplication ratio: the
    /// duplicate blocks, and all block references.
    pub fn deduplication_parts(&self) -> (r: (u128, u128))
        ensures
            r.0 == self.summary().dedup_parts().0,
            r.1 == self.summary().dedup_parts().1,
    {
        (self.duplicate_blocks as u128, self.unique_blocks as u128 + self.duplicate_blocks as u128)
    }

    /// The two numbers whose quotient is the speed of compression: the
    /// bytes processed, and the nanoseconds that compression took.
    pub fn speed_parts(&self) -> (r: (u64, u64))
        ensures
            r.0 == self.summary().bytes_processed,
            r.1 == self.summary().compression_nanos,
    {
        (self.bytes_processed, self.compression_duration)
    }

    /// The counters as they stand, for whoever prints them.
    pub fn print_summary(&self) -> (r: MetricsSummary)
        ensures
            r == self.summary(),
    {
        MetricsSummary {
            files_processed: self.files_processed,
            bytes_processed: self.bytes_processed,
            bytes_compressed: self.bytes_compressed,
            unique_blocks: self.unique_blocks,
            duplicate_blocks: self.duplicate_blocks,
            compression_nanos: self.compression_duration,
        }
    }

    /// Sets every counter and the time back to zero. A compression that
    /// was started stays started.
    pub fn reset(&mut self)
        ensures
            final(self).summary() == MetricsSummary::zero(),
            final(self).is_timing() == old(self).is_timing(),
    {
        self.files_processed = 0;
        self.bytes_processed = 0;
        self.bytes_compressed = 0;
        self.unique_blocks = 0;
        self.duplicate_blocks = 0;
        self.compression_duration = 0;
    }
}

/// What a progress update reports.
#[derive(Debug, Clone, Copy, PartialEq, Eq, Structural)]
pub struct ProgressReport {
    pub files_processed: u64,
    pub bytes_processed: u64,
    pub compression_nanos: u64,
}

/// Nanoseconds between two progress updates that are not forced.
pub const UPDATE_INTERVAL_NANOS: u64 = 1_000_000_000;

/// Says when it is time for a progress update: once a second, or when one
/// is forced.
pub struct ProgressTracker {
    last_update: std::time::Instant,
    update_interval: u64,
}

/// An update is due: it is forced, or the interval has passed.
pub open spec fn update_due(force: bool, elapsed: u64, interval: u64) -> bool {
    force || elapsed >= interval
}

/// Whether an update is due after `elapsed` nanoseconds.
pub fn is_update_due(force: bool, elapsed: u64, interval: u64) -> (r: bool)
    ensures
        r == update_due(force, elapsed, interval),
{
    force || elapsed >= interval
}

impl ProgressTracker {
    /// The interval between two updates, in nanoseconds.
    pub closed spec fn interval(&self) -> u64 {
        self.update_interval
    }

    /// A tracker whose last update is now.
    pub fn new() -> (r: Self)
        ensures
            r.interval() == UPDATE_INTERVAL_NANOS,
    {
        ProgressTracker { last_update: instant_now(), update_interval: UPDATE_INTERVAL_NANOS }
    }

    /// Gives a report of `metrics` where an update is due, and then counts
    /// the interval from now on. A forced update is always due.
    pub fn update(&mut self, metrics: &Metrics, force: bool) -> (r: Option<ProgressReport>)
        ensures
            final(self).interval() == old(self).interval(),
            force ==> r is Some,
            r matches Some(report) ==> report == (ProgressReport {
                files_processed: metrics.summary().files_processed,
                bytes_processed: metrics.summary().bytes_processed,
                compression_nanos: metrics.summary().compression_nanos,
            }),
    {
        let elapsed = nanos_since(&self.last_update);
        if is_update_due(force, elapsed, self.update_interval) {
            self.last_update = instant_now();
            Some(
                ProgressReport {
                    files_processed: metrics.files_processed,
                    bytes_processed: metrics.bytes_processed,
                    compression_nanos: metrics.compression_duration,
                },
            )
        } else {
            None
        }
    }
}
} // verus!
