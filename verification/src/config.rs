//! Settings: the default compression level, the number of threads, the
//! block size and the memory limit, with the ranges they must lie in.

use vstd::prelude::*;
use vstd::string::*;

verus! {
/// The settings of a run.
#[derive(Debug, Clone)]
pub struct Config {
    /// Default compression level, from 1 to 22.
    pub compression_level: i32,
    /// Largest number of threads to use.
    pub max_threads: usize,
    /// Block size for deduplication, in bytes.
    pub block_size: usize,
    /// Memory limit for compression, in MB.
    pub memory_limit: usize,
    /// Whether logging is verbose.
    pub verbose: bool,
}

/// The setting that `validate` found out of range.
#[derive(Debug, Clone, Copy, PartialEq, Eq, Structural)]
pub enum ConfigError {
    CompressionLevel,
    MaxThreads,
    BlockSize,
    MemoryLimit,
}

impl ConfigError {
    /// The error in words.
    pub fn message(&self) -> (r: String)
        ensures
            r@ == match *self {
                ConfigError::CompressionLevel => "Compression level must be between 1 and 22"@,
                ConfigError::MaxThreads => "Max threads must be between 1 and 1024"@,
                ConfigError::BlockSize => "Block size must be between 1KB and 1GB"@,
                ConfigError::MemoryLimit => "Memory limit must be between 64MB and 64GB"@,
            },
    {
        match self {
            ConfigError::CompressionLevel => String::from_str(
                "Compression level must be between 1 and 22",
            ),
            ConfigError::MaxThreads => String::from_str("Max threads must be between 1 and 1024"),
            ConfigError::BlockSize => String::from_str("Block size must be between 1KB and 1GB"),
            ConfigError::MemoryLimit => String::from_str(
                "Memory limit must be between 64MB and 64GB",
            ),
        }
    }
}

/// `num_cpus::get`: the number of CPUs that this process can use, which
/// is at least one.
#[verifier::external_body]
pub(crate) fn available_cpus() -> (r: usize)
    ensures
        r >= 1,
{
    num_cpus::get()
}

impl Default for Config {
    /// Level 22, as many threads as there are CPUs, blocks of 64 KiB, a
    /// limit of 1024 MB, and quiet logging.
    fn default() -> (r: Self)
        ensures
            r.compression_level == 22,
            r.max_threads >= 1,
            r.block_size == 65536,
            r.memory_limit == 1024,
            !r.verbose,
    {
        Config {
            compression_level: 22,
            max_threads: available_cpus(),
            block_size: 65536,
            memory_limit: 1024,
            verbose: false,
        }
    }
}

impl Config {
    /// What `validate` says of the settings: the first of them that lies
    /// out of its range, in the order level, threads, block size, memory.
    pub open spec fn first_error(&self) -> Option<ConfigError> {
        if !(1 <= self.compression_level <= 22) {
            Some(ConfigError::CompressionLevel)
        } else if self.max_threads == 0 || self.max_threads > 1024 {
            Some(ConfigError::MaxThreads)
        } else if self.block_size < 1024 || self.block_size > 1073741824 {
            Some(ConfigError::BlockSize)
        } else if self.memory_limit < 64 || self.memory_limit > 65536 {
            Some(ConfigError::MemoryLimit)
        } else {
            None
        }
    }

    /// Checks that every setting lies in its range: the level from 1 to
    /// 22, the threads from 1 to 1024, the block size from 1 KiB to 1 GiB,
    /// the memory limit from 64 MB to 64 GB.
    pub fn validate(&self) -> (r: Result<(), ConfigError>)
        ensures
            match r {
                Ok(_) => self.first_error() is None,
                Err(e) => self.first_error() == Some(e),
            },
    {
        if self.compression_level < 1 || self.compression_level > 22 {
            return Err(ConfigError::CompressionLevel);
        }
        if self.max_threads == 0 || self.max_threads > 1024 {
            return Err(ConfigError::MaxThreads);
        }
        if self.block_size < 1024 || self.block_size > 1073741824 {
            return Err(ConfigError::BlockSize);
        }
        if self.memory_limit < 64 || self.memory_limit > 65536 {
            return Err(ConfigError::MemoryLimit);
        }
        Ok(())
    }

    /// Takes over what the command line gave: a level and a number of
    /// threads where it named them, and verbose logging where it asked for
    /// it. Nothing else changes.
    pub fn merge_with_cli(
        &mut self,
        cli_level: Option<i32>,
        cli_threads: Option<usize>,
        cli_verbose: bool,
    )
        ensures
            final(self).compression_level == match cli_level {
                Some(level) => level,
                None => old(self).compression_level,
            },
            final(self).max_threads == match cli_threads {
                Some(threads) => threads,
                None => old(self).max_threads,
            },
            final(self).verbose == (cli_verbose || old(self).verbose),
            final(self).block_size == old(self).block_size,
            final(self).memory_limit == old(self).memory_limit,
    {
        if let Some(level) = cli_level {
            self.compression_level = level;
        }
        if let Some(threads) = cli_threads {
            self.max_threads = threads;
        }
        if cli_verbose {
            self.verbose = true;
        }
    }
}
} // verus!
