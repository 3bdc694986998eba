//! Directory archiving with two kinds of container: a compressed archive,
//! plain or solid, and a block-deduplicating image.
//!
//! Everything here works on values in memory. Walking the tree, reading its
//! files and writing the results is left to the caller, who hands over the
//! entries of the walk and gets bytes back, or hands over bytes and gets
//! entries back.
//!
//! - [`image`] captures a tree as an image: every file is cut into blocks
//!   ([`block`]), each block is stored once under its digest ([`hash`],
//!   [`store`], with [`table`] to find a digest again), and [`zpak`] lays
//!   the image out in bytes. [`extract`] reads the entries back.
//! - [`compress`] builds archives: one compression job per file for the
//!   plain container ([`zpp`]), or one compressed stream with a shared
//!   dictionary for the solid one ([`solid`]). [`schedule`] puts the
//!   results of jobs that ran side by side back in order. [`decompress`]
//!   reads the files back.
//! - [`path`] makes the paths that come out of a container safe.
//! - [`codec`] is the compressor, zstd. What it writes and reads is taken on
//!   trust, under names that the contracts speak of.
//! - [`profile`], [`config`] and [`metrics`] hold the compression profiles,
//!   the settings and the counters of a run.
//!
//! Each function states what it returns; the modules state as proved
//! lemmas what holds across functions: that what was written is read back,
//! that equal blocks are stored once, and that a sanitized path stays below
//! its root.

pub mod block;
pub mod codec;
pub mod compress;
pub mod config;
pub mod decompress;
pub mod error;
pub mod extract;
pub mod hash;
pub mod image;
pub mod metrics;
pub mod path;
pub mod profile;
pub mod schedule;
pub mod solid;
pub mod store;
pub mod table;
pub mod text;
pub mod tree;
pub mod wire;
pub mod zpak;
pub mod zpp;
