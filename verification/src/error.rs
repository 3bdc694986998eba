//! The errors that building and reading archives and images report.

use vstd::prelude::*;
use vstd::string::*;

verus! {
/// `std::io::Error`, carried through as it is: nothing that it holds is
/// read here.
#[verifier::external_type_specification]
#[verifier::external_body]
pub struct ExIoError(std::io::Error);

/// `std::io::Error`'s `to_string`: the text of an error. Nothing is claimed
/// of it.
#[verifier::external_body]
pub(crate) fn io_error_text(e: &std::io::Error) -> (r: String) {
    e.to_string()
}

/// Why an archive or an image could not be built.
#[derive(Debug)]
pub enum CompressionError {
    /// The compressor refused its input.
    CompressionFailed(String),
    /// Reading the tree or writing the result failed.
    Io(std::io::Error),
    /// The shared dictionary could not be trained.
    DictionaryError(String),
    /// A path, a count or a total cannot be written in the container's
    /// fields.
    InvalidFormat,
    /// A path would leave the tree.
    PathTraversal,
}

/// Why an archive or an image could not be read.
#[derive(Debug)]
pub enum DecompressionError {
    /// Reading the container or writing a file failed.
    Io(std::io::Error),
    /// The container is malformed or truncated, or names an unsafe path.
    InvalidFormat,
    /// The decompressor refused a payload.
    DecompressionFailed(String),
}

impl CompressionError {
    /// The error in words.
    pub fn message(&self) -> (r: String)
        ensures
            match *self {
                CompressionError::CompressionFailed(m) => r@ == "Compression failed: "@ + m@,
                CompressionError::Io(_) => r@.subrange(0, "I/O error: "@.len() as int)
                    == "I/O error: "@,
                CompressionError::DictionaryError(m) => r@ == "Dictionary generation failed: "@
                    + m@,
                CompressionError::InvalidFormat => r@ == "Invalid file format"@,
                CompressionError::PathTraversal => r@ == "Path traversal attack detected"@,
            },
    {
        match self {
            CompressionError::CompressionFailed(m) => String::from_str(
                "Compression failed: ",
            ).concat(m.as_str()),
            CompressionError::Io(e) => {
                let text = io_error_text(e);
                String::from_str("I/O error: ").concat(text.as_str())
            },
            CompressionError::DictionaryError(m) => String::from_str(
                "Dictionary generation failed: ",
            ).concat(m.as_str()),
            CompressionError::InvalidFormat => String::from_str("Invalid file format"),
            CompressionError::PathTraversal => String::from_str("Path traversal attack detected"),
        }
    }
}

impl DecompressionError {
    /// The error in words.
    pub fn message(&self) -> (r: String)
        ensures
            match *self {
                DecompressionError::Io(_) => r@.subrange(0, "I/O error: "@.len() as int)
                    == "I/O error: "@,
                DecompressionError::InvalidFormat => r@ == "Invalid file format"@,
                DecompressionError::DecompressionFailed(m) => r@ == "Decompression failed: "@
                    + m@,
            },
    {
        match self {
            DecompressionError::Io(e) => {
                let text = io_error_text(e);
                String::from_str("I/O error: ").concat(text.as_str())
            },
            DecompressionError::InvalidFormat => String::from_str("Invalid file format"),
            DecompressionError::DecompressionFailed(m) => String::from_str(
                "Decompression failed: ",
            ).concat(m.as_str()),
        }
    }
}
} // verus!
