//! Errors of key extraction.
use vstd::prelude::*;

verus! {

/// Why extraction failed.
#[derive(Debug, Clone, PartialEq, Eq)]
pub enum MyError {
    /// A line is neither UTF-8 nor WINDOWS-1252 text: file, line number
    /// (counted from 1), the UTF-8 error and the WINDOWS-1252 error.
    EncodingError(String, usize, String, String),
    /// A file could not be opened for reading: file and reason.
    FileReadError(String, String),
    /// Reading failed part way through a file: file and reason.
    IoError(String, String),
}

} // verus!
