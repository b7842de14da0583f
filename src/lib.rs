//! Extraction of 44-digit fiscal document keys from pipe-delimited
//! bookkeeping exports.
//!
//! Each line of a file is decoded (UTF-8, else WINDOWS-1252), split into
//! fields, and searched for runs of exactly 44 digits. A line whose first
//! field is `9999` ends the data of its file. The keys of many files are
//! merged into one set, kept in ascending order.
use vstd::prelude::*;

pub mod aggregate;
pub mod decode;
pub mod error;
pub mod extract;
pub mod keys;
pub mod keyset;
pub mod select;
pub mod text;

pub use aggregate::{merge_file_results, process_all_efd_files_parallel, SourceFile};
pub use decode::get_string_utf8;
pub use error::MyError;
pub use extract::{
    classify_text, get_map, get_map_funcional, process_line_for_keys, LineOutcome, NEWLINE_BYTE,
};
pub use keys::{find_keys, KEY_LEN};
pub use keyset::KeySet;
pub use select::{get_path, is_efd_contribuicoes_file, Arguments};
pub use text::{split_line, DELIMITER_CHAR};

verus! {

/// Result of the library's operations.
pub type MyResult<T> = Result<T, MyError>;

} // verus!
