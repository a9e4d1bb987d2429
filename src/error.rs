//! Every way in which decoding or extracting an archive fails.
use vstd::prelude::*;

verus! {

/// Why an archive, one of its records, or an extraction target was refused.
#[derive(Debug)]
pub enum DatError {
    /// The trailing size field disagrees with the real length of the archive.
    SizeMismatch { declared: usize, actual: usize },
    /// The archive is too short to hold its footer and file count.
    TruncatedHeader { len: usize },
    /// The directory size in the footer does not fit before the footer.
    TruncatedDirectory { len: usize },
    /// The directory ends inside a record; `at` is where that record starts.
    TruncatedRecord { at: usize, remaining: usize },
    /// A record's name is not valid UTF-8; `at` is where that record starts.
    InvalidEncoding { at: usize },
    /// A record's payload range `[start, end)` leaves the data section.
    OutOfBounds { path: Vec<String>, start: usize, end: usize, section_len: usize },
    /// The zlib stream of a payload could not be inflated.
    DecompressionFailed,
    /// The output directory does not exist.
    NotFound,
    /// The output location exists but is not a directory.
    NotADirectory,
}

} // verus!
