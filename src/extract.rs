//! The decisions of extraction: where output may go, and what to do for each
//! archived file given whether its output path already exists.
use crate::compress::{materialize, materialized, Materialized};
use crate::data::{DataEntry, Payload};
use crate::error::DatError;
use vstd::prelude::*;

verus! {

/// Whether an output location can receive extracted files: it must exist and
/// be a directory; this is checked before any record is touched.
pub fn check_output_dir(exists: bool, is_dir: bool) -> (r: Result<(), DatError>)
    ensures
        !exists ==> r matches Err(DatError::NotFound),
        exists && !is_dir ==> r matches Err(DatError::NotADirectory),
        exists && is_dir ==> r is Ok,
{
    if !exists {
        Err(DatError::NotFound)
    } else if !is_dir {
        Err(DatError::NotADirectory)
    } else {
        Ok(())
    }
}

/// What to do for one archived file.
pub enum ExtractAction<'a> {
    /// Its output path exists already: leave it as it is.
    Skip,
    /// Create its output file with this content.
    Write(Materialized<'a>),
}

/// The outcome for a file whose payload is `raw`: `None` when it fails,
/// `Some(None)` when it is skipped, `Some(Some(b))` when `b` is written.
pub open spec fn step_outcome(output_exists: bool, raw: Seq<u8>) -> Option<Option<Seq<u8>>> {
    if output_exists {
        Some(None)
    } else {
        match materialized(raw) {
            Some(b) => Some(Some(b)),
            None => None,
        }
    }
}

/// Decides what to do for `entry`: an existing output is skipped, which is no
/// error; otherwise its content is produced for writing.
pub fn extract_step<'a>(entry: &DataEntry<'a>, output_exists: bool) -> (r: Result<ExtractAction<'a>, DatError>)
    ensures
        match step_outcome(output_exists, entry.raw_data@) {
            None => r matches Err(DatError::DecompressionFailed),
            Some(None) => r matches Ok(ExtractAction::Skip),
            Some(Some(b)) => r matches Ok(ExtractAction::Write(m)) && m@ == b,
        },
{
    if output_exists {
        return Ok(ExtractAction::Skip);
    }
    let content = materialize(entry.raw_data)?;
    Ok(ExtractAction::Write(content))
}

/// The files under the output directory after extracting `entries` in order
/// into `files` (contents keyed by relative path), or `None` when one fails.
pub open spec fn run_extraction(files: Map<Seq<Seq<char>>, Seq<u8>>, entries: Seq<Payload>) -> Option<
    Map<Seq<Seq<char>>, Seq<u8>>,
>
    decreases entries.len(),
{
    if entries.len() == 0 {
        Some(files)
    } else {
        let e = entries[0];
        match step_outcome(files.contains_key(e.path), e.raw_data) {
            None => None,
            Some(None) => run_extraction(files, entries.drop_first()),
            Some(Some(b)) => run_extraction(files.insert(e.path, b), entries.drop_first()),
        }
    }
}

proof fn lemma_run_keeps_and_covers(files: Map<Seq<Seq<char>>, Seq<u8>>, entries: Seq<Payload>)
    requires
        run_extraction(files, entries) is Some,
    ensures
        forall|k: Seq<Seq<char>>| #[trigger]
            files.contains_key(k) ==> run_extraction(files, entries)->0.contains_key(k)
                && run_extraction(files, entries)->0[k] == files[k],
        forall|i: int| 0 <= i < entries.len() ==> run_extraction(files, entries)->0.contains_key(
            #[trigger] entries[i].path,
        ),
    decreases entries.len(),
{
    if entries.len() > 0 {
        let e = entries[0];
        let rest = entries.drop_first();
        let next = match step_outcome(files.contains_key(e.path), e.raw_data) {
            Some(Some(b)) => files.insert(e.path, b),
            _ => files,
        };
        assert(run_extraction(files, entries) == run_extraction(next, rest));
        assert(next.contains_key(e.path));
        assert forall|k: Seq<Seq<char>>| #[trigger] files.contains_key(k) implies next.contains_key(k)
            && next[k] == files[k] by {
            if !files.contains_key(e.path) {
                assert(k != e.path);
            }
        }
        lemma_run_keeps_and_covers(next, rest);
        assert forall|i: int| 0 <= i < entries.len() implies run_extraction(
            files,
            entries,
        )->0.contains_key(#[trigger] entries[i].path) by {
            if i > 0 {
                assert(entries[i] == rest[i - 1]);
            }
        }
    }
}

proof fn lemma_run_over_present_paths(files: Map<Seq<Seq<char>>, Seq<u8>>, entries: Seq<Payload>)
    requires
        forall|i: int| 0 <= i < entries.len() ==> files.contains_key(#[trigger] entries[i].path),
    ensures
        run_extraction(files, entries) == Some(files),
    decreases entries.len(),
{
    if entries.len() > 0 {
        let rest = entries.drop_first();
        assert(files.contains_key(entries[0].path));
        assert forall|i: int| 0 <= i < rest.len() implies files.contains_key(#[trigger] rest[i].path) by {
            assert(rest[i] == entries[i + 1]);
        }
        lemma_run_over_present_paths(files, rest);
    }
}

/// Extraction is idempotent: extracting the same files again into what a
/// successful extraction left behind succeeds, skips every file, and leaves
/// every content as it was.
pub proof fn lemma_extraction_idempotent(files: Map<Seq<Seq<char>>, Seq<u8>>, entries: Seq<Payload>)
    requires
        run_extraction(files, entries) is Some,
    ensures
        run_extraction(run_extraction(files, entries)->0, entries) == run_extraction(files, entries),
{
    lemma_run_keeps_and_covers(files, entries);
    lemma_run_over_present_paths(run_extraction(files, entries)->0, entries);
}

} // verus!
