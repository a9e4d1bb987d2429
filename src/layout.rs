//! The footer and the three regions it locates: data, file count, directory.
use crate::bytes::{field_u32, le_u32_at};
use crate::error::DatError;
use vstd::prelude::*;

verus! {

/// Bytes of one integer field.
pub const FIELD_SIZE: usize = 4;

/// Bytes of the footer: the directory size field, then the archive size field.
pub const FOOTER_SIZE: usize = 8;

/// The shortest buffer worth reading: a footer and at least one more byte.
/// Shorter buffers are refused before any field is read.
pub const MIN_ARCHIVE_SIZE: usize = 9;

/// Where the regions of an archive lie: data is `[0, data_end)`, the file count
/// is the field at `data_end`, the directory is `[tree_start, tree_end)`, and
/// the footer follows the directory. The file count is informational: the
/// directory is walked to its end whatever the count says.
#[derive(Debug, Clone, Copy, PartialEq, Eq)]
pub struct DatTopLevelStructure {
    pub data_end: usize,
    pub num_files: usize,
    pub tree_start: usize,
    pub tree_end: usize,
    pub file_size: usize,
}

impl DatTopLevelStructure {
    /// The regions tile an archive of `len` bytes.
    pub open spec fn tiles(self, len: nat) -> bool {
        &&& self.data_end + FIELD_SIZE == self.tree_start
        &&& self.tree_start <= self.tree_end
        &&& self.tree_end + FOOTER_SIZE == len
        &&& self.file_size == len
    }

    /// Locates the regions of `dat_data`, checking every size field against
    /// the real length of the buffer.
    pub fn parse(dat_data: &[u8]) -> (r: Result<Self, DatError>)
        ensures
            r == locate(dat_data@),
            r matches Ok(s) ==> s.tiles(dat_data@.len()),
    {
        let len = dat_data.len();
        if len < MIN_ARCHIVE_SIZE {
            return Err(DatError::TruncatedHeader { len });
        }
        let file_size = field_u32(dat_data, len - FIELD_SIZE) as usize;
        if file_size != len {
            return Err(DatError::SizeMismatch { declared: file_size, actual: len });
        }
        let tree_end = len - FOOTER_SIZE;
        let stored = field_u32(dat_data, tree_end) as usize;
        let tree_size = match stored.checked_sub(FIELD_SIZE) {
            Some(n) => n,
            None => {
                return Err(DatError::TruncatedDirectory { len });
            },
        };
        if tree_size > tree_end {
            return Err(DatError::TruncatedDirectory { len });
        }
        let tree_start = tree_end - tree_size;
        if tree_start < FIELD_SIZE {
            return Err(DatError::TruncatedHeader { len });
        }
        let data_end = tree_start - FIELD_SIZE;
        let num_files = field_u32(dat_data, data_end) as usize;
        Ok(DatTopLevelStructure { data_end, num_files, tree_start, tree_end, file_size })
    }
}

/// The regions of an archive, or the first size check that it fails.
pub open spec fn locate(dat: Seq<u8>) -> Result<DatTopLevelStructure, DatError> {
    let len = dat.len();
    if len < MIN_ARCHIVE_SIZE {
        Err(DatError::TruncatedHeader { len: len as usize })
    } else if le_u32_at(dat, len - 4) != len {
        Err(DatError::SizeMismatch { declared: le_u32_at(dat, len - 4) as usize, actual: len as usize })
    } else {
        let tree_end = len - FOOTER_SIZE;
        let stored = le_u32_at(dat, tree_end);
        if stored < FIELD_SIZE || stored - FIELD_SIZE > tree_end {
            Err(DatError::TruncatedDirectory { len: len as usize })
        } else {
            let tree_start = tree_end - (stored - FIELD_SIZE);
            if tree_start < FIELD_SIZE {
                Err(DatError::TruncatedHeader { len: len as usize })
            } else {
                Ok(
                    DatTopLevelStructure {
                        data_end: (tree_start - FIELD_SIZE) as usize,
                        num_files: le_u32_at(dat, tree_start - FIELD_SIZE) as usize,
                        tree_start: tree_start as usize,
                        tree_end: tree_end as usize,
                        file_size: len as usize,
                    },
                )
            }
        }
    }
}

/// An archive is accepted only when its trailing size field equals its real
/// length; whenever the buffer holds that field and the two differ, the
/// archive is refused as a size mismatch.
pub proof fn lemma_size_field_matches_length(dat: Seq<u8>)
    ensures
        locate(dat) is Ok ==> le_u32_at(dat, dat.len() - 4) == dat.len(),
        dat.len() >= MIN_ARCHIVE_SIZE && le_u32_at(dat, dat.len() - 4) != dat.len()
            ==> locate(dat) matches Err(DatError::SizeMismatch { .. }),
{
}

} // verus!
