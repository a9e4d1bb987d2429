//! Decoder for DAT2 archives: a flat binary container whose footer locates a
//! directory of variable-length records, each naming a byte range of the data
//! section that may hold a zlib stream.
//!
//! Every offset and length in an archive is untrusted: each is checked
//! against the real length of the buffer before it is used, and a malformed
//! archive is refused with a `DatError`, never a panic.
pub mod bytes;
pub mod cli;
pub mod compress;
pub mod data;
pub mod error;
pub mod extract;
pub mod layout;
pub mod path;
pub mod schedule;
pub mod single;
pub mod tree;

pub use crate::cli::{select_action, ActionError, CliAction};
pub use crate::compress::{inflated_content, is_zlib_compressed, materialize, Materialized};
pub use crate::data::{data_entries, get_data, iter_data, DataEntries, DataEntry};
pub use crate::error::DatError;
pub use crate::extract::{check_output_dir, extract_step, ExtractAction};
pub use crate::layout::DatTopLevelStructure;
pub use crate::path::{decode_name, is_confined};
pub use crate::schedule::{PoolAction, Schedule};
pub use crate::tree::{iter_tree, tree_entries, TreeEntries, TreeEntry};
