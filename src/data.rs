//! Resolving directory records to the payload bytes they name.
use crate::error::DatError;
use crate::layout::{locate, DatTopLevelStructure};
use crate::tree::{pending, Record, TreeCursor, TreeEntries, TreeEntry};
use vstd::prelude::*;

verus! {

/// A resolved payload: the record's path and flags with its bytes.
pub struct Payload {
    pub path: Seq<Seq<char>>,
    pub raw_data: Seq<u8>,
    pub is_compressed: bool,
    pub decompressed_size: nat,
}

/// An archived file: its path, the bytes stored for it in the data section,
/// whether the archive declares them compressed, and their size once inflated.
#[derive(Debug)]
pub struct DataEntry<'a> {
    pub path: Vec<String>,
    pub raw_data: &'a [u8],
    pub is_compressed: bool,
    pub decompressed_size: usize,
}

impl<'a> View for DataEntry<'a> {
    type V = Payload;

    open spec fn view(&self) -> Payload {
        Payload {
            path: self.path.deep_view(),
            raw_data: self.raw_data@,
            is_compressed: self.is_compressed,
            decompressed_size: self.decompressed_size as nat,
        }
    }
}

/// The payload range of `rec` lies within a data section of `section_len` bytes.
pub open spec fn in_bounds(section_len: nat, rec: Record) -> bool {
    rec.offset + rec.packed_size <= section_len
}

/// The payload of `rec` in the data section `section`.
pub open spec fn payload_of(section: Seq<u8>, rec: Record) -> Payload {
    Payload {
        path: rec.path,
        raw_data: section.subrange(rec.offset as int, (rec.offset + rec.packed_size) as int),
        is_compressed: rec.is_compressed,
        decompressed_size: rec.decompressed_size,
    }
}

/// `e` reports that the payload range of `rec` leaves the data section `section`.
pub open spec fn out_of_bounds(section: Seq<u8>, rec: Record, e: DatError) -> bool {
    e matches DatError::OutOfBounds { path, start, end, section_len } && {
        &&& path.deep_view() == rec.path
        &&& start == rec.offset
        &&& end == if rec.offset + rec.packed_size > usize::MAX {
            usize::MAX as int
        } else {
            (rec.offset + rec.packed_size) as int
        }
        &&& section_len == section.len()
    }
}

/// `r` is what resolving `rec` against the data section `section` must give.
pub open spec fn resolved(section: Seq<u8>, rec: Record, r: Result<DataEntry, DatError>) -> bool {
    if in_bounds(section.len(), rec) {
        r matches Ok(d) && d@ == payload_of(section, rec)
    } else {
        r matches Err(e) && out_of_bounds(section, rec, e)
    }
}

/// `r` is what the decoder outcome `item` gives once resolved against `section`:
/// a decoding failure passes through unchanged.
pub open spec fn item_resolved(section: Seq<u8>, item: Result<Record, DatError>, r: Result<DataEntry, DatError>) -> bool {
    match item {
        Ok(rec) => resolved(section, rec, r),
        Err(e) => r matches Err(e2) && e2 == e,
    }
}

/// The bytes `[entry.offset, entry.offset + entry.packed_size)` of the data
/// section, checked against the section's real length.
pub fn get_data<'a>(data_section_data: &'a [u8], entry: TreeEntry) -> (r: Result<DataEntry<'a>, DatError>)
    ensures
        resolved(data_section_data@, entry@, r),
{
    let section_len = data_section_data.len();
    let data_start = entry.offset;
    match data_start.checked_add(entry.packed_size) {
        Some(data_end) if data_end <= section_len => {
            let raw_data = &data_section_data[data_start..data_end];
            Ok(
                DataEntry {
                    path: entry.path,
                    raw_data,
                    is_compressed: entry.is_compressed,
                    decompressed_size: entry.decompressed_size,
                },
            )
        },
        _ => {
            let end = data_start.saturating_add(entry.packed_size);
            Err(DatError::OutOfBounds { path: entry.path, start: data_start, end, section_len })
        },
    }
}

/// Where a payload cursor stands: the data section and the directory cursor.
pub struct DataCursor {
    pub section: Seq<u8>,
    pub tree: TreeCursor,
}

/// A cursor that resolves each directory record to its payload.
pub struct DataEntries<'a> {
    data_section: &'a [u8],
    tree_entries: TreeEntries<'a>,
}

impl<'a> View for DataEntries<'a> {
    type V = DataCursor;

    closed spec fn view(&self) -> DataCursor {
        DataCursor { section: self.data_section@, tree: self.tree_entries@ }
    }
}

impl<'a> DataEntries<'a> {
    /// Yields the payload of the next record, the failure that decoding or
    /// resolving it met, or `None` once the directory cursor is done.
    pub fn next(&mut self) -> (r: Option<Result<DataEntry<'a>, DatError>>)
        ensures
            final(self)@.section == old(self)@.section,
            final(self)@.tree.tree == old(self)@.tree.tree,
            pending(old(self)@.tree).len() == 0 ==> r is None && pending(final(self)@.tree).len()
                == 0,
            pending(old(self)@.tree).len() > 0 ==> {
                &&& r matches Some(item) && item_resolved(
                    old(self)@.section,
                    pending(old(self)@.tree)[0],
                    item,
                )
                &&& pending(final(self)@.tree) == pending(old(self)@.tree).drop_first()
            },
    {
        match self.tree_entries.next() {
            None => None,
            Some(Ok(entry)) => Some(get_data(self.data_section, entry)),
            Some(Err(e)) => Some(Err(e)),
        }
    }
}

/// A payload cursor over the archive `dat_data`, once its footer has been checked.
pub fn iter_data(dat_data: &[u8]) -> (r: Result<DataEntries<'_>, DatError>)
    ensures
        match locate(dat_data@) {
            Ok(s) => r matches Ok(it) && it@ == (DataCursor {
                section: dat_data@.subrange(0, s.data_end as int),
                tree: TreeCursor {
                    tree: dat_data@.subrange(s.tree_start as int, s.tree_end as int),
                    offset: 0,
                    halted: false,
                },
            }),
            Err(e) => r matches Err(e2) && e2 == e,
        },
{
    let top = DatTopLevelStructure::parse(dat_data)?;
    Ok(
        DataEntries {
            data_section: &dat_data[0..top.data_end],
            tree_entries: TreeEntries::new(&dat_data[top.tree_start..top.tree_end]),
        },
    )
}

/// `item` decoded to a record whose payload lies within `section`.
pub open spec fn settled(section: Seq<u8>, item: Result<Record, DatError>) -> bool {
    item matches Ok(rec) && in_bounds(section.len(), rec)
}

/// `item` failed to decode with `e`, or decoded to a record whose payload
/// leaves `section`, which `e` reports.
pub open spec fn fails_with(section: Seq<u8>, item: Result<Record, DatError>, e: DatError) -> bool {
    match item {
        Ok(rec) => !in_bounds(section.len(), rec) && out_of_bounds(section, rec, e),
        Err(e0) => e == e0,
    }
}

/// `r` holds the payload of every item of `items`, or the failure of the first
/// item that fails to decode or to resolve against `section`.
pub open spec fn all_resolved(section: Seq<u8>, items: Seq<Result<Record, DatError>>, r: Result<Vec<DataEntry>, DatError>) -> bool {
    match r {
        Ok(v) => {
            &&& v@.len() == items.len()
            &&& forall|i: int| 0 <= i < items.len() ==> {
                &&& settled(section, #[trigger] items[i])
                &&& v@[i]@ == payload_of(section, items[i]->Ok_0)
            }
        },
        Err(e) => exists|i: int| 0 <= i < items.len() && {
            &&& forall|j: int| 0 <= j < i ==> settled(section, #[trigger] items[j])
            &&& #[trigger] fails_with(section, items[i], e)
        },
    }
}

/// `r` is the outcome of resolving every record of the archive `dat`.
pub open spec fn archive_resolved(dat: Seq<u8>, r: Result<Vec<DataEntry>, DatError>) -> bool {
    match locate(dat) {
        Ok(s) => all_resolved(
            dat.subrange(0, s.data_end as int),
            crate::tree::records_from(dat.subrange(s.tree_start as int, s.tree_end as int), 0),
            r,
        ),
        Err(e) => r matches Err(e2) && e2 == e,
    }
}

/// A record whose payload range leaves the data section makes resolving the
/// archive fail; when every record before it resolves, the failure is the
/// out-of-bounds report for that record.
pub proof fn lemma_out_of_range_payload_aborts(
    section: Seq<u8>,
    items: Seq<Result<Record, DatError>>,
    i: int,
    r: Result<Vec<DataEntry>, DatError>,
)
    requires
        all_resolved(section, items, r),
        0 <= i < items.len(),
        items[i] matches Ok(rec) && !in_bounds(section.len(), rec),
    ensures
        r is Err,
        (forall|j: int| 0 <= j < i ==> settled(section, #[trigger] items[j])) ==> (r matches Err(e)
            && out_of_bounds(section, items[i]->Ok_0, e)),
{
    assert(!settled(section, items[i]));
    if r is Err {
        let e = r->Err_0;
        let w = choose|w: int|
            0 <= w < items.len() && (forall|j: int| 0 <= j < w ==> settled(section, #[trigger] items[j]))
                && #[trigger] fails_with(section, items[w], e);
        if forall|j: int| 0 <= j < i ==> settled(section, #[trigger] items[j]) {
            assert(!settled(section, items[w]));
            assert(w == i);
        }
    }
}

/// The payload of every record of the archive `dat_data`, in directory order,
/// or the first failure met in decoding or resolving them: nothing is handed
/// out from an archive with a corrupt directory or an out-of-range payload.
pub fn data_entries(dat_data: &[u8]) -> (r: Result<Vec<DataEntry<'_>>, DatError>)
    ensures
        archive_resolved(dat_data@, r),
{
    let mut it = iter_data(dat_data)?;
    let ghost section = it@.section;
    let ghost start = pending(it@.tree);
    let mut out: Vec<DataEntry> = Vec::new();
    loop
        invariant
            locate(dat_data@) is Ok,
            section == dat_data@.subrange(0, locate(dat_data@)->Ok_0.data_end as int),
            start == crate::tree::records_from(
                dat_data@.subrange(
                    locate(dat_data@)->Ok_0.tree_start as int,
                    locate(dat_data@)->Ok_0.tree_end as int,
                ),
                0,
            ),
            it@.section == section,
            out@.len() <= start.len(),
            pending(it@.tree) == start.subrange(out@.len() as int, start.len() as int),
            forall|i: int| 0 <= i < out@.len() ==> {
                &&& settled(section, #[trigger] start[i])
                &&& out@[i]@ == payload_of(section, start[i]->Ok_0)
            },
        decreases start.len() - out@.len(),
    {
        let k = out.len();
        match it.next() {
            None => {
                return Ok(out);
            },
            Some(Ok(d)) => {
                out.push(d);
            },
            Some(Err(e)) => {
                assert(forall|j: int| 0 <= j < k ==> settled(section, #[trigger] start[j]));
                assert(fails_with(section, start[k as int], e));
                return Err(e);
            },
        }
    }
}

} // verus!
