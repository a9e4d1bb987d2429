//! Directory records and the cursor that decodes them one after another.
use crate::bytes::{field_u32, le_u32_at};
use crate::error::DatError;
use crate::layout::{locate, DatTopLevelStructure};
use crate::path::{decode_name, decode_path};
use vstd::prelude::*;

verus! {

/// Bytes of a record before its name: the name length field.
pub const RECORD_HEADER_SIZE: usize = 4;

/// Bytes of a record after its name: a flag byte and three size fields.
pub const RECORD_FOOTER_SIZE: usize = 13;

/// Bytes of a record with an empty name.
pub const MIN_RECORD_SIZE: usize = 17;

/// One decoded directory record.
pub struct Record {
    pub path: Seq<Seq<char>>,
    pub is_compressed: bool,
    pub decompressed_size: nat,
    pub packed_size: nat,
    pub offset: nat,
}

/// A directory record: the path of an archived file, whether the archive
/// declares it compressed, its sizes, and where its payload starts within
/// the data section.
#[derive(Debug)]
pub struct TreeEntry {
    pub path: Vec<String>,
    pub is_compressed: bool,
    pub decompressed_size: usize,
    pub packed_size: usize,
    pub offset: usize,
}

impl View for TreeEntry {
    type V = Record;

    open spec fn view(&self) -> Record {
        Record {
            path: self.path.deep_view(),
            is_compressed: self.is_compressed,
            decompressed_size: self.decompressed_size as nat,
            packed_size: self.packed_size as nat,
            offset: self.offset as nat,
        }
    }
}

/// The record that starts at `at` in the directory `tree`, with the number of
/// bytes it takes, or why none can be read there. The flag is the first byte
/// of the record itself; the three fields follow one byte into the footer.
pub open spec fn parse_record(tree: Seq<u8>, at: int) -> Result<(Record, nat), DatError> {
    let remaining = tree.len() - at;
    if remaining < MIN_RECORD_SIZE {
        Err(DatError::TruncatedRecord { at: at as usize, remaining: remaining as usize })
    } else if le_u32_at(tree, at) > remaining - MIN_RECORD_SIZE {
        Err(DatError::TruncatedRecord { at: at as usize, remaining: remaining as usize })
    } else {
        let name_len = le_u32_at(tree, at);
        let footer = at + RECORD_HEADER_SIZE + name_len;
        match decode_path(tree.subrange(at + RECORD_HEADER_SIZE, footer)) {
            None => Err(DatError::InvalidEncoding { at: at as usize }),
            Some(path) => Ok(
                (
                    Record {
                        path,
                        is_compressed: tree[at] > 0,
                        decompressed_size: le_u32_at(tree, footer + 1),
                        packed_size: le_u32_at(tree, footer + 5),
                        offset: le_u32_at(tree, footer + 9),
                    },
                    (MIN_RECORD_SIZE + name_len) as nat,
                ),
            ),
        }
    }
}

/// What decoding the records of `tree` from `at` on yields, in order: each
/// record, and after the first failure nothing more.
pub open spec fn records_from(tree: Seq<u8>, at: int) -> Seq<Result<Record, DatError>>
    decreases tree.len() - at,
    when 0 <= at
{
    if at >= tree.len() {
        Seq::empty()
    } else {
        match parse_record(tree, at) {
            Ok((rec, n)) => seq![Ok(rec)] + records_from(tree, at + n),
            Err(e) => seq![Err(e)],
        }
    }
}

/// Decoding halts at its first failure: a failure is always the last thing
/// that decoding from `at` yields.
pub proof fn lemma_failure_is_last(tree: Seq<u8>, at: int)
    requires
        0 <= at,
    ensures
        forall|i: int|
            0 <= i < records_from(tree, at).len() && (#[trigger] records_from(tree, at)[i]) is Err
                ==> i == records_from(tree, at).len() - 1,
    decreases tree.len() - at,
{
    if at < tree.len() {
        match parse_record(tree, at) {
            Ok((rec, n)) => {
                lemma_failure_is_last(tree, at + n);
                let rest = records_from(tree, at + n);
                assert forall|i: int|
                    0 <= i < records_from(tree, at).len() && (#[trigger] records_from(tree, at)[i]) is Err
                        implies i == records_from(tree, at).len() - 1 by {
                    assert(i > 0);
                    assert(records_from(tree, at)[i] == rest[i - 1]);
                }
            },
            Err(_) => {},
        }
    }
}

/// All the records, or the first failure among them.
pub open spec fn collect_records(items: Seq<Result<Record, DatError>>) -> Result<
    Seq<Record>,
    DatError,
>
    decreases items.len(),
{
    if items.len() == 0 {
        Ok(Seq::empty())
    } else {
        match items[0] {
            Err(e) => Err(e),
            Ok(rec) => match collect_records(items.drop_first()) {
                Ok(rest) => Ok(seq![rec] + rest),
                Err(e) => Err(e),
            },
        }
    }
}

/// The directory section of an archive, or why the archive was refused.
pub open spec fn tree_section(dat: Seq<u8>) -> Result<Seq<u8>, DatError> {
    match locate(dat) {
        Ok(s) => Ok(dat.subrange(s.tree_start as int, s.tree_end as int)),
        Err(e) => Err(e),
    }
}

/// Every record of an archive, or the first failure met on the way.
pub open spec fn decode_tree(dat: Seq<u8>) -> Result<Seq<Record>, DatError> {
    match tree_section(dat) {
        Ok(tree) => collect_records(records_from(tree, 0)),
        Err(e) => Err(e),
    }
}

pub open spec fn parsed_view(r: Result<(TreeEntry, usize), DatError>) -> Result<(Record, nat), DatError> {
    match r {
        Ok((e, n)) => Ok((e@, n as nat)),
        Err(e) => Err(e),
    }
}

pub open spec fn item_view(r: Result<TreeEntry, DatError>) -> Result<Record, DatError> {
    match r {
        Ok(e) => Ok(e@),
        Err(e) => Err(e),
    }
}

impl TreeEntry {
    /// Decodes the record that starts at `at` in the directory `tree`, and
    /// says how many bytes it took.
    pub fn parse(tree: &[u8], at: usize) -> (r: Result<(TreeEntry, usize), DatError>)
        requires
            at <= tree@.len(),
        ensures
            parsed_view(r) == parse_record(tree@, at as int),
            r matches Ok((_, n)) ==> MIN_RECORD_SIZE <= n && at + n <= tree@.len(),
            r matches Ok((e, _)) ==> forall|k: int|
                0 <= k < e.path@.len() ==> !(#[trigger] e.path@[k])@.contains('\\'),
            r matches Ok((e, _)) ==> forall|k: int|
                0 <= k < e.path@.len() ==> (#[trigger] e.path@[k])@.len() > 0,
    {
        let remaining = tree.len() - at;
        if remaining < MIN_RECORD_SIZE {
            return Err(DatError::TruncatedRecord { at, remaining });
        }
        let name_len = field_u32(tree, at) as usize;
        if name_len > remaining - MIN_RECORD_SIZE {
            return Err(DatError::TruncatedRecord { at, remaining });
        }
        let name_start = at + RECORD_HEADER_SIZE;
        let footer = name_start + name_len;
        let path = match decode_name(&tree[name_start..footer]) {
            Some(p) => p,
            None => {
                return Err(DatError::InvalidEncoding { at });
            },
        };
        let entry = TreeEntry {
            path,
            is_compressed: tree[at] > 0,
            decompressed_size: field_u32(tree, footer + 1) as usize,
            packed_size: field_u32(tree, footer + 5) as usize,
            offset: field_u32(tree, footer + 9) as usize,
        };
        Ok((entry, MIN_RECORD_SIZE + name_len))
    }
}

/// Where a directory cursor stands: the directory, the offset of the next
/// record, and whether a failure has ended the walk.
pub struct TreeCursor {
    pub tree: Seq<u8>,
    pub offset: nat,
    pub halted: bool,
}

/// What a cursor has still to yield.
pub open spec fn pending(c: TreeCursor) -> Seq<Result<Record, DatError>> {
    if c.halted {
        Seq::empty()
    } else {
        records_from(c.tree, c.offset as int)
    }
}

/// A cursor over the records of a directory section. It yields each record in
/// order; after the first failure it yields nothing more.
pub struct TreeEntries<'a> {
    tree_data: &'a [u8],
    offset: usize,
    halted: bool,
}

impl<'a> View for TreeEntries<'a> {
    type V = TreeCursor;

    closed spec fn view(&self) -> TreeCursor {
        TreeCursor { tree: self.tree_data@, offset: self.offset as nat, halted: self.halted }
    }
}

impl<'a> TreeEntries<'a> {
    /// A cursor at the first record of the directory section `tree_data`.
    pub fn new(tree_data: &'a [u8]) -> (r: TreeEntries<'a>)
        ensures
            r@ == (TreeCursor { tree: tree_data@, offset: 0, halted: false }),
    {
        TreeEntries { tree_data, offset: 0, halted: false }
    }

    /// Yields the next record, or the failure that ends the walk; `None` once
    /// the directory is exhausted or a failure has been yielded.
    pub fn next(&mut self) -> (r: Option<Result<TreeEntry, DatError>>)
        ensures
            final(self)@.tree == old(self)@.tree,
            pending(old(self)@).len() == 0 ==> r is None && pending(final(self)@).len() == 0,
            pending(old(self)@).len() > 0 ==> {
                &&& r matches Some(item) && item_view(item) == pending(old(self)@)[0]
                &&& pending(final(self)@) == pending(old(self)@).drop_first()
            },
    {
        if self.halted || self.offset >= self.tree_data.len() {
            return None;
        }
        let ghost tree = self.tree_data@;
        let ghost at = self.offset as int;
        match TreeEntry::parse(self.tree_data, self.offset) {
            Ok((entry, size)) => {
                self.offset = self.offset + size;
                assert(records_from(tree, at).drop_first() =~= records_from(tree, at + size));
                Some(Ok(entry))
            },
            Err(e) => {
                self.halted = true;
                assert(records_from(tree, at).drop_first() =~= Seq::<Result<Record, DatError>>::empty());
                Some(Err(e))
            },
        }
    }
}

/// A cursor over the directory records of the archive `dat_data`, once its
/// footer has been checked.
pub fn iter_tree(dat_data: &[u8]) -> (r: Result<TreeEntries<'_>, DatError>)
    ensures
        match tree_section(dat_data@) {
            Ok(tree) => r matches Ok(it) && it@ == (TreeCursor { tree, offset: 0, halted: false }),
            Err(e) => r matches Err(e2) && e2 == e,
        },
{
    let top = DatTopLevelStructure::parse(dat_data)?;
    Ok(TreeEntries::new(&dat_data[top.tree_start..top.tree_end]))
}

/// Every directory record of the archive `dat_data`, in order, or the first
/// failure: nothing is returned from a directory that fails part way.
pub fn tree_entries(dat_data: &[u8]) -> (r: Result<Vec<TreeEntry>, DatError>)
    ensures
        match decode_tree(dat_data@) {
            Ok(recs) => r matches Ok(v) && v@.len() == recs.len() && forall|i: int|
                0 <= i < recs.len() ==> (#[trigger] v@[i])@ == recs[i],
            Err(e) => r matches Err(e2) && e2 == e,
        },
{
    let mut it = iter_tree(dat_data)?;
    let ghost start = pending(it@);
    let mut out: Vec<TreeEntry> = Vec::new();
    loop
        invariant
            decode_tree(dat_data@) == collect_records(start),
            collect_records(start) == prefix_with(out@.map_values(|e: TreeEntry| e@), collect_records(pending(it@))),
        decreases pending(it@).len(),
    {
        let ghost p = pending(it@);
        match it.next() {
            None => {
                assert(out@.map_values(|e: TreeEntry| e@) + Seq::empty() =~= out@.map_values(|e: TreeEntry| e@));
                return Ok(out);
            },
            Some(Err(e)) => {
                assert(collect_records(p) == Err::<Seq<Record>, DatError>(e));
                return Err(e);
            },
            Some(Ok(entry)) => {
                let ghost before = out@.map_values(|e: TreeEntry| e@);
                out.push(entry);
                proof {
                    let after = out@.map_values(|e: TreeEntry| e@);
                    assert(after =~= before.push(entry@));
                    match collect_records(pending(it@)) {
                        Ok(rest) => {
                            assert(before + (seq![entry@] + rest) =~= after + rest);
                        },
                        Err(_) => {},
                    }
                }
            },
        }
    }
}

/// `done` put before the records of `rest`, or the failure of `rest`.
pub open spec fn prefix_with(done: Seq<Record>, rest: Result<Seq<Record>, DatError>) -> Result<Seq<Record>, DatError> {
    match rest {
        Ok(rs) => Ok(done + rs),
        Err(e) => Err(e),
    }
}

} // verus!
