//! Archives of one record, laid out as ghost byte sequences, and what
//! decoding them yields.
use crate::bytes::le_u32_at;
use crate::data::{archive_resolved, in_bounds, payload_of, DataEntry};
use crate::error::DatError;
use crate::layout::locate;
use crate::path::{decode_path, lemma_first_scalar_range, nonempty_pieces, split_name};
use crate::tree::{decode_tree, parse_record, pending, records_from, tree_section, Record, TreeCursor};
use vstd::arithmetic::div_mod::lemma_fundamental_div_mod;
use vstd::prelude::*;
use vstd::utf8::*;

verus! {

/// The four little-endian bytes of `x`.
pub open spec fn u32_le(x: nat) -> Seq<u8> {
    seq![
        (x % 256) as u8,
        (x / 256 % 256) as u8,
        (x / 256 / 256 % 256) as u8,
        (x / 256 / 256 / 256 % 256) as u8,
    ]
}

/// A directory record for `name`; `gap` is the footer byte that no field uses.
pub open spec fn record_bytes(name: Seq<u8>, gap: u8, decompressed: nat, packed: nat, offset: nat) -> Seq<u8> {
    u32_le(name.len()) + name + seq![gap] + u32_le(decompressed) + u32_le(packed) + u32_le(offset)
}

/// An archive with data section `data`, file count `num_files` and the
/// directory `record`, closed by its footer.
pub open spec fn one_record_archive(data: Seq<u8>, num_files: nat, record: Seq<u8>) -> Seq<u8> {
    let body = data + u32_le(num_files) + record;
    body + u32_le(record.len() + 4) + u32_le(body.len() + 8)
}

/// The stored name `a\b.txt`.
pub open spec fn sample_name() -> Seq<u8> {
    seq![0x61, 0x5C, 0x62, 0x2E, 0x74, 0x78, 0x74]
}

proof fn lemma_u32_le_reads_back(s: Seq<u8>, at: int, x: nat)
    requires
        x < 0x1_0000_0000,
        0 <= at,
        at + 4 <= s.len(),
        s.subrange(at, at + 4) == u32_le(x),
    ensures
        le_u32_at(s, at) == x,
{
    let b = u32_le(x);
    assert(s[at] == b[0] && s[at + 1] == b[1] && s[at + 2] == b[2] && s[at + 3] == b[3]) by {
        assert(s.subrange(at, at + 4)[0] == s[at]);
        assert(s.subrange(at, at + 4)[1] == s[at + 1]);
        assert(s.subrange(at, at + 4)[2] == s[at + 2]);
        assert(s.subrange(at, at + 4)[3] == s[at + 3]);
    }
    let q1 = x / 256;
    let q2 = q1 / 256;
    let q3 = q2 / 256;
    lemma_fundamental_div_mod(x as int, 256);
    lemma_fundamental_div_mod(q1 as int, 256);
    lemma_fundamental_div_mod(q2 as int, 256);
    lemma_fundamental_div_mod(q3 as int, 256);
    assert(q3 < 256) by (nonlinear_arith)
        requires
            x < 0x1_0000_0000,
            x == 256 * q1 + x % 256,
            q1 == 256 * q2 + q1 % 256,
            q2 == 256 * q3 + q2 % 256,
            0 <= x % 256,
            0 <= q1 % 256,
            0 <= q2 % 256,
            0 <= q3,
    ;
}

proof fn lemma_sample_name_path()
    ensures
        decode_path(sample_name()) == Some(seq![seq!['a'], seq!['b', '.', 't', 'x', 't']]),
{
    let n = sample_name();
    reveal_with_fuel(valid_utf8, 8);
    reveal_with_fuel(decode_utf8, 8);
    reveal_with_fuel(split_name, 8);
    let p1 = seq![0x61u8];
    let p2 = seq![0x61u8, 0x5C];
    let p3 = seq![0x61u8, 0x5C, 0x62];
    let p4 = seq![0x61u8, 0x5C, 0x62, 0x2E];
    let p5 = seq![0x61u8, 0x5C, 0x62, 0x2E, 0x74];
    let p6 = seq![0x61u8, 0x5C, 0x62, 0x2E, 0x74, 0x78];
    assert(p2.drop_last() =~= p1);
    assert(p3.drop_last() =~= p2);
    assert(p4.drop_last() =~= p3);
    assert(p5.drop_last() =~= p4);
    assert(p6.drop_last() =~= p5);
    assert(n.drop_last() =~= p6);
    assert(seq![0x62u8].push(0x2E) =~= seq![0x62u8, 0x2E]);
    assert(seq![0x62u8, 0x2E].push(0x74) =~= seq![0x62u8, 0x2E, 0x74]);
    assert(seq![0x62u8, 0x2E, 0x74].push(0x78) =~= seq![0x62u8, 0x2E, 0x74, 0x78]);
    assert(seq![0x62u8, 0x2E, 0x74, 0x78].push(0x74) =~= seq![0x62u8, 0x2E, 0x74, 0x78, 0x74]);
    assert(split_name(p1) =~= seq![seq![0x61u8]]);
    assert(split_name(p2) =~= seq![seq![0x61u8], Seq::empty()]);
    assert(split_name(p3) =~= seq![seq![0x61u8], seq![0x62u8]]);
    assert(split_name(p4) =~= seq![seq![0x61u8], seq![0x62u8, 0x2E]]);
    assert(split_name(p5) =~= seq![seq![0x61u8], seq![0x62u8, 0x2E, 0x74]]);
    assert(split_name(p6) =~= seq![seq![0x61u8], seq![0x62u8, 0x2E, 0x74, 0x78]]);
    let parts = split_name(n);
    assert(parts =~= seq![seq![0x61u8], seq![0x62u8, 0x2E, 0x74, 0x78, 0x74]]);
    assert(parts.drop_last() =~= seq![seq![0x61u8]]);
    assert(parts.drop_last().drop_last() =~= Seq::<Seq<u8>>::empty());
    reveal_with_fuel(nonempty_pieces, 3);
    assert(nonempty_pieces(parts.drop_last()) =~= seq![seq![0x61u8]]);
    assert(nonempty_pieces(parts) =~= parts);
    assert(valid_utf8(n)) by {
        assert(n.subrange(1, 7) =~= seq![0x5Cu8, 0x62, 0x2E, 0x74, 0x78, 0x74]);
        assert(seq![0x5Cu8, 0x62, 0x2E, 0x74, 0x78, 0x74].subrange(1, 6) =~= seq![0x62u8, 0x2E, 0x74, 0x78, 0x74]);
        assert(seq![0x62u8, 0x2E, 0x74, 0x78, 0x74].subrange(1, 5) =~= seq![0x2Eu8, 0x74, 0x78, 0x74]);
        assert(seq![0x2Eu8, 0x74, 0x78, 0x74].subrange(1, 4) =~= seq![0x74u8, 0x78, 0x74]);
        assert(seq![0x74u8, 0x78, 0x74].subrange(1, 3) =~= seq![0x78u8, 0x74]);
        assert(seq![0x78u8, 0x74].subrange(1, 2) =~= seq![0x74u8]);
        assert(seq![0x74u8].subrange(1, 1) =~= Seq::<u8>::empty());
    }
    let first = seq![0x61u8];
    let second = seq![0x62u8, 0x2E, 0x74, 0x78, 0x74];
    let s2 = seq![0x2Eu8, 0x74, 0x78, 0x74];
    let s3 = seq![0x74u8, 0x78, 0x74];
    let s4 = seq![0x78u8, 0x74];
    let s5 = seq![0x74u8];
    assert(first.subrange(1, 1) =~= Seq::<u8>::empty());
    assert(second.subrange(1, 5) =~= s2);
    assert(s2.subrange(1, 4) =~= s3);
    assert(s3.subrange(1, 3) =~= s4);
    assert(s4.subrange(1, 2) =~= s5);
    assert(s5.subrange(1, 1) =~= Seq::<u8>::empty());
    lemma_first_scalar_range(first);
    lemma_first_scalar_range(second);
    lemma_first_scalar_range(s2);
    lemma_first_scalar_range(s3);
    lemma_first_scalar_range(s4);
    lemma_first_scalar_range(s5);
    assert(decode_utf8(s5) =~= seq!['t']);
    assert(decode_utf8(s4) =~= seq!['x', 't']);
    assert(decode_utf8(s3) =~= seq!['t', 'x', 't']);
    assert(decode_utf8(s2) =~= seq!['.', 't', 'x', 't']);
    assert(decode_utf8(first) =~= seq!['a']);
    assert(decode_utf8(second) =~= seq!['b', '.', 't', 'x', 't']);
    assert(parts.map_values(|s: Seq<u8>| decode_utf8(s)) =~= seq![seq!['a'], seq!['b', '.', 't', 'x', 't']]);
}

#[verifier::spinoff_prover]
proof fn lemma_one_record_layout(data: Seq<u8>, num_files: nat, record: Seq<u8>)
    requires
        record.len() == 24,
        data.len() + 36 < 0x1_0000_0000,
        num_files < 0x1_0000_0000,
    ensures
        ({
            let d = data.len();
            let s = locate(one_record_archive(data, num_files, record));
            s matches Ok(s) && s.data_end == d && s.tree_start == d + 4 && s.tree_end == d + 28
        }),
        one_record_archive(data, num_files, record).subrange(
            data.len() + 4 as int,
            data.len() + 28 as int,
        ) =~= record,
        one_record_archive(data, num_files, record).subrange(0, data.len() as int) =~= data,
{
    let body = data + u32_le(num_files) + record;
    let dat = one_record_archive(data, num_files, record);
    let d = data.len() as int;
    let len = dat.len() as int;
    assert(len == d + 36);
    assert(dat.subrange(len - 4, len) =~= u32_le((body.len() + 8) as nat));
    lemma_u32_le_reads_back(dat, len - 4, (body.len() + 8) as nat);
    assert(dat.subrange(len - 8, len - 4) =~= u32_le(28));
    lemma_u32_le_reads_back(dat, len - 8, 28);
    assert(dat.subrange(d, d + 4) =~= u32_le(num_files));
    lemma_u32_le_reads_back(dat, d, num_files);
}

proof fn lemma_sample_record_parses(name: Seq<u8>, gap: u8, decompressed: nat, packed: nat, offset: nat)
    requires
        name == sample_name(),
        decompressed < 0x1_0000_0000,
        packed < 0x1_0000_0000,
        offset < 0x1_0000_0000,
    ensures
        record_bytes(name, gap, decompressed, packed, offset).len() == 24,
        parse_record(record_bytes(name, gap, decompressed, packed, offset), 0) == Ok::<
            (Record, nat),
            DatError,
        >((sample_record(decompressed, packed, offset), 24)),
{
    let tree = record_bytes(name, gap, decompressed, packed, offset);
    assert(tree.subrange(0, 4) =~= u32_le(7));
    lemma_u32_le_reads_back(tree, 0, 7);
    assert(tree.subrange(12, 16) =~= u32_le(decompressed));
    lemma_u32_le_reads_back(tree, 12, decompressed);
    assert(tree.subrange(16, 20) =~= u32_le(packed));
    lemma_u32_le_reads_back(tree, 16, packed);
    assert(tree.subrange(20, 24) =~= u32_le(offset));
    lemma_u32_le_reads_back(tree, 20, offset);
    assert(tree.subrange(4, 11) =~= name);
    lemma_sample_name_path();
    assert(tree[0] == u32_le(7)[0]);
}

#[verifier::spinoff_prover]
proof fn lemma_one_record_decodes(
    data: Seq<u8>,
    num_files: nat,
    gap: u8,
    decompressed: nat,
    packed: nat,
    offset: nat,
)
    requires
        offset + packed <= data.len(),
        data.len() + 36 < 0x1_0000_0000,
        num_files < 0x1_0000_0000,
        decompressed < 0x1_0000_0000,
    ensures
        ({
            let dat = one_record_archive(
                data,
                num_files,
                record_bytes(sample_name(), gap, decompressed, packed, offset),
            );
            &&& locate(dat) matches Ok(s) && s.data_end == data.len()
                && records_from(dat.subrange(s.tree_start as int, s.tree_end as int), 0)
                == seq![Ok::<Record, DatError>(sample_record(decompressed, packed, offset))]
            &&& dat.subrange(0, data.len() as int) == data
            &&& decode_tree(dat) == Ok::<Seq<Record>, DatError>(
                seq![sample_record(decompressed, packed, offset)],
            )
        }),
{
    let name = sample_name();
    let record = record_bytes(name, gap, decompressed, packed, offset);
    let dat = one_record_archive(data, num_files, record);
    let d = data.len() as int;
    lemma_one_record_layout(data, num_files, record);
    let tree = dat.subrange(d + 4, d + 28);
    let rec = sample_record(decompressed, packed, offset);
    lemma_sample_record_parses(name, gap, decompressed, packed, offset);
    assert(tree =~= record);
    assert(records_from(tree, 24) =~= Seq::<Result<Record, DatError>>::empty());
    let items = records_from(tree, 0);
    assert(items =~= seq![Ok::<Record, DatError>(rec)]);
    assert(items.drop_first() =~= Seq::<Result<Record, DatError>>::empty());
    assert(crate::tree::collect_records(items.drop_first()) == Ok::<Seq<Record>, DatError>(Seq::empty()));
    assert(seq![rec] + Seq::<Record>::empty() =~= seq![rec]);
    assert(decode_tree(dat) == Ok::<Seq<Record>, DatError>(seq![rec]));
}

/// The record of the one-record archive below, as decoding must find it.
pub open spec fn sample_record(decompressed: nat, packed: nat, offset: nat) -> Record {
    Record {
        path: seq![seq!['a'], seq!['b', '.', 't', 'x', 't']],
        is_compressed: true,
        decompressed_size: decompressed,
        packed_size: packed,
        offset,
    }
}

/// Round trip: an archive whose one record names `a\b.txt` with payload
/// range `[offset, offset + packed)` of the data section `data` decodes to
/// that one record, with the path split into `a` and `b.txt`, and resolving
/// it yields exactly the bytes `[offset, offset + packed)` of `data`. (The
/// declared flag is the first byte of the record, the low byte of the name
/// length, hence set.)
#[verifier::spinoff_prover]
pub proof fn lemma_one_record_round_trip(
    data: Seq<u8>,
    num_files: nat,
    gap: u8,
    decompressed: nat,
    packed: nat,
    offset: nat,
    r: Result<Vec<DataEntry>, DatError>,
)
    requires
        offset + packed <= data.len(),
        data.len() + 36 < 0x1_0000_0000,
        num_files < 0x1_0000_0000,
        decompressed < 0x1_0000_0000,
        archive_resolved(
            one_record_archive(
                data,
                num_files,
                record_bytes(sample_name(), gap, decompressed, packed, offset),
            ),
            r,
        ),
    ensures
        decode_tree(
            one_record_archive(
                data,
                num_files,
                record_bytes(sample_name(), gap, decompressed, packed, offset),
            ),
        ) == Ok::<Seq<Record>, DatError>(seq![sample_record(decompressed, packed, offset)]),
        r matches Ok(v) && v@.len() == 1 && v@[0]@.path == sample_record(
            decompressed,
            packed,
            offset,
        ).path && v@[0]@.raw_data == data.subrange(offset as int, (offset + packed) as int),
{
    let dat = one_record_archive(
        data,
        num_files,
        record_bytes(sample_name(), gap, decompressed, packed, offset),
    );
    lemma_one_record_decodes(data, num_files, gap, decompressed, packed, offset);
    let s = locate(dat)->Ok_0;
    let items = records_from(dat.subrange(s.tree_start as int, s.tree_end as int), 0);
    let section = dat.subrange(0, s.data_end as int);
    match r {
        Ok(v) => {
            assert(v@[0]@.raw_data == section.subrange(offset as int, (offset + packed) as int));
        },
        Err(e) => {
            let w = choose|w: int|
                0 <= w < items.len() && (forall|j: int|
                    0 <= j < w ==> crate::data::settled(section, #[trigger] items[j]))
                    && #[trigger] crate::data::fails_with(section, items[w], e);
            assert(w == 0);
        },
    }
}

/// Round trip through the cursors: in the same one-record archive, a fresh
/// directory cursor has exactly that record pending, and the record's payload
/// lies in the data section, which is `data`, at `[offset, offset + packed)`.
pub proof fn lemma_one_record_cursors(
    data: Seq<u8>,
    num_files: nat,
    gap: u8,
    decompressed: nat,
    packed: nat,
    offset: nat,
)
    requires
        offset + packed <= data.len(),
        data.len() + 36 < 0x1_0000_0000,
        num_files < 0x1_0000_0000,
        decompressed < 0x1_0000_0000,
    ensures
        ({
            let dat = one_record_archive(
                data,
                num_files,
                record_bytes(sample_name(), gap, decompressed, packed, offset),
            );
            let rec = sample_record(decompressed, packed, offset);
            &&& locate(dat) matches Ok(s) && s.data_end == data.len() && tree_section(dat) == Ok::<
                Seq<u8>,
                DatError,
            >(dat.subrange(s.tree_start as int, s.tree_end as int)) && pending(
                TreeCursor {
                    tree: dat.subrange(s.tree_start as int, s.tree_end as int),
                    offset: 0,
                    halted: false,
                },
            ) == seq![Ok::<Record, DatError>(rec)]
            &&& dat.subrange(0, data.len() as int) == data
            &&& in_bounds(data.len(), rec)
            &&& payload_of(data, rec).path == rec.path
            &&& payload_of(data, rec).raw_data == data.subrange(offset as int, (offset + packed) as int)
        }),
{
    lemma_one_record_decodes(data, num_files, gap, decompressed, packed, offset);
}

} // verus!
