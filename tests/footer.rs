use fo2dat::{data_entries, extract_step, iter_tree, tree_entries, DatError, DatTopLevelStructure, ExtractAction, Materialized};

fn record(name: &[u8], gap: u8, decompressed: u32, packed: u32, offset: u32) -> Vec<u8> {
    let mut r = Vec::new();
    r.extend_from_slice(&(name.len() as u32).to_le_bytes());
    r.extend_from_slice(name);
    r.push(gap);
    r.extend_from_slice(&decompressed.to_le_bytes());
    r.extend_from_slice(&packed.to_le_bytes());
    r.extend_from_slice(&offset.to_le_bytes());
    r
}

fn archive(data: &[u8], num_files: u32, tree: &[u8]) -> Vec<u8> {
    let mut a = Vec::new();
    a.extend_from_slice(data);
    a.extend_from_slice(&num_files.to_le_bytes());
    a.extend_from_slice(tree);
    a.extend_from_slice(&(tree.len() as u32 + 4).to_le_bytes());
    let total = a.len() as u32 + 4;
    a.extend_from_slice(&total.to_le_bytes());
    a
}

#[test]
fn footer_locates_sections() {
    let tree = record(b"a.txt", 0, 3, 3, 0);
    let dat = archive(b"xyz", 1, &tree);
    let s = DatTopLevelStructure::parse(&dat).unwrap();
    assert_eq!(s.file_size, dat.len());
    assert_eq!(s.data_end, 3);
    assert_eq!(s.num_files, 1);
    assert_eq!(s.tree_start, 7);
    assert_eq!(s.tree_end, 7 + tree.len());
    assert_eq!(s.tree_end + 8, dat.len());
}

#[test]
fn size_field_disagreeing_with_length_is_refused() {
    let mut dat = archive(b"xyz", 0, &[]);
    let n = dat.len();
    dat[n - 4] = dat[n - 4].wrapping_add(1);
    match DatTopLevelStructure::parse(&dat) {
        Err(DatError::SizeMismatch { declared, actual }) => {
            assert_eq!(actual, n);
            assert_eq!(declared, n + 1);
        }
        other => panic!("unexpected {:?}", other),
    }
    let mut longer = archive(b"xyz", 0, &[]);
    longer.push(0);
    assert!(matches!(DatTopLevelStructure::parse(&longer), Err(DatError::SizeMismatch { .. })));
}

#[test]
fn buffer_shorter_than_footer_is_truncated_header() {
    let dat = [8u8, 0, 0, 0, 8, 0, 0, 0];
    assert!(matches!(DatTopLevelStructure::parse(&dat), Err(DatError::TruncatedHeader { len: 8 })));
    assert!(matches!(DatTopLevelStructure::parse(&[]), Err(DatError::TruncatedHeader { len: 0 })));
}

#[test]
fn directory_size_below_its_own_field_is_truncated_directory() {
    let mut dat = vec![0u8; 12];
    dat[4..8].copy_from_slice(&3u32.to_le_bytes());
    dat[8..12].copy_from_slice(&12u32.to_le_bytes());
    assert!(matches!(DatTopLevelStructure::parse(&dat), Err(DatError::TruncatedDirectory { len: 12 })));
}

#[test]
fn directory_larger_than_archive_is_truncated_directory() {
    let mut dat = vec![0u8; 16];
    dat[8..12].copy_from_slice(&100u32.to_le_bytes());
    dat[12..16].copy_from_slice(&16u32.to_le_bytes());
    assert!(matches!(DatTopLevelStructure::parse(&dat), Err(DatError::TruncatedDirectory { len: 16 })));
}

#[test]
fn no_room_for_file_count_is_truncated_header() {
    let mut dat = vec![0u8; 10];
    dat[2..6].copy_from_slice(&4u32.to_le_bytes());
    dat[6..10].copy_from_slice(&10u32.to_le_bytes());
    assert!(matches!(DatTopLevelStructure::parse(&dat), Err(DatError::TruncatedHeader { len: 10 })));
}

#[test]
fn empty_directory_has_no_entries() {
    let dat = archive(b"", 0, &[]);
    assert_eq!(dat.len(), 12);
    assert!(tree_entries(&dat).unwrap().is_empty());
    let mut it = iter_tree(&dat).unwrap();
    assert!(it.next().is_none());
}

#[test]
fn scenario_one_record_of_ten_bytes() {
    let tree = record(b"a.txt", 0, 10, 10, 0);
    let payload: Vec<u8> = (0u8..30).collect();
    let dat = archive(&payload, 1, &tree);
    assert_eq!(dat.len(), 64);
    assert_eq!(&dat[56..60], &[26, 0, 0, 0]);
    assert_eq!(&dat[60..64], &[0x40, 0, 0, 0]);
    let entries = tree_entries(&dat).unwrap();
    assert_eq!(entries.len(), 1);
    assert_eq!(entries[0].path, vec!["a.txt".to_string()]);
    assert_eq!(entries[0].packed_size, 10);
    assert_eq!(entries[0].decompressed_size, 10);
    assert_eq!(entries[0].offset, 0);
    assert!(entries[0].is_compressed);
    let data = data_entries(&dat).unwrap();
    assert_eq!(data.len(), 1);
    assert_eq!(data[0].raw_data, &payload[0..10]);
    match extract_step(&data[0], false) {
        Ok(ExtractAction::Write(Materialized::Verbatim(bytes))) => {
            assert_eq!(bytes, &[0u8, 1, 2, 3, 4, 5, 6, 7, 8, 9]);
            assert_eq!(bytes, &dat[0..10]);
        }
        _ => panic!("the ten raw bytes were not to be written as they are"),
    }
}

#[test]
fn scenario_directory_size_seventeen_cannot_hold_the_record() {
    let mut dat = vec![0u8; 64];
    dat[56..60].copy_from_slice(&0x11u32.to_le_bytes());
    dat[60..64].copy_from_slice(&0x40u32.to_le_bytes());
    let s = DatTopLevelStructure::parse(&dat).unwrap();
    assert_eq!((s.tree_start, s.tree_end, s.data_end), (43, 56, 39));
    dat[43..47].copy_from_slice(&5u32.to_le_bytes());
    dat[47..52].copy_from_slice(b"a.txt");
    assert!(matches!(tree_entries(&dat), Err(DatError::TruncatedRecord { at: 0, remaining: 13 })));
}
