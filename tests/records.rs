use fo2dat::{decode_name, is_confined, iter_data, iter_tree, tree_entries, DatError, TreeEntry};

fn record(name: &[u8], gap: u8, decompressed: u32, packed: u32, offset: u32) -> Vec<u8> {
    let mut r = Vec::new();
    r.extend_from_slice(&(name.len() as u32).to_le_bytes());
    r.extend_from_slice(name);
    r.push(gap);
    r.extend_from_slice(&decompressed.to_le_bytes());
    r.extend_from_slice(&packed.to_le_bytes());
    r.extend_from_slice(&offset.to_le_bytes());
    r
}

fn archive(data: &[u8], num_files: u32, tree: &[u8]) -> Vec<u8> {
    let mut a = Vec::new();
    a.extend_from_slice(data);
    a.extend_from_slice(&num_files.to_le_bytes());
    a.extend_from_slice(tree);
    a.extend_from_slice(&(tree.len() as u32 + 4).to_le_bytes());
    let total = a.len() as u32 + 4;
    a.extend_from_slice(&total.to_le_bytes());
    a
}

fn strings(parts: &[&str]) -> Vec<String> {
    parts.iter().map(|p| p.to_string()).collect()
}

#[test]
fn name_is_split_on_backslashes() {
    assert_eq!(decode_name(b"art\\critters\\hmjmps.frm").unwrap(), strings(&["art", "critters", "hmjmps.frm"]));
    assert_eq!(decode_name(b"readme.txt").unwrap(), strings(&["readme.txt"]));
}

#[test]
fn no_component_holds_a_backslash() {
    let parts = decode_name(b"a\\\\b\\").unwrap();
    assert_eq!(parts, strings(&["a", "b"]));
    assert!(parts.iter().all(|p| !p.contains('\\') && !p.is_empty()));
    assert_eq!(decode_name(b"\\x\\\\\\y").unwrap(), strings(&["x", "y"]));
    assert_eq!(decode_name(b"\\").unwrap(), strings(&[]));
}

#[test]
fn slash_is_not_a_separator() {
    assert_eq!(decode_name(b"a/b\\c").unwrap(), strings(&["a/b", "c"]));
}

#[test]
fn empty_name_is_the_empty_path() {
    assert_eq!(decode_name(b"").unwrap(), strings(&[]));
    let tree = record(b"", 0, 0, 0, 0);
    let entries = tree_entries(&archive(b"", 1, &tree)).unwrap();
    assert!(entries[0].path.is_empty());
    assert!(!entries[0].is_compressed);
    let (entry, size) = TreeEntry::parse(&[0u8; 17], 0).unwrap();
    assert_eq!(size, 17);
    assert!(entry.path.is_empty());
    assert!(!entry.is_compressed);
    assert_eq!((entry.decompressed_size, entry.packed_size, entry.offset), (0, 0, 0));
}

#[test]
fn multibyte_names_decode() {
    let name = "caf\u{e9}\\\u{fc}ber".as_bytes();
    assert_eq!(decode_name(name).unwrap(), strings(&["caf\u{e9}", "\u{fc}ber"]));
}

#[test]
fn invalid_utf8_name_is_refused() {
    assert!(decode_name(&[0x61, 0xFF, 0x62]).is_none());
    assert!(decode_name(&[0xC3]).is_none());
    assert!(decode_name(&[0xED, 0xA0, 0x80]).is_none());
    let tree = record(&[0x61, 0x5C, 0xC0, 0x80], 0, 0, 0, 0);
    assert!(matches!(TreeEntry::parse(&tree, 0), Err(DatError::InvalidEncoding { at: 0 })));
}

#[test]
fn record_fields_are_read_after_the_name() {
    let tree = record(b"x\\y", 0xEE, 100, 20, 7);
    let (entry, size) = TreeEntry::parse(&tree, 0).unwrap();
    assert_eq!(size, 20);
    assert_eq!(entry.path, strings(&["x", "y"]));
    assert_eq!(entry.decompressed_size, 100);
    assert_eq!(entry.packed_size, 20);
    assert_eq!(entry.offset, 7);
    assert!(entry.is_compressed);
}

#[test]
fn flag_is_the_first_byte_of_the_record() {
    let mut name = vec![b'n'; 256];
    name[0] = b'm';
    let tree = record(&name, 1, 0, 0, 0);
    let (entry, size) = TreeEntry::parse(&tree, 0).unwrap();
    assert_eq!(size, 256 + 17);
    assert!(!entry.is_compressed);
}

#[test]
fn short_record_is_truncated() {
    let tree = vec![0u8; 16];
    assert!(matches!(TreeEntry::parse(&tree, 0), Err(DatError::TruncatedRecord { at: 0, remaining: 16 })));
    let mut long_name = record(b"abc", 0, 0, 0, 0);
    long_name[0] = 4;
    assert!(matches!(TreeEntry::parse(&long_name, 0), Err(DatError::TruncatedRecord { at: 0, remaining: 20 })));
    let huge = record(b"abc", 0, 0, 0, 0);
    let mut huge = huge;
    huge[0..4].copy_from_slice(&u32::MAX.to_le_bytes());
    assert!(matches!(TreeEntry::parse(&huge, 0), Err(DatError::TruncatedRecord { .. })));
}

#[test]
fn cursor_halts_after_the_first_failure() {
    let mut tree = record(b"one", 0, 1, 1, 0);
    tree.extend(record(b"two", 0, 1, 1, 1));
    tree.extend_from_slice(&[9, 9, 9]);
    tree.extend(record(b"three", 0, 1, 1, 2));
    let dat = archive(b"abc", 3, &tree);
    let mut it = iter_tree(&dat).unwrap();
    assert_eq!(it.next().unwrap().unwrap().path, strings(&["one"]));
    assert_eq!(it.next().unwrap().unwrap().path, strings(&["two"]));
    assert!(matches!(it.next(), Some(Err(DatError::TruncatedRecord { at: 40, .. }))));
    assert!(it.next().is_none());
    assert!(it.next().is_none());
    assert!(matches!(tree_entries(&dat), Err(DatError::TruncatedRecord { at: 40, .. })));
}

#[test]
fn cursor_restarts_from_scratch() {
    let mut tree = record(b"one", 0, 1, 1, 0);
    tree.extend(record(b"two", 0, 1, 1, 1));
    let dat = archive(b"ab", 2, &tree);
    for _ in 0..2 {
        let entries = tree_entries(&dat).unwrap();
        assert_eq!(entries.len(), 2);
        assert_eq!(entries[1].path, strings(&["two"]));
        assert_eq!(entries[1].offset, 1);
    }
}

#[test]
fn round_trip_of_one_record() {
    let data: Vec<u8> = (100u8..140).collect();
    let tree = record(b"a\\b.txt", 0, 9, 9, 12);
    let dat = archive(&data, 1, &tree);
    let entries = tree_entries(&dat).unwrap();
    assert_eq!(entries.len(), 1);
    assert_eq!(entries[0].path, strings(&["a", "b.txt"]));
    let mut it = iter_data(&dat).unwrap();
    let entry = it.next().unwrap().unwrap();
    assert_eq!(entry.path, strings(&["a", "b.txt"]));
    assert_eq!(entry.raw_data, &data[12..21]);
    assert_eq!(entry.decompressed_size, 9);
    assert!(it.next().is_none());
}

#[test]
fn components_that_leave_the_directory_are_not_confined() {
    assert!(is_confined(&strings(&["art", "critters", "a.frm"])));
    assert!(is_confined(&strings(&[])));
    assert!(is_confined(&strings(&["..a", ".b", "c.."])));
    assert!(!is_confined(&strings(&["art", ".."])));
    assert!(!is_confined(&strings(&["."])));
    assert!(!is_confined(&strings(&["a/b"])));
    assert!(!is_confined(&strings(&["/etc", "passwd"])));
    assert!(!is_confined(&strings(&["a", ""])));
    assert!(is_confined(&decode_name(b"dir\\sub\\f.txt").unwrap()));
    assert!(!is_confined(&decode_name(b"..\\..\\f.txt").unwrap()));
}
