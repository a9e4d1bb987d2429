use std::collections::HashMap;
use std::io::Write;

use flate2::write::ZlibEncoder;
use flate2::Compression;
use fo2dat::{
    check_output_dir, data_entries, extract_step, select_action, ActionError, CliAction, DatError,
    ExtractAction, PoolAction, Schedule,
};

fn record(name: &[u8], packed: u32, offset: u32) -> Vec<u8> {
    let mut r = Vec::new();
    r.extend_from_slice(&(name.len() as u32).to_le_bytes());
    r.extend_from_slice(name);
    r.push(0);
    r.extend_from_slice(&packed.to_le_bytes());
    r.extend_from_slice(&packed.to_le_bytes());
    r.extend_from_slice(&offset.to_le_bytes());
    r
}

fn archive(data: &[u8], tree: &[u8]) -> Vec<u8> {
    let mut a = Vec::new();
    a.extend_from_slice(data);
    a.extend_from_slice(&2u32.to_le_bytes());
    a.extend_from_slice(tree);
    a.extend_from_slice(&(tree.len() as u32 + 4).to_le_bytes());
    let total = a.len() as u32 + 4;
    a.extend_from_slice(&total.to_le_bytes());
    a
}

fn run(dat: &[u8], files: &mut HashMap<Vec<String>, Vec<u8>>) -> Result<usize, DatError> {
    let mut written = 0;
    for entry in data_entries(dat)? {
        let exists = files.contains_key(&entry.path);
        match extract_step(&entry, exists)? {
            ExtractAction::Skip => {}
            ExtractAction::Write(content) => {
                files.insert(entry.path.clone(), content.as_bytes().to_vec());
                written += 1;
            }
        }
    }
    Ok(written)
}

#[test]
fn output_location_must_be_an_existing_directory() {
    assert!(matches!(check_output_dir(false, false), Err(DatError::NotFound)));
    assert!(matches!(check_output_dir(true, false), Err(DatError::NotADirectory)));
    assert!(check_output_dir(true, true).is_ok());
}

#[test]
fn existing_output_is_skipped() {
    let dat = archive(b"abcdef", &record(b"a.txt", 3, 0));
    let entries = data_entries(&dat).unwrap();
    assert!(matches!(extract_step(&entries[0], true), Ok(ExtractAction::Skip)));
    match extract_step(&entries[0], false) {
        Ok(ExtractAction::Write(c)) => assert_eq!(c.as_bytes(), b"abc"),
        _ => panic!("expected a write"),
    }
}

#[test]
fn extracting_twice_is_idempotent() {
    let mut enc = ZlibEncoder::new(Vec::new(), Compression::best());
    enc.write_all(b"inflated content, inflated content").unwrap();
    let packed = enc.finish().unwrap();
    let mut data = b"raw!".to_vec();
    data.extend_from_slice(&packed);
    let mut tree = record(b"dir\\raw.txt", 4, 0);
    tree.extend(record(b"dir\\z.txt", packed.len() as u32, 4));
    let dat = archive(&data, &tree);

    let mut files = HashMap::new();
    assert_eq!(run(&dat, &mut files).unwrap(), 2);
    let first = files.clone();
    assert_eq!(files[&vec!["dir".to_string(), "raw.txt".to_string()]], b"raw!");
    assert_eq!(files[&vec!["dir".to_string(), "z.txt".to_string()]], b"inflated content, inflated content");
    assert_eq!(run(&dat, &mut files).unwrap(), 0);
    assert_eq!(files, first);
}

#[test]
fn corrupt_stream_fails_extraction_of_that_entry() {
    let data = [0x78, 0xDA, 0xFF, 0xFF, 0xFF, 0xFF];
    let dat = archive(&data, &record(b"bad.bin", 6, 0));
    let mut files = HashMap::new();
    assert!(matches!(run(&dat, &mut files), Err(DatError::DecompressionFailed)));
    assert!(files.is_empty());
}

#[test]
fn exactly_one_action_must_be_requested() {
    assert_eq!(select_action(true, false), Ok(CliAction::Extract));
    assert_eq!(select_action(false, true), Ok(CliAction::List));
    assert_eq!(select_action(true, true), Err(ActionError::Both));
    assert_eq!(select_action(false, false), Err(ActionError::Neither));
}

#[test]
fn pool_runs_every_unit_within_its_bound() {
    let mut s = Schedule::new(3, 2);
    assert_eq!(s.next_action(), PoolAction::Start(0));
    assert_eq!(s.next_action(), PoolAction::Start(1));
    assert_eq!(s.next_action(), PoolAction::Wait);
    s.finished(1, true);
    assert_eq!(s.next_action(), PoolAction::Start(2));
    assert_eq!(s.next_action(), PoolAction::Wait);
    s.finished(0, true);
    s.finished(2, true);
    assert_eq!(s.next_action(), PoolAction::Done(None));
}

#[test]
fn pool_starts_nothing_after_a_failure() {
    let mut s = Schedule::new(5, 2);
    assert_eq!(s.next_action(), PoolAction::Start(0));
    assert_eq!(s.next_action(), PoolAction::Start(1));
    s.finished(1, false);
    assert_eq!(s.next_action(), PoolAction::Wait);
    s.finished(0, false);
    assert_eq!(s.next_action(), PoolAction::Done(Some(1)));
}

#[test]
fn pool_of_zero_workers_runs_one_at_a_time() {
    let mut s = Schedule::new(2, 0);
    assert_eq!(s.next_action(), PoolAction::Start(0));
    assert_eq!(s.next_action(), PoolAction::Wait);
    s.finished(0, true);
    assert_eq!(s.next_action(), PoolAction::Start(1));
    s.finished(1, true);
    assert_eq!(s.next_action(), PoolAction::Done(None));
    let mut empty = Schedule::new(0, 4);
    assert_eq!(empty.next_action(), PoolAction::Done(None));
}
