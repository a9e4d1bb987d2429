use std::io::Write;

use flate2::write::ZlibEncoder;
use flate2::Compression;
use fo2dat::{is_zlib_compressed, materialize, DatError, Materialized};

fn zlib(data: &[u8]) -> Vec<u8> {
    let mut enc = ZlibEncoder::new(Vec::new(), Compression::best());
    enc.write_all(data).unwrap();
    enc.finish().unwrap()
}

#[test]
fn magic_bytes_decide_compression() {
    assert!(is_zlib_compressed(&[0x78, 0xDA, 0x01]));
    assert!(is_zlib_compressed(&[0x78, 0xDA]));
    assert!(!is_zlib_compressed(&[0x78, 0x9C, 0x01]));
    assert!(!is_zlib_compressed(&[0xDA, 0x78, 0x01]));
    assert!(!is_zlib_compressed(&[0x78]));
    assert!(!is_zlib_compressed(&[]));
}

#[test]
fn best_compression_stream_carries_the_magic() {
    let packed = zlib(b"hello hello hello hello");
    assert_eq!(&packed[..2], &[0x78, 0xDA]);
}

#[test]
fn payload_with_magic_is_inflated() {
    let original: Vec<u8> = b"fallout ".iter().cycle().take(400).cloned().collect();
    let packed = zlib(&original);
    assert!(packed.len() < original.len());
    match materialize(&packed).unwrap() {
        Materialized::Inflated(v) => assert_eq!(v, original),
        Materialized::Verbatim(_) => panic!("a zlib payload was not inflated"),
    }
    assert_eq!(materialize(&packed).unwrap().as_bytes(), &original[..]);
}

#[test]
fn payload_without_magic_is_written_verbatim() {
    let raw = b"plain bytes, declared compressed or not";
    match materialize(raw).unwrap() {
        Materialized::Verbatim(b) => assert_eq!(b, &raw[..]),
        Materialized::Inflated(_) => panic!("a plain payload was inflated"),
    }
    assert_eq!(materialize(&[0x78]).unwrap().as_bytes(), &[0x78]);
    assert_eq!(materialize(&[]).unwrap().as_bytes().len(), 0);
}

#[test]
fn corrupt_zlib_stream_fails_to_inflate() {
    let bad = [0x78, 0xDA, 0xFF, 0xFF, 0xFF, 0xFF, 0x00, 0x13];
    assert!(matches!(materialize(&bad), Err(DatError::DecompressionFailed)));
    assert!(matches!(materialize(&[0x78, 0xDA]), Err(DatError::DecompressionFailed)));
}

#[test]
fn inflation_outcome_becomes_content_or_failure() {
    match fo2dat::inflated_content(Some(vec![1, 2, 3])) {
        Ok(Materialized::Inflated(v)) => assert_eq!(v, vec![1, 2, 3]),
        _ => panic!("inflated bytes were not kept"),
    }
    assert!(matches!(fo2dat::inflated_content(None), Err(DatError::DecompressionFailed)));
}
