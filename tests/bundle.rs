use std::io::Write;

use flate2::write::ZlibEncoder;
use flate2::Compression;
use sting07::bundle::{BundleReader, FileRecord};
use sting07::decompress::BLOCK_SIZE;
use sting07::names::{file_name, hash_name, HashDictionary};
use sting07::FormatError;

fn deflate(data: &[u8]) -> Vec<u8> {
    let mut e = ZlibEncoder::new(Vec::new(), Compression::default());
    e.write_all(data).unwrap();
    e.finish().unwrap()
}

fn put32(v: &mut Vec<u8>, x: u32) {
    v.extend_from_slice(&x.to_le_bytes());
}

fn put64(v: &mut Vec<u8>, x: u64) {
    v.extend_from_slice(&x.to_le_bytes());
}

/// A container of the given files, with `index_count` index entries and one auxiliary record.
fn container(files: &[(u64, u64, &[u8])], index_count: u32) -> Vec<u8> {
    let mut c = Vec::new();
    put32(&mut c, 1);
    put32(&mut c, index_count);
    put32(&mut c, 1);
    for (e, n, _) in files.iter().take(index_count as usize) {
        put64(&mut c, *e);
        put64(&mut c, *n);
    }
    for x in [1u64, 2, 3, 4] {
        put64(&mut c, x);
    }
    for (e, n, body) in files {
        put64(&mut c, *e);
        put64(&mut c, *n);
        put32(&mut c, 1);
        put32(&mut c, 0);
        put32(&mut c, body.len() as u32);
        put32(&mut c, 0);
        c.extend_from_slice(body);
    }
    c
}

fn bundle(stream: &[u8]) -> Vec<u8> {
    let mut raw = Vec::new();
    put32(&mut raw, 0xF000_0007);
    put32(&mut raw, stream.len() as u32);
    put32(&mut raw, 0);
    for chunk in stream.chunks(BLOCK_SIZE) {
        let mut block = chunk.to_vec();
        block.resize(BLOCK_SIZE, 0);
        let c = deflate(&block);
        put32(&mut raw, c.len() as u32);
        raw.extend_from_slice(&c);
    }
    raw
}

fn all_files(r: &mut BundleReader) -> Result<Vec<FileRecord>, FormatError> {
    let mut out = Vec::new();
    while let Some(f) = r.next_file()? {
        out.push(f);
    }
    Ok(out)
}

#[test]
fn reads_every_file() {
    let lvl = hash_name("level");
    let unit = hash_name("unit");
    let big = vec![9u8; 70000];
    let files: [(u64, u64, &[u8]); 2] = [(lvl, 0xABCD, b"hello"), (unit, lvl, &big)];
    let raw = bundle(&container(&files, 2));
    let mut r = BundleReader::open(raw).unwrap();
    let got = all_files(&mut r).unwrap();
    assert_eq!(got.len(), 2);
    assert_eq!(got[0].ext_hash, lvl);
    assert_eq!(got[0].name_hash, 0xABCD);
    assert_eq!(got[0].body, b"hello".to_vec());
    assert_eq!(got[1].body, big);
    let dict = HashDictionary::new();
    assert_eq!(file_name(&dict, got[0].ext_hash, got[0].name_hash), b"0000ABCD.level".to_vec());
    assert_eq!(file_name(&dict, got[1].ext_hash, got[1].name_hash), b"level.unit".to_vec());
}

#[test]
fn fewer_declared_files_than_records_is_trailing_data() {
    let files: [(u64, u64, &[u8]); 2] = [(1, 2, b"ab"), (3, 4, b"cd")];
    let raw = bundle(&container(&files, 1));
    let mut r = BundleReader::open(raw).unwrap();
    let first = r.next_file().unwrap().unwrap();
    assert_eq!(first.body, b"ab".to_vec());
    assert_eq!(r.next_file().err(), Some(FormatError::TrailingData));
}

#[test]
fn leftover_raw_bytes_are_trailing_data() {
    let files: [(u64, u64, &[u8]); 1] = [(1, 2, b"ab")];
    let mut raw = bundle(&container(&files, 1));
    raw.push(0);
    let mut r = BundleReader::open(raw).unwrap();
    assert!(r.next_file().unwrap().is_some());
    assert_eq!(r.next_file().err(), Some(FormatError::TrailingData));
}

#[test]
fn bad_outer_magic_is_rejected() {
    let files: [(u64, u64, &[u8]); 1] = [(1, 2, b"ab")];
    let mut raw = bundle(&container(&files, 1));
    raw[0] = 6;
    assert_eq!(BundleReader::open(raw).err(), Some(FormatError::BadMagic));
}

#[test]
fn nonzero_outer_reserved_is_rejected() {
    let files: [(u64, u64, &[u8]); 1] = [(1, 2, b"ab")];
    let mut raw = bundle(&container(&files, 1));
    raw[8] = 1;
    assert_eq!(BundleReader::open(raw).err(), Some(FormatError::BadReserved));
}

#[test]
fn short_file_is_rejected() {
    assert_eq!(BundleReader::open(vec![7, 0, 0]).err(), Some(FormatError::UnexpectedEnd));
}

#[test]
fn bad_container_magic_is_rejected() {
    let files: [(u64, u64, &[u8]); 1] = [(1, 2, b"ab")];
    let mut c = container(&files, 1);
    c[0] = 2;
    assert_eq!(BundleReader::open(bundle(&c)).err(), Some(FormatError::BadMagic));
}

#[test]
fn bad_record_fields_are_rejected() {
    let files: [(u64, u64, &[u8]); 1] = [(1, 2, b"ab")];
    let c = container(&files, 1);
    let rec = 12 + 16 + 32;
    let mut m = c.clone();
    m[rec + 16] = 5;
    let mut r = BundleReader::open(bundle(&m)).unwrap();
    assert_eq!(r.next_file().err(), Some(FormatError::BadMagic));
    let mut z = c.clone();
    z[rec + 28] = 1;
    let mut r = BundleReader::open(bundle(&z)).unwrap();
    assert_eq!(r.next_file().err(), Some(FormatError::BadReserved));
}
