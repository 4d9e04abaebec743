use std::io::Write;

use flate2::write::ZlibEncoder;
use flate2::Compression;
use sting07::decompress::{Decompressor, BLOCK_SIZE};
use sting07::FormatError;

fn deflate(data: &[u8]) -> Vec<u8> {
    let mut e = ZlibEncoder::new(Vec::new(), Compression::default());
    e.write_all(data).unwrap();
    e.finish().unwrap()
}

fn frame(out: &mut Vec<u8>, block: &[u8]) {
    out.extend_from_slice(&(block.len() as u32).to_le_bytes());
    out.extend_from_slice(block);
}

fn pattern(len: usize, seed: u32) -> Vec<u8> {
    let mut x = seed;
    (0..len)
        .map(|_| {
            x = x.wrapping_mul(1103515245).wrapping_add(12345);
            (x >> 16) as u8
        })
        .collect()
}

fn read_all(d: &mut Decompressor, chunk: usize) -> Result<Vec<u8>, FormatError> {
    let mut out = Vec::new();
    let mut buf = vec![0u8; chunk];
    loop {
        let n = d.read(&mut buf)?;
        if n == 0 {
            return Ok(out);
        }
        out.extend_from_slice(&buf[..n]);
    }
}

#[test]
fn empty_stream_reads_nothing() {
    let mut d = Decompressor::new(Vec::new(), 0, 0);
    let mut buf = [0u8; 16];
    assert_eq!(d.read(&mut buf), Ok(0));
    assert!(d.is_finished());
}

#[test]
fn stored_block_is_copied() {
    let data = pattern(BLOCK_SIZE, 1);
    let mut raw = Vec::new();
    frame(&mut raw, &data);
    let mut d = Decompressor::new(raw, 0, BLOCK_SIZE as u32);
    assert_eq!(read_all(&mut d, 1000).unwrap(), data);
    assert!(d.raw_exhausted());
}

#[test]
fn deflated_block_is_inflated() {
    let data = vec![7u8; BLOCK_SIZE];
    let mut raw = Vec::new();
    let c = deflate(&data);
    assert!(c.len() < BLOCK_SIZE);
    frame(&mut raw, &c);
    let mut d = Decompressor::new(raw, 0, BLOCK_SIZE as u32);
    assert_eq!(read_all(&mut d, 4096).unwrap(), data);
}

#[test]
fn round_trip_stored_deflated_and_short_final() {
    let size = 2 * BLOCK_SIZE + 1000;
    let mut data = pattern(BLOCK_SIZE, 3);
    data.extend(std::iter::repeat(0x41u8).take(BLOCK_SIZE));
    data.extend(pattern(1000, 9));
    let mut last = data[2 * BLOCK_SIZE..].to_vec();
    last.resize(BLOCK_SIZE, 0);
    let mut raw = vec![0xAAu8; 5];
    frame(&mut raw, &data[..BLOCK_SIZE]);
    frame(&mut raw, &deflate(&data[BLOCK_SIZE..2 * BLOCK_SIZE]));
    frame(&mut raw, &deflate(&last));
    let mut d = Decompressor::new(raw, 5, size as u32);
    let out = read_all(&mut d, 777).unwrap();
    assert_eq!(out.len(), size);
    assert_eq!(out, data);
    assert!(d.is_finished());
    assert!(d.raw_exhausted());
}

#[test]
fn produced_length_matches_declared_size() {
    let data = vec![1u8; BLOCK_SIZE];
    let mut raw = Vec::new();
    frame(&mut raw, &deflate(&data));
    let mut d = Decompressor::new(raw, 0, 12345);
    assert_eq!(read_all(&mut d, 65536).unwrap().len(), 12345);
}

#[test]
fn oversized_block_is_rejected() {
    let mut raw = Vec::new();
    raw.extend_from_slice(&(BLOCK_SIZE as u32 + 1).to_le_bytes());
    raw.extend(vec![0u8; BLOCK_SIZE + 1]);
    let mut d = Decompressor::new(raw, 0, 10);
    let mut buf = [0u8; 4];
    assert_eq!(d.read(&mut buf), Err(FormatError::BlockTooLarge));
}

#[test]
fn truncated_block_is_rejected() {
    let mut raw = Vec::new();
    raw.extend_from_slice(&100u32.to_le_bytes());
    raw.extend(vec![0u8; 50]);
    let mut d = Decompressor::new(raw, 0, 10);
    let mut buf = [0u8; 4];
    assert_eq!(d.read(&mut buf), Err(FormatError::UnexpectedEnd));
}

#[test]
fn short_inflate_is_rejected() {
    let mut raw = Vec::new();
    frame(&mut raw, &deflate(&[5u8; 100]));
    let mut d = Decompressor::new(raw, 0, 100);
    let mut buf = [0u8; 4];
    assert_eq!(d.read(&mut buf), Err(FormatError::BadBlock));
}

#[test]
fn trailing_bytes_after_zlib_stream_are_rejected() {
    let mut c = deflate(&vec![3u8; BLOCK_SIZE]);
    c.extend_from_slice(&[1, 2, 3]);
    let mut raw = Vec::new();
    frame(&mut raw, &c);
    let mut d = Decompressor::new(raw, 0, 10);
    let mut buf = [0u8; 4];
    assert_eq!(d.read(&mut buf), Err(FormatError::BadBlock));
}

#[test]
fn garbage_block_is_rejected() {
    let mut raw = Vec::new();
    frame(&mut raw, &[1u8, 2, 3, 4, 5, 6]);
    let mut d = Decompressor::new(raw, 0, 10);
    let mut buf = [0u8; 4];
    assert_eq!(d.read(&mut buf), Err(FormatError::BadBlock));
}

#[test]
fn short_stream_in_one_stored_block() {
    let mut raw = vec![0x00u8, 0x00, 0x01, 0x00, 1, 2, 3];
    raw.extend(vec![0u8; 65533]);
    let mut d = Decompressor::new(raw, 0, 3);
    let mut buf = [0u8; 8];
    assert_eq!(d.read(&mut buf), Ok(3));
    assert_eq!(buf, [1, 2, 3, 0, 0, 0, 0, 0]);
    assert_eq!(d.read(&mut buf), Ok(0));
    assert_eq!(d.read(&mut buf), Ok(0));
    assert!(d.is_finished());
    assert!(d.raw_exhausted());
}

#[test]
fn failed_read_leaves_destination_alone() {
    let mut raw = vec![0x01u8, 0x00, 0x01, 0x00];
    raw.extend(vec![0u8; 16]);
    let mut d = Decompressor::new(raw, 0, 10);
    let mut buf = [9u8; 4];
    assert_eq!(d.read(&mut buf), Err(FormatError::BlockTooLarge));
    assert_eq!(buf, [9u8; 4]);
}

#[test]
fn a_read_stops_at_the_end_of_its_block() {
    let data = pattern(2 * BLOCK_SIZE, 5);
    let mut raw = Vec::new();
    frame(&mut raw, &data[..BLOCK_SIZE]);
    frame(&mut raw, &data[BLOCK_SIZE..]);
    let mut d = Decompressor::new(raw, 0, (2 * BLOCK_SIZE) as u32);
    let mut buf = vec![0u8; 70000];
    assert_eq!(d.read(&mut buf), Ok(BLOCK_SIZE));
    assert_eq!(&buf[..BLOCK_SIZE], &data[..BLOCK_SIZE]);
    assert!(!d.raw_exhausted());
    assert_eq!(d.read(&mut buf[..100]), Ok(100));
    assert_eq!(&buf[..100], &data[BLOCK_SIZE..BLOCK_SIZE + 100]);
    assert!(d.raw_exhausted());
    let mut empty: [u8; 0] = [];
    assert_eq!(d.read(&mut empty), Ok(0));
}
