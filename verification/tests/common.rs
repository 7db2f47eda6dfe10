use vntools_common::error::Error;
use vntools_common::{check_magic, copy_data, read_u16_le, read_u32_le};

#[test]
fn reads_little_endian_u32() {
    assert_eq!(read_u32_le(&[0x01, 0x02, 0x03, 0x04]), 0x0403_0201);
    assert_eq!(read_u32_le(&[0xFF, 0xFF, 0xFF, 0xFF, 0x00]), u32::MAX);
}

#[test]
fn reads_little_endian_u16() {
    assert_eq!(read_u16_le(&[0x34, 0x12]), 0x1234);
    assert_eq!(read_u16_le(&[0x00, 0x80, 0x01]), 0x8000);
}

#[test]
fn magic_matches_prefix_only() {
    assert!(check_magic(b"ARCX\x02\x00", b"ARCX"));
    assert!(!check_magic(b"ARCY\x02\x00", b"ARCX"));
    assert!(!check_magic(b"ARC", b"ARCX"));
    assert!(check_magic(b"", b""));
}

#[test]
fn copy_data_copies_requested_bytes() {
    let source: Vec<u8> = (0..9000u32).map(|i| (i % 251) as u8).collect();
    let mut out = vec![7u8];
    assert!(copy_data(&source, &mut out, 8500).is_ok());
    assert_eq!(out.len(), 8501);
    assert_eq!(out[0], 7);
    assert_eq!(&out[1..], &source[..8500]);
}

#[test]
fn copy_data_short_source_keeps_whole_blocks() {
    let source: Vec<u8> = (0..10000u32).map(|i| (i % 13) as u8).collect();
    let mut out = Vec::new();
    let r = copy_data(&source, &mut out, 20000);
    assert!(matches!(r, Err(Error::UnexpectedEof)));
    assert_eq!(out.len(), 8192);
    assert_eq!(&out[..], &source[..8192]);
}

#[test]
fn copy_data_short_source_under_one_block_writes_nothing() {
    let source = vec![1u8, 2, 3];
    let mut out = Vec::new();
    assert!(matches!(copy_data(&source, &mut out, 4), Err(Error::UnexpectedEof)));
    assert!(out.is_empty());
    assert!(copy_data(&source, &mut out, 0).is_ok());
    assert!(out.is_empty());
}
