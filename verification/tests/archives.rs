use std::io::Write;
use vntools_common::error::Error;
use vntools_common::formats::arcx::parse_arcx_index;
use vntools_common::formats::mif::parse_mif_index;
use vntools_common::formats::nekopunch::parse_pack_index;
use vntools_common::formats::opk::{opk_lengths_defined, opk_members, parse_opk_offsets};
use vntools_common::formats::pak::{extract_pak_entry, pak_lengths_defined, pak_with_lengths, parse_pak_index};
use vntools_common::formats::sakura::{extract_sakura_entry, is_compressed_member, parse_sakura_count, parse_sakura_record};
use vntools_common::formats::sm2mpx::{parse_sm2mpx_count, parse_sm2mpx_index};
use vntools_common::formats::{extract_packed_entry, extract_plain_entry};

fn field(bytes: &[u8], len: usize) -> Vec<u8> {
    let mut v = bytes.to_vec();
    v.resize(len, 0);
    v
}

fn le(v: u32) -> [u8; 4] {
    v.to_le_bytes()
}

fn arcx_record(name: &[u8], offset: u32, size: u32, unpacked: u32) -> Vec<u8> {
    let mut r = field(name, 100);
    r.extend(le(offset));
    r.extend(le(size));
    r.extend(le(unpacked));
    r.resize(128, 0);
    r
}

fn arcx_sample() -> Vec<u8> {
    let mut a = b"ARCX".to_vec();
    a.extend(le(2));
    a.resize(16, 0);
    let data_start = 16 + 2 * 128;
    a.extend(arcx_record(b"a.txt", data_start, 5, 5));
    a.extend(arcx_record(b"dir/b.bin", data_start + 5, 9, 8));
    a.extend(b"hello");
    a.extend([0xFF, b'a', b'b', b'c', b'd', b'e', b'f', b'g', b'h']);
    a
}

#[test]
fn arcx_index_and_members() {
    let a = arcx_sample();
    let entries = parse_arcx_index(&a).unwrap();
    assert_eq!(entries.len(), 2);
    assert_eq!(entries[0].filename, "a.txt");
    assert!(!entries[0].is_packed);
    assert_eq!(entries[1].filename, "dir/b.bin");
    assert!(entries[1].is_packed);
    assert_eq!(entries[1].unpacked_size, 8);
    let mut out = Vec::new();
    assert!(extract_packed_entry(&a, &entries[0], &mut out).is_ok());
    assert_eq!(out, b"hello");
    let mut out2 = Vec::new();
    assert!(extract_packed_entry(&a, &entries[1], &mut out2).is_ok());
    assert_eq!(out2, b"abcdefgh");
}

#[test]
fn arcx_errors() {
    let mut a = arcx_sample();
    assert!(matches!(parse_arcx_index(&a[..10]), Err(Error::UnexpectedEof)));
    assert!(matches!(parse_arcx_index(&a[..16 + 128 + 5]), Err(Error::UnexpectedEof)));
    a[16] = 0x82;
    a[17] = 0;
    assert!(matches!(parse_arcx_index(&a), Err(Error::BadName)));
    a[3] = b'Y';
    assert!(matches!(parse_arcx_index(&a), Err(Error::BadMagic)));
}

#[test]
fn packed_member_errors() {
    let mut a = arcx_sample();
    let data_start = 16 + 2 * 128;
    // the compressed member now holds a back-reference cut after one byte
    a.truncate(data_start + 5);
    a.extend([0x00, 0x05]);
    let entries = parse_arcx_index(&a).unwrap();
    let mut e = entries;
    e[1].size = 2;
    let mut out = vec![1u8];
    match extract_packed_entry(&a, &e[1], &mut out) {
        Err(Error::Decompress(m)) => assert_eq!(m, "Unexpected end of input"),
        _ => panic!("expected a decompression error"),
    }
    assert_eq!(out, vec![1u8]);
    e[1].size = 50;
    assert!(matches!(extract_packed_entry(&a, &e[1], &mut out), Err(Error::UnexpectedEof)));
    e[0].size = 60;
    let mut raw = Vec::new();
    assert!(matches!(extract_packed_entry(&a, &e[0], &mut raw), Err(Error::UnexpectedEof)));
    assert!(raw.is_empty());
}

fn pack_sample(name32: bool, flag: u32) -> Vec<u8> {
    let es = if name32 { 44 } else { 76 };
    let nl = es - 12;
    let mut a = b"PACK".to_vec();
    a.extend(le(2));
    a.extend(le(flag));
    a.extend(le(0));
    let data_start = (16 + 2 * es) as u32;
    let mut r1 = field(b"one.dat", nl);
    r1.extend(le(3));
    r1.extend(le(3));
    r1.extend(le(data_start));
    let mut r2 = field(b"two.dat", nl);
    r2.extend(le(2));
    r2.extend(le(3));
    r2.extend(le(data_start + 3));
    a.extend(r1);
    a.extend(r2);
    a.extend(b"xyz");
    a.extend([0x03, b'p', b'q']);
    a
}

#[test]
fn pack_archive_with_short_names() {
    let a = pack_sample(true, 1);
    let entries = parse_pack_index(&a, true).unwrap();
    assert_eq!(entries[0].filename, "one.dat");
    assert!(!entries[0].is_packed);
    assert!(entries[1].is_packed);
    let mut out = Vec::new();
    extract_packed_entry(&a, &entries[0], &mut out).unwrap();
    assert_eq!(out, b"xyz");
    let mut out2 = Vec::new();
    extract_packed_entry(&a, &entries[1], &mut out2).unwrap();
    assert_eq!(out2, b"pq");
}

#[test]
fn pack_archive_with_long_names_and_no_compression() {
    let a = pack_sample(false, 0);
    let entries = parse_pack_index(&a, false).unwrap();
    assert_eq!(entries[1].filename, "two.dat");
    assert!(!entries[1].is_packed);
    assert_eq!(entries[1].size, 3);
    assert!(matches!(parse_pack_index(b"PAC", true), Err(Error::UnexpectedEof)));
    assert!(matches!(parse_pack_index(b"KCAP\x00\x00\x00\x00\x00\x00\x00\x00\x00\x00\x00\x00", true), Err(Error::BadMagic)));
}

#[test]
fn mif_names_are_trimmed_and_lossy() {
    let mut a = b"MIF\0".to_vec();
    a.extend(le(2));
    let mut r1 = field(b"se01.wav", 16);
    r1.extend(le(56));
    r1.extend(le(2));
    let mut r2 = field(&[0xFF, b'x'], 16);
    r2.extend(le(58));
    r2.extend(le(1));
    a.extend(r1);
    a.extend(r2);
    a.extend(b"ABC");
    let entries = parse_mif_index(&a).unwrap();
    assert_eq!(entries[0].filename, "se01.wav");
    assert_eq!(entries[1].filename, "\u{FFFD}x");
    let mut out = Vec::new();
    extract_plain_entry(&a, &entries[0], &mut out).unwrap();
    extract_plain_entry(&a, &entries[1], &mut out).unwrap();
    assert_eq!(out, b"ABC");
    assert!(matches!(parse_mif_index(b"MIG\0\0\0\0\0"), Err(Error::BadMagic)));
}

#[test]
fn sm2mpx_index() {
    let mut a = b"SM2MPX10".to_vec();
    a.extend(le(1));
    a.extend(le(20));
    a.resize(32, 0);
    let mut r = field(b"SCRIPT.SRC", 12);
    r.extend(le(52));
    r.extend(le(4));
    a.extend(r);
    a.extend(b"text");
    assert_eq!(parse_sm2mpx_count(&a).unwrap(), 1);
    let entries = parse_sm2mpx_index(&a).unwrap();
    assert_eq!(entries[0].filename, "SCRIPT.SRC");
    let mut out = Vec::new();
    extract_plain_entry(&a, &entries[0], &mut out).unwrap();
    assert_eq!(out, b"text");
    assert!(matches!(parse_sm2mpx_index(&a[..40]), Err(Error::UnexpectedEof)));
}

#[test]
fn opk_members_run_to_next_offset() {
    let mut a = b"VoiceOggPackFile".to_vec();
    a.extend(le(2));
    a.extend(le(28));
    a.extend(le(31));
    a.extend(b"abcde");
    a.extend(field(b"v1", 8));
    a.extend(field(b"v2", 8));
    assert_eq!(a.len(), 49);
    let (count, offsets) = parse_opk_offsets(&a).unwrap();
    assert_eq!(count, 2);
    assert_eq!(offsets, vec![28, 31, 49]);
    assert!(opk_lengths_defined(count, &offsets));
    let members = opk_members(&a, count, &offsets);
    assert_eq!(members[0].filename, "v1.ogg");
    assert_eq!(members[0].size, 3);
    assert_eq!(members[1].filename, "v2.ogg");
    assert_eq!(members[1].size, 18);
    assert!(!opk_lengths_defined(2, &vec![31, 28, 49]));
}

#[test]
fn opk_errors() {
    let mut a = b"VoiceOggPackFile".to_vec();
    a.extend(le(10));
    a.extend(le(0));
    assert!(matches!(parse_opk_offsets(&a), Err(Error::InvalidSeek)));
    let mut b = b"VoiceOggPackFile".to_vec();
    b.extend(le(0));
    assert!(matches!(parse_opk_offsets(&b), Err(Error::UnexpectedEof)));
    b.extend(le(7));
    let (count, offsets) = parse_opk_offsets(&b).unwrap();
    assert_eq!(count, 0);
    assert_eq!(offsets, vec![7, 24]);
}

#[test]
fn pak_stored_and_inflated_members() {
    let mut z = flate2::write::ZlibEncoder::new(Vec::new(), flate2::Compression::default());
    z.write_all(b"zzzzzzzzzzzz").unwrap();
    let packed = z.finish().unwrap();
    let mut a = b"Graphic PackData".to_vec();
    a.extend(le(2));
    let data_start = 20 + 2 * 20;
    let mut r1 = field(b"a.bmp", 12);
    r1.extend(le(data_start));
    r1.extend(le(5));
    let mut r2 = field(b"b.bmp", 12);
    r2.extend(le(data_start + 5));
    r2.extend(le(12));
    a.extend(r1);
    a.extend(r2);
    a.extend(b"hello");
    a.extend(&packed);
    let entries = parse_pak_index(&a).unwrap();
    assert_eq!(entries[1].compressed_size, 0);
    assert!(pak_lengths_defined(&entries, a.len() as u64));
    let entries = pak_with_lengths(entries, a.len() as u64);
    assert_eq!(entries[0].compressed_size, 5);
    assert_eq!(entries[1].compressed_size, packed.len() as u64);
    assert_eq!(extract_pak_entry(&a, &entries[0]).unwrap(), b"hello");
    assert_eq!(extract_pak_entry(&a, &entries[1]).unwrap(), b"zzzzzzzzzzzz");
}

#[test]
fn pak_errors() {
    let mut a = b"Graphic PackData".to_vec();
    a.extend(le(1));
    let mut r = field(b"bad", 12);
    r.extend(le(40));
    r.extend(le(100));
    a.extend(r);
    a.extend([1u8, 2, 3, 4]);
    let entries = parse_pak_index(&a).unwrap();
    assert!(!pak_lengths_defined(&entries, 39));
    let entries = pak_with_lengths(entries, a.len() as u64);
    assert_eq!(entries[0].compressed_size, 4);
    assert!(matches!(extract_pak_entry(&a, &entries[0]), Err(Error::Inflate)));
    assert!(matches!(extract_pak_entry(&a[..42], &entries[0]), Err(Error::UnexpectedEof)));
    assert!(matches!(parse_pak_index(b"Graphic PackDat!\x00\x00\x00\x00"), Err(Error::BadMagic)));
}

fn sakura_record(name: &[u8], size: u32, offset: u32) -> Vec<u8> {
    let mut r = field(name, 256);
    r.extend(le(size));
    r.extend(le(offset));
    r.resize(272, 0);
    r
}

fn sakura_sample() -> Vec<u8> {
    let mut a = le(3).to_vec();
    a.resize(36, 0xAA);
    let data_start = 36 + 3 * 272;
    a.extend(sakura_record(b"bg01.pr3", 8, data_start));
    a.extend(sakura_record(b"voice.ogg", 10, data_start + 45));
    a.extend(sakura_record(b"x.pr3.pr3", 9, data_start));
    a.extend(b"ACMPRS03");
    a.resize(data_start as usize + 36, 0);
    a.extend([0xFF, b'a', b'b', b'c', b'd', b'e', b'f', b'g', b'h']);
    a.extend(b"plain data");
    a
}

#[test]
fn sakura_members() {
    let a = sakura_sample();
    assert_eq!(parse_sakura_count(&a).unwrap(), 3);
    let e0 = parse_sakura_record(&a, 0).unwrap();
    assert_eq!(e0.filename, "bg01");
    let mut out = Vec::new();
    assert!(matches!(is_compressed_member(&a, &e0), Ok(true)));
    assert!(extract_sakura_entry(&a, &e0, true, &mut out).is_ok());
    assert_eq!(out, b"abcdefgh");
    let e1 = parse_sakura_record(&a, 1).unwrap();
    assert_eq!(e1.filename, "voice.ogg");
    let mut out1 = Vec::new();
    assert!(matches!(is_compressed_member(&a, &e1), Ok(false)));
    assert!(extract_sakura_entry(&a, &e1, false, &mut out1).is_ok());
    assert_eq!(out1, b"plain data");
    let e2 = parse_sakura_record(&a, 2).unwrap();
    assert_eq!(e2.filename, "x");
    // cut the data right after the compressed stream: it ends before 9 bytes came out
    let cut = &a[..36 + 3 * 272 + 36 + 9];
    let mut out2 = Vec::new();
    assert!(matches!(is_compressed_member(cut, &e2), Ok(true)));
    assert!(matches!(extract_sakura_entry(cut, &e2, true, &mut out2), Err(Error::UnexpectedEof)));
    assert_eq!(out2, b"abcdefgh");
}

#[test]
fn sakura_errors() {
    let a = sakura_sample();
    assert!(matches!(parse_sakura_count(&a[..3]), Err(Error::UnexpectedEof)));
    assert!(matches!(parse_sakura_record(&a, 3), Err(Error::UnexpectedEof)));
    let mut b = a.clone();
    b[36] = 0xA0;
    assert!(matches!(parse_sakura_record(&b, 0), Err(Error::BadName)));
    let e1 = parse_sakura_record(&a, 1).unwrap();
    assert!(matches!(is_compressed_member(&a[..a.len() - 3], &e1), Err(Error::UnexpectedEof)));
    let mut out = Vec::new();
    let r = extract_sakura_entry(&a[..a.len() - 3], &e1, false, &mut out);
    assert!(matches!(r, Err(Error::UnexpectedEof)));
    assert!(out.is_empty());
}
