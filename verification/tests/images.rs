use vntools_common::bmp::{write_bmp_bgra32, write_bmp_rgb565};
use vntools_common::error::Error;
use vntools_common::formats::cgd::{bgra32_dimensions_fit, cgd_to_bmp, parse_cgd};
use vntools_common::formats::ggp::{convert_ggp, xor_decrypt};
use vntools_common::formats::hiz::{convert_hiz, hiz_dimensions_fit, parse_hiz};
use vntools_common::formats::ng3::{decode_ng3_pixels, ng3_to_bmp, parse_ng3, pixel_count_fits, rgb24_dimensions_fit};
use vntools_common::read_u32_le;

fn le32(v: u32) -> [u8; 4] {
    v.to_le_bytes()
}

fn ggp_sample(png: &[u8], key: [u8; 8]) -> Vec<u8> {
    let mut a = b"GGPFAIKE".to_vec();
    a.extend([0u8; 4]);
    for i in 0..8 {
        a.push(key[i] ^ a[i]);
    }
    a.extend(le32(36));
    a.extend(le32(png.len() as u32));
    a.resize(36, 0);
    for (i, b) in png.iter().enumerate() {
        a.push(b ^ key[i % 8]);
    }
    a
}

#[test]
fn ggp_decrypts_png() {
    let png = b"\x89PNG\r\n\x1a\n-some-image-data-";
    let key = [1, 2, 3, 4, 5, 6, 7, 0xF0];
    let a = ggp_sample(png, key);
    assert_eq!(convert_ggp(&a).unwrap(), png.to_vec());
}

#[test]
fn ggp_errors() {
    let a = ggp_sample(b"abcdef", [9; 8]);
    assert!(matches!(convert_ggp(&a[..30]), Err(Error::UnexpectedEof)));
    assert!(matches!(convert_ggp(&a[..40]), Err(Error::UnexpectedEof)));
    let mut b = a.clone();
    b[0] = b'H';
    assert!(matches!(convert_ggp(&b), Err(Error::BadMagic)));
}

#[test]
fn xor_is_its_own_inverse() {
    let data: Vec<u8> = (0..37u8).collect();
    let key = [0x11, 0x22, 0x33, 0x44, 0x55, 0x66, 0x77, 0x88];
    let once = xor_decrypt(&data, &key);
    assert_ne!(once, data);
    assert_eq!(once[9], 9 ^ 0x22);
    assert_eq!(xor_decrypt(&once, &key), data);
}

fn hiz_sample() -> Vec<u8> {
    let mut a = Vec::new();
    a.extend(le32(1));
    a.extend(le32(2));
    a.extend(le32(5));
    a.extend([0x0F, 1, 2, 3, 4]);
    a
}

#[test]
fn hiz_converts_to_rgb565_bmp() {
    let img = parse_hiz(&hiz_sample()).unwrap();
    assert_eq!((img.width, img.height), (1, 2));
    assert!(hiz_dimensions_fit(img.width, img.height));
    let bmp = convert_hiz(&img).unwrap();
    let mut expected = Vec::new();
    write_bmp_rgb565(&mut expected, 1, 2, &[1, 2, 3, 4]).unwrap();
    assert_eq!(bmp, expected);
    assert_eq!(&bmp[66..], &[3, 4, 0, 0, 1, 2, 0, 0]);
}

#[test]
fn hiz_errors() {
    let a = hiz_sample();
    assert!(matches!(parse_hiz(&a[..8]), Err(Error::UnexpectedEof)));
    assert!(matches!(parse_hiz(&a[..16]), Err(Error::UnexpectedEof)));
    let mut b = a.clone();
    b[8] = 2;
    b.truncate(14);
    let img = parse_hiz(&b).unwrap();
    match convert_hiz(&img) {
        Err(Error::Decompress(m)) => assert_eq!(m, "Output buffer not fully filled"),
        _ => panic!("expected a decompression error"),
    }
    assert!(!hiz_dimensions_fit(65536, 65536));
    assert!(!hiz_dimensions_fit(0x8000_0000, 0));
    assert!(hiz_dimensions_fit(640, 480));
}

#[test]
fn cgd_converts_to_bgra32_bmp() {
    let mut a = b"cgd\0".to_vec();
    a.resize(12, 0);
    a.extend(le32(1));
    a.extend(le32(2));
    a.extend([1, 2, 3, 4, 5, 6, 7, 8]);
    let (w, h) = parse_cgd(&a).unwrap();
    assert_eq!((w, h), (1, 2));
    assert!(bgra32_dimensions_fit(w, h, a.len() - 20));
    let bmp = cgd_to_bmp(&a, w, h);
    let mut expected = Vec::new();
    write_bmp_bgra32(&mut expected, 1, 2, &[1, 2, 3, 4, 5, 6, 7, 8]);
    assert_eq!(bmp, expected);
    assert_eq!(read_u32_le(&bmp[2..6]), 78);
    assert!(!bgra32_dimensions_fit(1, 3, 8));
}

#[test]
fn cgd_errors() {
    assert!(matches!(parse_cgd(b"cgd\0"), Err(Error::UnexpectedEof)));
    assert!(matches!(parse_cgd(&[0u8; 20]), Err(Error::BadMagic)));
}

fn ng3_sample(codes: &[u8]) -> Vec<u8> {
    let mut a = b"NG3\0".to_vec();
    a.extend(le32(2));
    a.extend(le32(2));
    let mut palette = vec![0u8; 768];
    palette[15..18].copy_from_slice(&[10, 20, 30]);
    palette[21..24].copy_from_slice(&[40, 50, 60]);
    a.extend(palette);
    a.extend(codes);
    a
}

#[test]
fn ng3_run_length_codes() {
    let a = ng3_sample(&[1, 1, 5, 2, 2, 7, 2, 0, 1, 2, 3]);
    let img = parse_ng3(&a).unwrap();
    assert_eq!((img.width, img.height), (2, 2));
    let rgb = decode_ng3_pixels(&a, &img).unwrap();
    assert_eq!(rgb, vec![10, 20, 30, 40, 50, 60, 40, 50, 60, 3, 2, 1]);
    assert!(rgb24_dimensions_fit(2, 2));
    let bmp = ng3_to_bmp(2, 2, &rgb);
    assert_eq!(bmp.len(), 54 + 16);
    assert_eq!(read_u32_le(&bmp[2..6]), 70);
    assert_eq!(&bmp[54..62], &[40, 50, 60, 3, 2, 1, 0, 0]);
    assert_eq!(&bmp[62..70], &[10, 20, 30, 40, 50, 60, 0, 0]);
}

#[test]
fn ng3_repeat_stops_at_image_end() {
    let a = ng3_sample(&[2, 2, 7, 9]);
    let img = parse_ng3(&a).unwrap();
    let rgb = decode_ng3_pixels(&a, &img).unwrap();
    assert_eq!(rgb.len(), 12);
    assert_eq!(&rgb[9..12], &[40, 50, 60]);
}

#[test]
fn ng3_errors() {
    let a = ng3_sample(&[1, 1, 5, 2, 2]);
    let img = parse_ng3(&a).unwrap();
    assert!(matches!(decode_ng3_pixels(&a, &img), Err(Error::UnexpectedEof)));
    assert!(matches!(parse_ng3(&a[..100]), Err(Error::UnexpectedEof)));
    assert!(matches!(parse_ng3(b"NG2\0\0\0\0\0\0\0\0\0"), Err(Error::BadMagic)));
    assert!(!rgb24_dimensions_fit(0x6000_0000, 1));
    assert!(pixel_count_fits(65535, 65537));
    assert!(!pixel_count_fits(65536, 65536));
}
