use vntools_common::bmp::{write_bmp_palette, write_bmp_rgb24, write_bmp_rgb565, write_bmp_bgra32};
use vntools_common::error::Error;
use vntools_common::read_u32_le;

fn header_u32(file: &[u8], at: usize) -> u32 {
    read_u32_le(&file[at..at + 4])
}

#[test]
fn palette_bmp_layout() {
    let mut palette = [[0u8; 3]; 256];
    for (i, c) in palette.iter_mut().enumerate() {
        *c = [i as u8, (i + 1) as u8, (i + 2) as u8];
    }
    let indices = [0u8, 1, 2, 3];
    let mut out = Vec::new();
    assert!(write_bmp_palette(&mut out, 2, 2, &palette, &indices).is_ok());
    assert_eq!(out.len(), 1094);
    assert_eq!(&out[0..2], b"BM");
    assert_eq!(header_u32(&out, 2), 1094);
    assert_eq!(header_u32(&out, 10), 1078);
    assert_eq!(header_u32(&out, 14), 40);
    assert_eq!(header_u32(&out, 18), 2);
    assert_eq!(header_u32(&out, 22), 2);
    assert_eq!(&out[26..30], &[1, 0, 24, 0]);
    assert_eq!(header_u32(&out, 30), 0);
    assert_eq!(header_u32(&out, 34), 16);
    assert_eq!(&out[38..54], &[0u8; 16]);
    // palette entries keep their blue, green, red order and gain a zero
    assert_eq!(&out[54..58], &[0, 1, 2, 0]);
    assert_eq!(&out[54 + 4 * 10..54 + 4 * 11], &[10, 11, 12, 0]);
    // bottom row first, each row padded from 6 to 8 bytes
    assert_eq!(&out[1078..1086], &[2, 3, 4, 3, 4, 5, 0, 0]);
    assert_eq!(&out[1086..1094], &[0, 1, 2, 1, 2, 3, 0, 0]);
}

#[test]
fn palette_bmp_needs_enough_indices() {
    let palette = [[0u8; 3]; 256];
    let mut out = vec![1u8, 2];
    let r = write_bmp_palette(&mut out, 2, 2, &palette, &[0, 0, 0]);
    assert!(matches!(r, Err(Error::NotEnoughIndices)));
    assert_eq!(out, vec![1u8, 2]);
}

#[test]
fn rgb565_bmp_layout() {
    let mut out = Vec::new();
    assert!(write_bmp_rgb565(&mut out, 1, 2, &[1, 2, 3, 4]).is_ok());
    assert_eq!(out.len(), 74);
    assert_eq!(header_u32(&out, 2), 74);
    assert_eq!(header_u32(&out, 10), 66);
    assert_eq!(&out[28..30], &[16, 0]);
    assert_eq!(header_u32(&out, 30), 3);
    assert_eq!(header_u32(&out, 34), 8);
    assert_eq!(header_u32(&out, 54), 0xF800);
    assert_eq!(header_u32(&out, 58), 0x07E0);
    assert_eq!(header_u32(&out, 62), 0x001F);
    assert_eq!(&out[66..74], &[3, 4, 0, 0, 1, 2, 0, 0]);
}

#[test]
fn rgb24_bmp_layout() {
    let mut out = Vec::new();
    write_bmp_rgb24(&mut out, 1, 1, &[9, 8, 7]);
    assert_eq!(out.len(), 58);
    assert_eq!(header_u32(&out, 2), 58);
    assert_eq!(header_u32(&out, 10), 54);
    assert_eq!(header_u32(&out, 34), 4);
    assert_eq!(&out[54..58], &[9, 8, 7, 0]);
}

#[test]
fn bgra32_bmp_layout() {
    let mut out = Vec::new();
    write_bmp_bgra32(&mut out, 1, 2, &[1, 2, 3, 4, 5, 6, 7, 8]);
    assert_eq!(out.len(), 78);
    assert_eq!(header_u32(&out, 2), 78);
    assert_eq!(header_u32(&out, 10), 70);
    assert_eq!(&out[28..30], &[32, 0]);
    assert_eq!(header_u32(&out, 66), 0xFF00_0000);
    assert_eq!(&out[70..78], &[5, 6, 7, 8, 1, 2, 3, 4]);
}

#[test]
fn empty_image_has_only_headers() {
    let mut out = Vec::new();
    write_bmp_rgb24(&mut out, 5, 0, &[]);
    assert_eq!(out.len(), 54);
    assert_eq!(header_u32(&out, 18), 5);
    assert_eq!(header_u32(&out, 34), 0);
}

#[test]
fn palette_bmp_ignores_extra_indices() {
    let mut palette = [[0u8; 3]; 256];
    palette[1] = [10, 20, 30];
    palette[9] = [90, 91, 92];
    let mut short = Vec::new();
    let mut long = Vec::new();
    write_bmp_palette(&mut short, 1, 1, &palette, &[1]).unwrap();
    write_bmp_palette(&mut long, 1, 1, &palette, &[1, 9, 9]).unwrap();
    assert_eq!(short, long);
    assert_eq!(&short[1078..1082], &[10, 20, 30, 0]);
}
