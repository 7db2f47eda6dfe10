//! Writing uncompressed BMP images.
//!
//! Every writer appends a whole BMP file to a byte vector: the 14-byte file header, the
//! 40-byte BITMAPINFOHEADER, any palette or colour masks, then the pixel rows from the bottom
//! row up, each padded with zeros to a multiple of four bytes.

use crate::error::Error;
use crate::{append_range, le_bytes_u32, le_u32};
use vstd::prelude::*;
use vstd::seq_lib::lemma_concat_associative;

verus! {

/// `n` rounded up to a multiple of four.
pub open spec fn pad4(n: int) -> int {
    (n + 3) / 4 * 4
}

/// `n` zero bytes.
pub open spec fn zeros(n: int) -> Seq<u8> {
    Seq::new(n as nat, |i: int| 0u8)
}

/// `v` reduced to 32 bits, as a cast to `u32` does.
pub open spec fn wrap32(v: int) -> u32 {
    (v % 0x1_0000_0000) as u32
}

/// The BMP file header followed by a BITMAPINFOHEADER with one plane, no resolution and no
/// colour counts.
pub open spec fn bmp_headers(
    file_size: u32,
    pixel_offset: u32,
    width: u32,
    height: u32,
    bit_count: u8,
    compression: u32,
    data_size: u32,
) -> Seq<u8> {
    seq![0x42u8, 0x4Du8] + le_bytes_u32(file_size) + le_bytes_u32(0) + le_bytes_u32(pixel_offset)
        + le_bytes_u32(40) + le_bytes_u32(width) + le_bytes_u32(height) + seq![1u8, 0u8, bit_count, 0u8]
        + le_bytes_u32(compression) + le_bytes_u32(data_size) + zeros(16)
}

/// Row `y` of an image kept `row_bytes` bytes per row in `src`, padded with zeros to `stride` bytes.
pub open spec fn padded_row(src: Seq<u8>, row_bytes: int, stride: int, y: int) -> Seq<u8> {
    src.subrange(y * row_bytes, y * row_bytes + row_bytes) + zeros(stride - row_bytes)
}

/// Rows `hi - 1` down to `lo` of such an image, one after the other.
pub open spec fn rows_bottom_up(src: Seq<u8>, row_bytes: int, stride: int, lo: int, hi: int) -> Seq<u8>
    decreases hi - lo,
{
    if hi <= lo {
        Seq::empty()
    } else {
        rows_bottom_up(src, row_bytes, stride, lo + 1, hi) + padded_row(src, row_bytes, stride, lo)
    }
}

/// The bytes of a palette entry in the file: its blue, green and red bytes as given, then a
/// zero.
pub open spec fn palette_quad(c: [u8; 3]) -> Seq<u8> {
    seq![c[0], c[1], c[2], 0u8]
}

/// The first `n` palette entries as they stand in the file.
pub open spec fn palette_bytes(palette: Seq<[u8; 3]>, n: int) -> Seq<u8>
    decreases n,
{
    if n <= 0 {
        Seq::empty()
    } else {
        palette_bytes(palette, n - 1) + palette_quad(palette[n - 1])
    }
}

/// The three bytes written for a pixel of colour `c`: its blue, green and red bytes as given.
pub open spec fn pixel_triple(c: [u8; 3]) -> Seq<u8> {
    seq![c[0], c[1], c[2]]
}

/// The first `n` pixels of the row that starts at index `base` of `indices`.
pub open spec fn indexed_pixels(palette: Seq<[u8; 3]>, indices: Seq<u8>, base: int, n: int) -> Seq<u8>
    decreases n,
{
    if n <= 0 {
        Seq::empty()
    } else {
        indexed_pixels(palette, indices, base, n - 1) + pixel_triple(palette[indices[base + n - 1] as int])
    }
}

/// Rows `hi - 1` down to `lo` of a `width`-pixel wide palette image, each padded to `stride`.
pub open spec fn indexed_rows(palette: Seq<[u8; 3]>, indices: Seq<u8>, width: int, stride: int, lo: int, hi: int) -> Seq<u8>
    decreases hi - lo,
{
    if hi <= lo {
        Seq::empty()
    } else {
        indexed_rows(palette, indices, width, stride, lo + 1, hi)
            + indexed_pixels(palette, indices, lo * width, width) + zeros(stride - 3 * width)
    }
}

/// Bytes per row of a 24-bit image `width` pixels wide, padded to four.
pub open spec fn stride24(width: u32) -> int {
    pad4(width * 3)
}

/// The 24-bit BMP file that `write_bmp_palette` writes.
pub open spec fn bmp_palette_file(width: u32, height: u32, palette: Seq<[u8; 3]>, indices: Seq<u8>) -> Seq<u8> {
    let data_size = stride24(width) * height;
    bmp_headers(wrap32(1078 + data_size), 1078, width, height, 24, 0, wrap32(data_size))
        + palette_bytes(palette, 256)
        + indexed_rows(palette, indices, width as int, stride24(width), 0, height as int)
}

/// Bytes per row of a 16-bit image `width` pixels wide, padded to four.
pub open spec fn stride16(width: u32) -> int {
    pad4(width * 2)
}

/// The 16-bit RGB565 BMP file that `write_bmp_rgb565` writes.
pub open spec fn bmp_rgb565_file(width: u32, height: u32, data: Seq<u8>) -> Seq<u8> {
    let data_size = stride16(width) * height;
    bmp_headers(wrap32(66 + data_size), 66, width, height, 16, 3, wrap32(data_size))
        + le_bytes_u32(0xF800) + le_bytes_u32(0x07E0) + le_bytes_u32(0x001F)
        + rows_bottom_up(data, width * 2, stride16(width), 0, height as int)
}

/// The 24-bit BMP file, without palette, that `write_bmp_rgb24` writes.
pub open spec fn bmp_rgb24_file(width: u32, height: u32, data: Seq<u8>) -> Seq<u8> {
    let data_size = stride24(width) * height;
    bmp_headers(wrap32(54 + data_size), 54, width, height, 24, 0, wrap32(data_size))
        + rows_bottom_up(data, width * 3, stride24(width), 0, height as int)
}

/// Bytes per row of a 32-bit image `width` pixels wide.
pub open spec fn stride32(width: u32) -> int {
    pad4(width * 4)
}

/// The 32-bit BMP file, with colour masks, that `write_bmp_bgra32` writes.
pub open spec fn bmp_bgra32_file(width: u32, height: u32, data: Seq<u8>) -> Seq<u8> {
    let data_size = stride32(width) * height;
    bmp_headers(wrap32(70 + data_size), 70, width, height, 32, 3, wrap32(data_size))
        + le_bytes_u32(0x00FF0000) + le_bytes_u32(0x0000FF00) + le_bytes_u32(0x000000FF)
        + le_bytes_u32(0xFF000000) + rows_bottom_up(data, width * 4, stride32(width), 0, height as int)
}

/// Reading back the four bytes of a little-endian `u32` gives the value.
pub proof fn lemma_le_bytes_roundtrip(v: u32)
    ensures
        le_bytes_u32(v).len() == 4,
        le_u32(le_bytes_u32(v)) == v,
{
}

/// The headers written by the BMP writers hold their fields at the offsets the BMP format
/// gives them: the signature at 0, the file size at 2, the pixel offset at 10, the header
/// size at 14, the width at 18, the height at 22, the bit count at 28, the compression at
/// 30 and the pixel data size at 34.
pub proof fn lemma_bmp_header_fields(
    file_size: u32,
    pixel_offset: u32,
    width: u32,
    height: u32,
    bit_count: u8,
    compression: u32,
    data_size: u32,
)
    ensures
        ({
            let h = bmp_headers(file_size, pixel_offset, width, height, bit_count, compression, data_size);
            &&& h.len() == 54
            &&& h[0] == 0x42 && h[1] == 0x4D
            &&& le_u32(h.subrange(2, 6)) == file_size
            &&& le_u32(h.subrange(10, 14)) == pixel_offset
            &&& le_u32(h.subrange(14, 18)) == 40
            &&& le_u32(h.subrange(18, 22)) == width
            &&& le_u32(h.subrange(22, 26)) == height
            &&& h[28] == bit_count
            &&& le_u32(h.subrange(30, 34)) == compression
            &&& le_u32(h.subrange(34, 38)) == data_size
        }),
{
    let h = bmp_headers(file_size, pixel_offset, width, height, bit_count, compression, data_size);
    assert(h.subrange(2, 6) =~= le_bytes_u32(file_size));
    assert(h.subrange(10, 14) =~= le_bytes_u32(pixel_offset));
    assert(h.subrange(14, 18) =~= le_bytes_u32(40));
    assert(h.subrange(18, 22) =~= le_bytes_u32(width));
    assert(h.subrange(22, 26) =~= le_bytes_u32(height));
    assert(h.subrange(30, 34) =~= le_bytes_u32(compression));
    assert(h.subrange(34, 38) =~= le_bytes_u32(data_size));
    lemma_le_bytes_roundtrip(file_size);
    lemma_le_bytes_roundtrip(pixel_offset);
    lemma_le_bytes_roundtrip(40);
    lemma_le_bytes_roundtrip(width);
    lemma_le_bytes_roundtrip(height);
    lemma_le_bytes_roundtrip(compression);
    lemma_le_bytes_roundtrip(data_size);
}

/// A padded row length is a multiple of four, at least the row, and less than four more.
pub proof fn lemma_pad4(n: int)
    requires
        n >= 0,
    ensures
        pad4(n) % 4 == 0,
        n <= pad4(n) < n + 4,
{
}

proof fn lemma_rows_len(src: Seq<u8>, row_bytes: int, stride: int, lo: int, hi: int)
    requires
        0 <= row_bytes <= stride,
        0 <= lo <= hi,
        hi * row_bytes <= src.len(),
    ensures
        rows_bottom_up(src, row_bytes, stride, lo, hi).len() == (hi - lo) * stride,
    decreases hi - lo,
{
    if lo < hi {
        lemma_rows_len(src, row_bytes, stride, lo + 1, hi);
        assert(lo * row_bytes + row_bytes <= hi * row_bytes) by (nonlinear_arith)
            requires
                lo < hi,
                0 <= row_bytes,
        ;
        assert(0 <= lo * row_bytes) by (nonlinear_arith)
            requires
                0 <= lo,
                0 <= row_bytes,
        ;
        assert((hi - lo) * stride == (hi - (lo + 1)) * stride + stride) by (nonlinear_arith);
    } else {
        assert((hi - lo) * stride == 0) by (nonlinear_arith)
            requires
                lo == hi,
        ;
    }
}

proof fn lemma_palette_bytes_len(palette: Seq<[u8; 3]>, n: int)
    requires
        n >= 0,
    ensures
        palette_bytes(palette, n).len() == 4 * n,
    decreases n,
{
    if n > 0 {
        lemma_palette_bytes_len(palette, n - 1);
    }
}

proof fn lemma_indexed_pixels_len(palette: Seq<[u8; 3]>, indices: Seq<u8>, base: int, n: int)
    requires
        n >= 0,
    ensures
        indexed_pixels(palette, indices, base, n).len() == 3 * n,
    decreases n,
{
    if n > 0 {
        lemma_indexed_pixels_len(palette, indices, base, n - 1);
    }
}

proof fn lemma_indexed_rows_len(palette: Seq<[u8; 3]>, indices: Seq<u8>, width: int, stride: int, lo: int, hi: int)
    requires
        0 <= 3 * width <= stride,
        lo <= hi,
    ensures
        indexed_rows(palette, indices, width, stride, lo, hi).len() == (hi - lo) * stride,
    decreases hi - lo,
{
    if lo < hi {
        lemma_indexed_rows_len(palette, indices, width, stride, lo + 1, hi);
        lemma_indexed_pixels_len(palette, indices, lo * width, width);
        assert((hi - lo) * stride == (hi - (lo + 1)) * stride + stride) by (nonlinear_arith);
    } else {
        assert((hi - lo) * stride == 0) by (nonlinear_arith)
            requires
                lo == hi,
        ;
    }
}

/// Whether a BMP file's header describes it: the size field holds the file's length, the
/// data size field the length of the pixel rows after `pixel_offset`, both reduced to 32
/// bits, and the width and height fields hold the image's dimensions.
pub open spec fn header_describes(file: Seq<u8>, pixel_offset: int, width: u32, height: u32) -> bool {
    &&& file.len() >= 54
    &&& file[0] == 0x42 && file[1] == 0x4D
    &&& le_u32(file.subrange(2, 6)) == file.len() % 0x1_0000_0000
    &&& le_u32(file.subrange(10, 14)) == pixel_offset
    &&& le_u32(file.subrange(18, 22)) == width
    &&& le_u32(file.subrange(22, 26)) == height
    &&& le_u32(file.subrange(34, 38)) == (file.len() - pixel_offset) % 0x1_0000_0000
}

proof fn lemma_headers_describe(
    pixel_offset: u32,
    width: u32,
    height: u32,
    bit_count: u8,
    compression: u32,
    data_size: int,
    rest: Seq<u8>,
)
    requires
        pixel_offset >= 54,
        data_size >= 0,
        rest.len() == pixel_offset - 54 + data_size,
    ensures
        header_describes(
            bmp_headers(wrap32(pixel_offset + data_size), pixel_offset, width, height, bit_count, compression, wrap32(data_size))
                + rest,
            pixel_offset as int,
            width,
            height,
        ),
{
    let hd = bmp_headers(wrap32(pixel_offset + data_size), pixel_offset, width, height, bit_count, compression, wrap32(data_size));
    lemma_bmp_header_fields(wrap32(pixel_offset + data_size), pixel_offset, width, height, bit_count, compression, wrap32(data_size));
    let file = hd + rest;
    assert(file.subrange(2, 6) =~= hd.subrange(2, 6));
    assert(file.subrange(10, 14) =~= hd.subrange(10, 14));
    assert(file.subrange(18, 22) =~= hd.subrange(18, 22));
    assert(file.subrange(22, 26) =~= hd.subrange(22, 26));
    assert(file.subrange(34, 38) =~= hd.subrange(34, 38));
}

/// The header of the file `write_bmp_palette` writes describes that file.
pub proof fn lemma_palette_file_described(width: u32, height: u32, palette: Seq<[u8; 3]>, indices: Seq<u8>)
    ensures
        header_describes(bmp_palette_file(width, height, palette, indices), 1078, width, height),
{
    let stride = stride24(width);
    let ds = stride * height;
    let hd = bmp_headers(wrap32(1078 + ds), 1078, width, height, 24, 0, wrap32(ds));
    let pb = palette_bytes(palette, 256);
    let rows = indexed_rows(palette, indices, width as int, stride, 0, height as int);
    lemma_palette_bytes_len(palette, 256);
    lemma_pad4(width * 3);
    lemma_indexed_rows_len(palette, indices, width as int, stride, 0, height as int);
    assert(ds >= 0 && (height - 0) * stride == ds) by (nonlinear_arith)
        requires
            stride >= 0,
            ds == stride * height,
            height >= 0,
    ;
    lemma_concat_associative(hd, pb, rows);
    lemma_headers_describe(1078, width, height, 24, 0, ds, pb + rows);
}

/// The header of the file `write_bmp_rgb565` writes describes that file.
pub proof fn lemma_rgb565_file_described(width: u32, height: u32, data: Seq<u8>)
    requires
        height * width * 2 <= data.len(),
    ensures
        header_describes(bmp_rgb565_file(width, height, data), 66, width, height),
{
    let stride = stride16(width);
    let ds = stride * height;
    let hd = bmp_headers(wrap32(66 + ds), 66, width, height, 16, 3, wrap32(ds));
    let m = le_bytes_u32(0xF800) + le_bytes_u32(0x07E0) + le_bytes_u32(0x001F);
    let rows = rows_bottom_up(data, width * 2, stride, 0, height as int);
    lemma_pad4(width * 2);
    assert(height * (width * 2) == height * width * 2) by (nonlinear_arith);
    lemma_rows_len(data, width * 2, stride, 0, height as int);
    assert(ds >= 0 && (height - 0) * stride == ds) by (nonlinear_arith)
        requires
            stride >= 0,
            ds == stride * height,
            height >= 0,
    ;
    assert(hd + le_bytes_u32(0xF800) + le_bytes_u32(0x07E0) + le_bytes_u32(0x001F) + rows =~= hd + (m + rows));
    lemma_headers_describe(66, width, height, 16, 3, ds, m + rows);
}

/// The header of the file `write_bmp_rgb24` writes describes that file.
pub proof fn lemma_rgb24_file_described(width: u32, height: u32, data: Seq<u8>)
    requires
        height * width * 3 <= data.len(),
    ensures
        header_describes(bmp_rgb24_file(width, height, data), 54, width, height),
{
    let stride = stride24(width);
    let ds = stride * height;
    lemma_pad4(width * 3);
    assert(height * (width * 3) == height * width * 3) by (nonlinear_arith);
    lemma_rows_len(data, width * 3, stride, 0, height as int);
    assert(ds >= 0 && (height - 0) * stride == ds) by (nonlinear_arith)
        requires
            stride >= 0,
            ds == stride * height,
            height >= 0,
    ;
    lemma_headers_describe(54, width, height, 24, 0, ds, rows_bottom_up(data, width * 3, stride, 0, height as int));
}

/// The header of the file `write_bmp_bgra32` writes describes that file.
pub proof fn lemma_bgra32_file_described(width: u32, height: u32, data: Seq<u8>)
    requires
        height * width * 4 <= data.len(),
    ensures
        header_describes(bmp_bgra32_file(width, height, data), 70, width, height),
{
    let stride = stride32(width);
    let ds = stride * height;
    let hd = bmp_headers(wrap32(70 + ds), 70, width, height, 32, 3, wrap32(ds));
    let m = le_bytes_u32(0x00FF0000) + le_bytes_u32(0x0000FF00) + le_bytes_u32(0x000000FF) + le_bytes_u32(0xFF000000);
    let rows = rows_bottom_up(data, width * 4, stride, 0, height as int);
    lemma_pad4(width * 4);
    assert(height * (width * 4) == height * width * 4) by (nonlinear_arith);
    lemma_rows_len(data, width * 4, stride, 0, height as int);
    assert(ds >= 0 && (height - 0) * stride == ds) by (nonlinear_arith)
        requires
            stride >= 0,
            ds == stride * height,
            height >= 0,
    ;
    assert(hd + le_bytes_u32(0x00FF0000) + le_bytes_u32(0x0000FF00) + le_bytes_u32(0x000000FF)
        + le_bytes_u32(0xFF000000) + rows =~= hd + (m + rows));
    lemma_headers_describe(70, width, height, 32, 3, ds, m + rows);
}

/// The 16-bit BMP file declares 16 bits per pixel with bit fields (compression 3), and the
/// colour masks after the headers are 0xF800 for red, 0x07E0 for green and 0x001F for blue.
pub proof fn lemma_rgb565_file_format(width: u32, height: u32, data: Seq<u8>)
    ensures
        ({
            let f = bmp_rgb565_file(width, height, data);
            &&& f.len() >= 66
            &&& f[28] == 16 && f[29] == 0
            &&& le_u32(f.subrange(30, 34)) == 3
            &&& le_u32(f.subrange(54, 58)) == 0xF800
            &&& le_u32(f.subrange(58, 62)) == 0x07E0
            &&& le_u32(f.subrange(62, 66)) == 0x001F
        }),
{
    let ds = stride16(width) * height;
    let hd = bmp_headers(wrap32(66 + ds), 66, width, height, 16, 3, wrap32(ds));
    lemma_bmp_header_fields(wrap32(66 + ds), 66, width, height, 16, 3, wrap32(ds));
    let f = bmp_rgb565_file(width, height, data);
    assert(f.subrange(30, 34) =~= hd.subrange(30, 34));
    assert(f.subrange(54, 58) =~= le_bytes_u32(0xF800));
    assert(f.subrange(58, 62) =~= le_bytes_u32(0x07E0));
    assert(f.subrange(62, 66) =~= le_bytes_u32(0x001F));
    lemma_le_bytes_roundtrip(0xF800);
    lemma_le_bytes_roundtrip(0x07E0);
    lemma_le_bytes_roundtrip(0x001F);
}

/// The 32-bit BMP file declares 32 bits per pixel with bit fields (compression 3), and the
/// masks after the headers are 0x00FF0000 for red, 0x0000FF00 for green, 0x000000FF for blue
/// and 0xFF000000 for alpha.
pub proof fn lemma_bgra32_file_format(width: u32, height: u32, data: Seq<u8>)
    ensures
        ({
            let f = bmp_bgra32_file(width, height, data);
            &&& f.len() >= 70
            &&& f[28] == 32 && f[29] == 0
            &&& le_u32(f.subrange(30, 34)) == 3
            &&& le_u32(f.subrange(54, 58)) == 0x00FF0000
            &&& le_u32(f.subrange(58, 62)) == 0x0000FF00
            &&& le_u32(f.subrange(62, 66)) == 0x000000FF
            &&& le_u32(f.subrange(66, 70)) == 0xFF000000
        }),
{
    let ds = stride32(width) * height;
    let hd = bmp_headers(wrap32(70 + ds), 70, width, height, 32, 3, wrap32(ds));
    lemma_bmp_header_fields(wrap32(70 + ds), 70, width, height, 32, 3, wrap32(ds));
    let f = bmp_bgra32_file(width, height, data);
    assert(f.subrange(30, 34) =~= hd.subrange(30, 34));
    assert(f.subrange(54, 58) =~= le_bytes_u32(0x00FF0000));
    assert(f.subrange(58, 62) =~= le_bytes_u32(0x0000FF00));
    assert(f.subrange(62, 66) =~= le_bytes_u32(0x000000FF));
    assert(f.subrange(66, 70) =~= le_bytes_u32(0xFF000000));
    lemma_le_bytes_roundtrip(0x00FF0000);
    lemma_le_bytes_roundtrip(0x0000FF00);
    lemma_le_bytes_roundtrip(0x000000FF);
    lemma_le_bytes_roundtrip(0xFF000000);
}

/// The 24-bit files, with or without palette, declare 24 bits per pixel and no compression.
pub proof fn lemma_rgb24_files_format(width: u32, height: u32, data: Seq<u8>, palette: Seq<[u8; 3]>)
    ensures
        ({
            let f = bmp_rgb24_file(width, height, data);
            &&& f.len() >= 54
            &&& f[28] == 24 && f[29] == 0
            &&& le_u32(f.subrange(30, 34)) == 0
        }),
        ({
            let f = bmp_palette_file(width, height, palette, data);
            &&& f.len() >= 54
            &&& f[28] == 24 && f[29] == 0
            &&& le_u32(f.subrange(30, 34)) == 0
        }),
{
    let ds = stride24(width) * height;
    let hd = bmp_headers(wrap32(54 + ds), 54, width, height, 24, 0, wrap32(ds));
    lemma_bmp_header_fields(wrap32(54 + ds), 54, width, height, 24, 0, wrap32(ds));
    assert(bmp_rgb24_file(width, height, data).subrange(30, 34) =~= hd.subrange(30, 34));
    let hp = bmp_headers(wrap32(1078 + ds), 1078, width, height, 24, 0, wrap32(ds));
    lemma_bmp_header_fields(wrap32(1078 + ds), 1078, width, height, 24, 0, wrap32(ds));
    let pf = bmp_palette_file(width, height, palette, data);
    assert(pf.subrange(30, 34) =~= hp.subrange(30, 34));
}

/// Byte `k` of the padded row `y` sits at `(hi - 1 - y) * stride + k` among the rows `hi - 1`
/// down to `lo`.
proof fn lemma_rows_byte(src: Seq<u8>, row_bytes: int, stride: int, lo: int, hi: int, y: int, k: int)
    requires
        0 <= row_bytes <= stride,
        0 <= lo <= y < hi,
        0 <= k < stride,
        hi * row_bytes <= src.len(),
    ensures
        rows_bottom_up(src, row_bytes, stride, lo, hi)[(hi - 1 - y) * stride + k] == padded_row(src, row_bytes, stride, y)[k],
    decreases hi - lo,
{
    lemma_rows_len(src, row_bytes, stride, lo + 1, hi);
    let first = rows_bottom_up(src, row_bytes, stride, lo + 1, hi);
    let row = padded_row(src, row_bytes, stride, lo);
    assert(0 <= lo * row_bytes && lo * row_bytes + row_bytes <= hi * row_bytes) by (nonlinear_arith)
        requires
            0 <= lo < hi,
            0 <= row_bytes,
    ;
    assert(row.len() == stride);
    assert(rows_bottom_up(src, row_bytes, stride, lo, hi) == first + row);
    if y == lo {
        assert((hi - 1 - y) * stride == (hi - (lo + 1)) * stride);
        assert((first + row)[first.len() + k] == row[k]);
    } else {
        lemma_rows_byte(src, row_bytes, stride, lo + 1, hi, y, k);
        assert((hi - 1 - y) * stride + k < (hi - (lo + 1)) * stride) by (nonlinear_arith)
            requires
                lo < y,
                0 <= k < stride,
        ;
        assert(0 <= (hi - 1 - y) * stride) by (nonlinear_arith)
            requires
                y < hi,
                0 <= stride,
        ;
        assert((first + row)[(hi - 1 - y) * stride + k] == first[(hi - 1 - y) * stride + k]);
    }
}

/// Byte `k` of row `y` in the rows written from the bottom up: the row's byte of `src`, or
/// a zero of its padding.
proof fn lemma_rows_pixel(src: Seq<u8>, row_bytes: int, stride: int, h: int, y: int, k: int)
    requires
        0 <= row_bytes <= stride,
        0 <= y < h,
        0 <= k < stride,
        h * row_bytes <= src.len(),
    ensures
        rows_bottom_up(src, row_bytes, stride, 0, h)[(h - 1 - y) * stride + k]
            == if k < row_bytes { src[y * row_bytes + k] } else { 0u8 },
{
    lemma_rows_byte(src, row_bytes, stride, 0, h, y, k);
    assert(0 <= y * row_bytes && y * row_bytes + row_bytes <= h * row_bytes) by (nonlinear_arith)
        requires
            0 <= y < h,
            0 <= row_bytes,
    ;
}

/// In the 24-bit BMP file, the rows stand from the bottom row up after the 54 header bytes,
/// each `stride24(width)` bytes long: byte `c` of pixel `(x, y)` is byte `3 * (y * width + x) + c`
/// of the pixel data, and the bytes past `3 * width` in a row are zeros.
#[verifier::rlimit(30)]
pub proof fn lemma_rgb24_file_pixels(width: u32, height: u32, data: Seq<u8>, y: int, k: int)
    requires
        height * width * 3 <= data.len(),
        0 <= y < height,
        0 <= k < stride24(width),
    ensures
        bmp_rgb24_file(width, height, data)[54 + (height - 1 - y) * stride24(width) + k]
            == if k < 3 * width { data[3 * width * y + k] } else { 0u8 },
{
    let stride = stride24(width);
    let ds = stride * height;
    let hd = bmp_headers(wrap32(54 + ds), 54, width, height, 24, 0, wrap32(ds));
    lemma_bmp_header_fields(wrap32(54 + ds), 54, width, height, 24, 0, wrap32(ds));
    lemma_pad4(width * 3);
    let rows = rows_bottom_up(data, width * 3, stride, 0, height as int);
    assert(height * (width * 3) == height * width * 3) by (nonlinear_arith);
    assert(y * (width * 3) == 3 * width * y) by (nonlinear_arith);
    lemma_rows_pixel(data, width * 3, stride, height as int, y, k);
    lemma_rows_len(data, width * 3, stride, 0, height as int);
    let j = (height - 1 - y) * stride + k;
    assert(0 <= j < (height - 0) * stride) by (nonlinear_arith)
        requires
            j == (height - 1 - y) * stride + k,
            0 <= y < height,
            0 <= k < stride,
    ;
    assert((hd + rows)[54 + j] == rows[j]);
}

/// In the 16-bit BMP file, the rows stand from the bottom row up after the 54 header bytes
/// and the 12 bytes of colour masks, each `stride16(width)` bytes long: byte `k` of row `y`
/// is byte `2 * width * y + k` of the pixel data, and the bytes past `2 * width` are zeros.
#[verifier::rlimit(30)]
pub proof fn lemma_rgb565_file_pixels(width: u32, height: u32, data: Seq<u8>, y: int, k: int)
    requires
        height * width * 2 <= data.len(),
        0 <= y < height,
        0 <= k < stride16(width),
    ensures
        bmp_rgb565_file(width, height, data)[66 + (height - 1 - y) * stride16(width) + k]
            == if k < 2 * width { data[2 * width * y + k] } else { 0u8 },
{
    let stride = stride16(width);
    let ds = stride * height;
    let hd = bmp_headers(wrap32(66 + ds), 66, width, height, 16, 3, wrap32(ds));
    lemma_bmp_header_fields(wrap32(66 + ds), 66, width, height, 16, 3, wrap32(ds));
    lemma_pad4(width * 2);
    let rows = rows_bottom_up(data, width * 2, stride, 0, height as int);
    assert(height * (width * 2) == height * width * 2) by (nonlinear_arith);
    assert(y * (width * 2) == 2 * width * y) by (nonlinear_arith);
    lemma_rows_pixel(data, width * 2, stride, height as int, y, k);
    lemma_rows_len(data, width * 2, stride, 0, height as int);
    let j = (height - 1 - y) * stride + k;
    assert(0 <= j < (height - 0) * stride) by (nonlinear_arith)
        requires
            j == (height - 1 - y) * stride + k,
            0 <= y < height,
            0 <= k < stride,
    ;
    let m = le_bytes_u32(0xF800) + le_bytes_u32(0x07E0) + le_bytes_u32(0x001F);
    assert(hd + le_bytes_u32(0xF800) + le_bytes_u32(0x07E0) + le_bytes_u32(0x001F) + rows =~= (hd + m) + rows);
    assert(((hd + m) + rows)[66 + j] == rows[j]);
}

/// In the 32-bit BMP file, the rows stand from the bottom row up after the 54 header bytes
/// and the 16 bytes of colour masks, each `stride32(width)` bytes long: byte `k` of row `y`
/// is byte `4 * width * y + k` of the pixel data.
#[verifier::rlimit(30)]
pub proof fn lemma_bgra32_file_pixels(width: u32, height: u32, data: Seq<u8>, y: int, k: int)
    requires
        height * width * 4 <= data.len(),
        0 <= y < height,
        0 <= k < 4 * width,
    ensures
        bmp_bgra32_file(width, height, data)[70 + (height - 1 - y) * stride32(width) + k] == data[4 * width * y + k],
{
    let stride = stride32(width);
    let ds = stride * height;
    let hd = bmp_headers(wrap32(70 + ds), 70, width, height, 32, 3, wrap32(ds));
    lemma_bmp_header_fields(wrap32(70 + ds), 70, width, height, 32, 3, wrap32(ds));
    lemma_pad4(width * 4);
    let rows = rows_bottom_up(data, width * 4, stride, 0, height as int);
    assert(height * (width * 4) == height * width * 4) by (nonlinear_arith);
    assert(y * (width * 4) == 4 * width * y) by (nonlinear_arith);
    lemma_rows_pixel(data, width * 4, stride, height as int, y, k);
    lemma_rows_len(data, width * 4, stride, 0, height as int);
    let j = (height - 1 - y) * stride + k;
    assert(0 <= j < (height - 0) * stride) by (nonlinear_arith)
        requires
            j == (height - 1 - y) * stride + k,
            0 <= y < height,
            0 <= k < stride,
    ;
    let m = le_bytes_u32(0x00FF0000) + le_bytes_u32(0x0000FF00) + le_bytes_u32(0x000000FF) + le_bytes_u32(0xFF000000);
    assert(hd + le_bytes_u32(0x00FF0000) + le_bytes_u32(0x0000FF00) + le_bytes_u32(0x000000FF)
        + le_bytes_u32(0xFF000000) + rows =~= (hd + m) + rows);
    assert(((hd + m) + rows)[70 + j] == rows[j]);
}

proof fn lemma_palette_bytes_at(palette: Seq<[u8; 3]>, n: int, i: int, c: int)
    requires
        0 <= i < n,
        0 <= c < 4,
    ensures
        palette_bytes(palette, n)[4 * i + c] == palette_quad(palette[i])[c],
    decreases n,
{
    lemma_palette_bytes_len(palette, n - 1);
    let prev = palette_bytes(palette, n - 1);
    if i < n - 1 {
        lemma_palette_bytes_at(palette, n - 1, i, c);
        assert((prev + palette_quad(palette[n - 1]))[4 * i + c] == prev[4 * i + c]);
    } else {
        assert((prev + palette_quad(palette[n - 1]))[4 * i + c] == palette_quad(palette[n - 1])[c]);
    }
}

proof fn lemma_indexed_pixels_at(palette: Seq<[u8; 3]>, indices: Seq<u8>, base: int, n: int, x: int, c: int)
    requires
        0 <= x < n,
        0 <= c < 3,
    ensures
        indexed_pixels(palette, indices, base, n)[3 * x + c] == palette[indices[base + x] as int][c],
    decreases n,
{
    lemma_indexed_pixels_len(palette, indices, base, n - 1);
    let prev = indexed_pixels(palette, indices, base, n - 1);
    let last = pixel_triple(palette[indices[base + n - 1] as int]);
    if x < n - 1 {
        lemma_indexed_pixels_at(palette, indices, base, n - 1, x, c);
        assert((prev + last)[3 * x + c] == prev[3 * x + c]);
    } else {
        assert((prev + last)[3 * x + c] == last[c]);
    }
}

proof fn lemma_indexed_rows_byte(palette: Seq<[u8; 3]>, indices: Seq<u8>, width: int, stride: int, lo: int, hi: int, y: int, k: int)
    requires
        0 <= 3 * width <= stride,
        0 <= lo <= y < hi,
        0 <= k < stride,
    ensures
        indexed_rows(palette, indices, width, stride, lo, hi)[(hi - 1 - y) * stride + k]
            == (indexed_pixels(palette, indices, y * width, width) + zeros(stride - 3 * width))[k],
    decreases hi - lo,
{
    lemma_indexed_rows_len(palette, indices, width, stride, lo + 1, hi);
    lemma_indexed_pixels_len(palette, indices, lo * width, width);
    let first = indexed_rows(palette, indices, width, stride, lo + 1, hi);
    let row = indexed_pixels(palette, indices, lo * width, width) + zeros(stride - 3 * width);
    assert(row.len() == stride);
    assert(indexed_rows(palette, indices, width, stride, lo, hi) == first + row);
    if y == lo {
        assert((hi - 1 - y) * stride == (hi - (lo + 1)) * stride);
        assert((first + row)[first.len() + k] == row[k]);
    } else {
        lemma_indexed_rows_byte(palette, indices, width, stride, lo + 1, hi, y, k);
        assert((hi - 1 - y) * stride + k < (hi - (lo + 1)) * stride) by (nonlinear_arith)
            requires
                lo < y,
                0 <= k < stride,
        ;
        assert(0 <= (hi - 1 - y) * stride) by (nonlinear_arith)
            requires
                y < hi,
                0 <= stride,
        ;
        assert((first + row)[(hi - 1 - y) * stride + k] == first[(hi - 1 - y) * stride + k]);
    }
}

/// In the palette BMP file, palette entry `i` is the four bytes at `54 + 4 * i`: the entry's
/// three bytes as given, then a zero.
#[verifier::rlimit(30)]
pub proof fn lemma_palette_file_entries(width: u32, height: u32, palette: Seq<[u8; 3]>, indices: Seq<u8>, i: int, c: int)
    requires
        0 <= i < 256,
        0 <= c < 4,
    ensures
        bmp_palette_file(width, height, palette, indices)[54 + 4 * i + c] == if c < 3 { palette[i][c] } else { 0u8 },
{
    let stride = stride24(width);
    let ds = stride * height;
    let hd = bmp_headers(wrap32(1078 + ds), 1078, width, height, 24, 0, wrap32(ds));
    lemma_bmp_header_fields(wrap32(1078 + ds), 1078, width, height, 24, 0, wrap32(ds));
    let pb = palette_bytes(palette, 256);
    let rows = indexed_rows(palette, indices, width as int, stride, 0, height as int);
    lemma_palette_bytes_len(palette, 256);
    lemma_palette_bytes_at(palette, 256, i, c);
    assert((hd + pb + rows)[54 + 4 * i + c] == pb[4 * i + c]);
}

/// In the palette BMP file, the rows stand from the bottom row up after the headers and the
/// palette, each `stride24(width)` bytes long: byte `c` of pixel `(x, y)` is byte `c` of the
/// palette entry that index `y * width + x` names, and the bytes past `3 * width` in a row
/// are zeros.
#[verifier::rlimit(30)]
pub proof fn lemma_palette_file_pixels(width: u32, height: u32, palette: Seq<[u8; 3]>, indices: Seq<u8>, y: int, k: int)
    requires
        0 <= y < height,
        0 <= k < stride24(width),
    ensures
        bmp_palette_file(width, height, palette, indices)[1078 + (height - 1 - y) * stride24(width) + k]
            == if k < 3 * width { palette[indices[y * width + k / 3] as int][k % 3] } else { 0u8 },
{
    let stride = stride24(width);
    let ds = stride * height;
    let hd = bmp_headers(wrap32(1078 + ds), 1078, width, height, 24, 0, wrap32(ds));
    lemma_bmp_header_fields(wrap32(1078 + ds), 1078, width, height, 24, 0, wrap32(ds));
    let pb = palette_bytes(palette, 256);
    let rows = indexed_rows(palette, indices, width as int, stride, 0, height as int);
    lemma_palette_bytes_len(palette, 256);
    lemma_pad4(width * 3);
    lemma_indexed_rows_len(palette, indices, width as int, stride, 0, height as int);
    lemma_indexed_rows_byte(palette, indices, width as int, stride, 0, height as int, y, k);
    lemma_indexed_pixels_len(palette, indices, y * width, width as int);
    let j = (height - 1 - y) * stride + k;
    assert(0 <= j < (height - 0) * stride) by (nonlinear_arith)
        requires
            j == (height - 1 - y) * stride + k,
            0 <= y < height,
            0 <= k < stride,
    ;
    assert((hd + pb + rows)[1078 + j] == rows[j]);
    let px = indexed_pixels(palette, indices, y * width, width as int);
    if k < 3 * width {
        lemma_indexed_pixels_at(palette, indices, y * width, width as int, k / 3, k % 3);
        assert((px + zeros(stride - 3 * width))[k] == px[k]);
    } else {
        assert((px + zeros(stride - 3 * width))[k] == zeros(stride - 3 * width)[k - 3 * width]);
    }
}

proof fn lemma_indexed_pixels_agree(palette: Seq<[u8; 3]>, a: Seq<u8>, b: Seq<u8>, base: int, n: int)
    requires
        forall|j: int| base <= j < base + n ==> a[j] == b[j],
    ensures
        indexed_pixels(palette, a, base, n) == indexed_pixels(palette, b, base, n),
    decreases n,
{
    if n > 0 {
        lemma_indexed_pixels_agree(palette, a, b, base, n - 1);
    }
}

proof fn lemma_indexed_rows_agree(palette: Seq<[u8; 3]>, a: Seq<u8>, b: Seq<u8>, width: int, stride: int, lo: int, hi: int)
    requires
        0 <= lo,
        0 <= width,
        forall|j: int| 0 <= j < hi * width ==> a[j] == b[j],
    ensures
        indexed_rows(palette, a, width, stride, lo, hi) == indexed_rows(palette, b, width, stride, lo, hi),
    decreases hi - lo,
{
    if lo < hi {
        lemma_indexed_rows_agree(palette, a, b, width, stride, lo + 1, hi);
        assert(0 <= lo * width && lo * width + width <= hi * width) by (nonlinear_arith)
            requires
                0 <= lo < hi,
                0 <= width,
        ;
        lemma_indexed_pixels_agree(palette, a, b, lo * width, width);
    }
}

/// Palette indices past the first `width * height` do not change the palette BMP.
pub proof fn lemma_palette_file_ignores_extra_indices(
    width: u32,
    height: u32,
    palette: Seq<[u8; 3]>,
    indices: Seq<u8>,
    extra: Seq<u8>,
)
    requires
        indices.len() >= width * height,
    ensures
        bmp_palette_file(width, height, palette, indices + extra) == bmp_palette_file(width, height, palette, indices),
{
    assert(height * width == width * height) by (nonlinear_arith);
    lemma_indexed_rows_agree(palette, indices + extra, indices, width as int, stride24(width), 0, height as int);
}

/// Appends the four little-endian bytes of `v`.
pub(crate) fn push_u32_le(out: &mut Vec<u8>, v: u32)
    ensures
        final(out)@ == old(out)@ + le_bytes_u32(v),
{
    out.push((v % 256) as u8);
    out.push(((v / 256) % 256) as u8);
    out.push(((v / 65536) % 256) as u8);
    out.push((v / 16777216) as u8);
    proof {
        assert(final(out)@ =~= old(out)@ + le_bytes_u32(v));
    }
}

/// Appends `n` zero bytes.
fn push_zeros(out: &mut Vec<u8>, n: usize)
    ensures
        final(out)@ == old(out)@ + zeros(n as int),
{
    let mut i: usize = 0;
    while i < n
        invariant
            i <= n,
            out@ == old(out)@ + zeros(i as int),
        decreases n - i,
    {
        out.push(0);
        proof {
            assert(zeros(i + 1) =~= zeros(i as int).push(0u8));
        }
        i = i + 1;
    }
}

/// Appends the file header and BITMAPINFOHEADER.
fn push_bmp_headers(
    out: &mut Vec<u8>,
    file_size: u32,
    pixel_offset: u32,
    width: u32,
    height: u32,
    bit_count: u8,
    compression: u32,
    data_size: u32,
)
    ensures
        final(out)@ == old(out)@ + bmp_headers(file_size, pixel_offset, width, height, bit_count, compression, data_size),
{
    out.push(0x42);
    out.push(0x4D);
    push_u32_le(out, file_size);
    push_u32_le(out, 0);
    push_u32_le(out, pixel_offset);
    push_u32_le(out, 40);
    push_u32_le(out, width);
    push_u32_le(out, height);
    out.push(1);
    out.push(0);
    out.push(bit_count);
    out.push(0);
    push_u32_le(out, compression);
    push_u32_le(out, data_size);
    push_zeros(out, 16);
    proof {
        assert(final(out)@ =~= old(out)@ + bmp_headers(file_size, pixel_offset, width, height, bit_count, compression, data_size));
    }
}

/// Appends the rows `height - 1` down to `0` of an image kept `row_bytes` bytes per row in
/// `src`, each padded with zeros to `stride` bytes.
fn push_rows_bottom_up(out: &mut Vec<u8>, src: &[u8], row_bytes: usize, stride: usize, height: usize)
    requires
        row_bytes <= stride,
        height * row_bytes <= src@.len(),
    ensures
        final(out)@ == old(out)@ + rows_bottom_up(src@, row_bytes as int, stride as int, 0, height as int),
{
    let mut y = height;
    proof {
        assert(rows_bottom_up(src@, row_bytes as int, stride as int, height as int, height as int) =~= Seq::<u8>::empty());
        assert(old(out)@ + Seq::<u8>::empty() =~= old(out)@);
    }
    while y > 0
        invariant
            y <= height,
            row_bytes <= stride,
            height * row_bytes <= src@.len(),
            out@ == old(out)@ + rows_bottom_up(src@, row_bytes as int, stride as int, y as int, height as int),
        decreases y,
    {
        y = y - 1;
        proof {
            assert(y * row_bytes + row_bytes <= height * row_bytes) by (nonlinear_arith)
                requires
                    y < height,
            ;
        }
        assert(y * row_bytes + row_bytes <= src.len());
        let start = y * row_bytes;
        let ghost before = out@;
        append_range(out, src, start, start + row_bytes);
        push_zeros(out, stride - row_bytes);
        proof {
            let row = src@.subrange(start as int, start + row_bytes);
            let z = zeros(stride - row_bytes);
            let rest = rows_bottom_up(src@, row_bytes as int, stride as int, y + 1, height as int);
            lemma_concat_associative(old(out)@, rest, row);
            lemma_concat_associative(old(out)@ + rest, row, z);
            lemma_concat_associative(old(out)@, rest + row, z);
            lemma_concat_associative(rest, row, z);
        }
    }
}

/// Appends a 24-bit BMP built from a 256-colour palette, three bytes per colour in BGR order,
/// and one palette index per pixel, rows given top to bottom in `indices`. Palette entries
/// are written as BGRX and pixels as BGR, in the order the colours are given. Fails with `Error::NotEnoughIndices`, writing nothing, when
/// `indices` holds fewer than `width * height` entries.
pub fn write_bmp_palette(
    writer: &mut Vec<u8>,
    width: u32,
    height: u32,
    palette: &[[u8; 3]; 256],
    indices: &[u8],
) -> (r: Result<(), Error>)
    requires
        width * height <= u32::MAX,
        indices@.len() >= width * height ==> width * 3 + 3 <= u32::MAX,
        indices@.len() >= width * height ==> stride24(width) * height + 1078 <= usize::MAX,
    ensures
        indices@.len() < width * height ==> (r matches Err(Error::NotEnoughIndices) && final(writer)@ == old(writer)@),
        indices@.len() >= width * height ==> r is Ok && final(writer)@ == old(writer)@ + bmp_palette_file(
            width,
            height,
            palette@,
            indices@,
        ),
{
    let pixel_count = (width * height) as usize;
    if indices.len() < pixel_count {
        return Err(Error::NotEnoughIndices);
    }
    let stride = ((width * 3 + 3) / 4 * 4) as usize;
    let data_size = stride * height as usize;
    let file_size = 1078 + data_size;
    let ghost pal = palette@;
    push_bmp_headers(writer, (file_size as u64 % 0x1_0000_0000) as u32, 1078, width, height, 24, 0, (data_size as u64 % 0x1_0000_0000) as u32);
    let ghost after_headers = writer@;
    let mut i: usize = 0;
    while i < 256
        invariant
            i <= 256,
            pal == palette@,
            writer@ == after_headers + palette_bytes(pal, i as int),
        decreases 256 - i,
    {
        let c = palette[i];
        let ghost before = writer@;
        writer.push(c[0]);
        writer.push(c[1]);
        writer.push(c[2]);
        writer.push(0);
        proof {
            assert(writer@ =~= before + palette_quad(pal[i as int]));
            lemma_concat_associative(after_headers, palette_bytes(pal, i as int), palette_quad(pal[i as int]));
        }
        i = i + 1;
    }
    let ghost after_palette = writer@;
    let w = width as usize;
    let h = height as usize;
    let mut y = h;
    proof {
        assert(indexed_rows(pal, indices@, w as int, stride as int, h as int, h as int) =~= Seq::<u8>::empty());
        assert(after_palette + Seq::<u8>::empty() =~= after_palette);
        assert(3 * w <= stride);
    }
    while y > 0
        invariant
            y <= h,
            w == width,
            h == height,
            stride == stride24(width),
            3 * w <= stride,
            w * h <= indices@.len(),
            pal == palette@,
            writer@ == after_palette + indexed_rows(pal, indices@, w as int, stride as int, y as int, h as int),
        decreases y,
    {
        y = y - 1;
        proof {
            assert(y * w + w <= w * h) by (nonlinear_arith)
                requires
                    y < h,
            ;
        }
        assert(y * w + w <= indices.len());
        let row_start = y * w;
        let ghost row_base = writer@;
        let mut x: usize = 0;
        while x < w
            invariant
                x <= w,
                row_start + w <= indices.len(),
                pal == palette@,
                writer@ == row_base + indexed_pixels(pal, indices@, row_start as int, x as int),
            decreases w - x,
        {
            let idx = indices[row_start + x];
            let c = palette[idx as usize];
            let ghost before = writer@;
            writer.push(c[0]);
            writer.push(c[1]);
            writer.push(c[2]);
            proof {
                assert(writer@ =~= before + pixel_triple(pal[idx as int]));
                lemma_concat_associative(row_base, indexed_pixels(pal, indices@, row_start as int, x as int), pixel_triple(pal[idx as int]));
            }
            x = x + 1;
        }
        push_zeros(writer, stride - 3 * w);
        proof {
            let rest = indexed_rows(pal, indices@, w as int, stride as int, y + 1, h as int);
            let px = indexed_pixels(pal, indices@, row_start as int, w as int);
            let z = zeros(stride - 3 * w);
            lemma_concat_associative(after_palette, rest, px);
            lemma_concat_associative(after_palette + rest, px, z);
            lemma_concat_associative(after_palette, rest + px, z);
        }
    }
    proof {
        let hd = bmp_headers(wrap32(1078 + stride24(width) * height), 1078, width, height, 24, 0, wrap32(stride24(width) * height));
        let pb = palette_bytes(pal, 256);
        let rows = indexed_rows(pal, indices@, width as int, stride24(width), 0, height as int);
        lemma_concat_associative(old(writer)@, hd, pb);
        lemma_concat_associative(old(writer)@, hd + pb, rows);
    }
    Ok(())
}

/// Appends a 16-bit BMP (BI_BITFIELDS with RGB565 masks) whose pixel rows, two bytes per
/// pixel and top to bottom, are taken from `rgb565_data`.
pub fn write_bmp_rgb565(writer: &mut Vec<u8>, width: u32, height: u32, rgb565_data: &[u8]) -> (r: Result<(), Error>)
    requires
        width * 2 <= u32::MAX,
        width * 2 + 3 <= usize::MAX,
        stride16(width) * height + 66 <= usize::MAX,
        height > 0 ==> (height - 1) * width <= u32::MAX,
        height > 0 ==> width * height * 2 <= rgb565_data@.len(),
    ensures
        r is Ok,
        final(writer)@ == old(writer)@ + bmp_rgb565_file(width, height, rgb565_data@),
{
    let row_bytes = (width * 2) as usize;
    let stride = (row_bytes + 3) / 4 * 4;
    let data_size = stride * height as usize;
    let file_size = 66 + data_size;
    push_bmp_headers(writer, (file_size as u64 % 0x1_0000_0000) as u32, 66, width, height, 16, 3, (data_size as u64 % 0x1_0000_0000) as u32);
    let ghost a0 = writer@;
    push_u32_le(writer, 0xF800);
    push_u32_le(writer, 0x07E0);
    push_u32_le(writer, 0x001F);
    let ghost a1 = writer@;
    proof {
        assert(height * row_bytes <= rgb565_data@.len()) by (nonlinear_arith)
            requires
                row_bytes == width * 2,
                height > 0 ==> width * height * 2 <= rgb565_data@.len(),
        ;
    }
    push_rows_bottom_up(writer, rgb565_data, row_bytes, stride, height as usize);
    proof {
        let hd = bmp_headers(wrap32(66 + stride16(width) * height), 66, width, height, 16, 3, wrap32(stride16(width) * height));
        let m = le_bytes_u32(0xF800) + le_bytes_u32(0x07E0) + le_bytes_u32(0x001F);
        let rows = rows_bottom_up(rgb565_data@, width * 2, stride16(width), 0, height as int);
        assert(a1 =~= old(writer)@ + hd + m);
        lemma_concat_associative(old(writer)@, hd, m);
        lemma_concat_associative(old(writer)@, hd + m, rows);
    }
    Ok(())
}

/// Appends a 24-bit BMP without palette whose pixel rows, three bytes per pixel and top to
/// bottom, are taken from `data`.
pub fn write_bmp_rgb24(writer: &mut Vec<u8>, width: u32, height: u32, data: &[u8])
    requires
        width * 3 + 3 <= u32::MAX,
        stride24(width) * height + 54 <= usize::MAX,
        height > 0 ==> (height - 1) * width <= u32::MAX,
        height > 0 ==> width * height * 3 <= data@.len(),
    ensures
        final(writer)@ == old(writer)@ + bmp_rgb24_file(width, height, data@),
{
    let stride = ((width * 3 + 3) / 4 * 4) as usize;
    let data_size = stride * height as usize;
    let file_size = 54 + data_size;
    push_bmp_headers(writer, (file_size as u64 % 0x1_0000_0000) as u32, 54, width, height, 24, 0, (data_size as u64 % 0x1_0000_0000) as u32);
    let row_bytes = width as usize * 3;
    proof {
        assert(height * row_bytes <= data@.len()) by (nonlinear_arith)
            requires
                row_bytes == width * 3,
                height > 0 ==> width * height * 3 <= data@.len(),
        ;
    }
    push_rows_bottom_up(writer, data, row_bytes, stride, height as usize);
    proof {
        let hd = bmp_headers(wrap32(54 + stride24(width) * height), 54, width, height, 24, 0, wrap32(stride24(width) * height));
        let rows = rows_bottom_up(data@, width * 3, stride24(width), 0, height as int);
        lemma_concat_associative(old(writer)@, hd, rows);
    }
}

/// Appends a 32-bit BMP (BI_BITFIELDS with masks for red, green, blue and alpha) whose pixel
/// rows, four bytes per pixel and top to bottom, are taken from `data`.
pub fn write_bmp_bgra32(writer: &mut Vec<u8>, width: u32, height: u32, data: &[u8])
    requires
        width * 4 + 3 <= usize::MAX,
        stride32(width) * height + 70 <= usize::MAX,
        height > 0 ==> (height - 1) * width <= u32::MAX,
        height > 0 ==> width * height * 4 <= data@.len(),
    ensures
        final(writer)@ == old(writer)@ + bmp_bgra32_file(width, height, data@),
{
    let row_bytes = width as usize * 4;
    let stride = (row_bytes + 3) / 4 * 4;
    let data_size = stride * height as usize;
    let file_size = 70 + data_size;
    push_bmp_headers(writer, (file_size as u64 % 0x1_0000_0000) as u32, 70, width, height, 32, 3, (data_size as u64 % 0x1_0000_0000) as u32);
    let ghost a0 = writer@;
    push_u32_le(writer, 0x00FF0000);
    push_u32_le(writer, 0x0000FF00);
    push_u32_le(writer, 0x000000FF);
    push_u32_le(writer, 0xFF000000);
    proof {
        assert(height * row_bytes <= data@.len()) by (nonlinear_arith)
            requires
                row_bytes == width * 4,
                height > 0 ==> width * height * 4 <= data@.len(),
        ;
    }
    let ghost a1 = writer@;
    push_rows_bottom_up(writer, data, row_bytes, stride, height as usize);
    proof {
        let hd = bmp_headers(wrap32(70 + stride32(width) * height), 70, width, height, 32, 3, wrap32(stride32(width) * height));
        let m = le_bytes_u32(0x00FF0000) + le_bytes_u32(0x0000FF00) + le_bytes_u32(0x000000FF) + le_bytes_u32(0xFF000000);
        let rows = rows_bottom_up(data@, width * 4, stride32(width), 0, height as int);
        assert(a1 =~= old(writer)@ + hd + m);
        lemma_concat_associative(old(writer)@, hd, m);
        lemma_concat_associative(old(writer)@, hd + m, rows);
    }
}

} // verus!
