//! HIZ images: a 12-byte header (width, height, compressed size) followed by LZSS-compressed
//! RGB565 pixels, two bytes per pixel, rows from the top. They are converted to 16-bit BMP.

use super::lzss_message;
use crate::bmp::{bmp_rgb565_file, stride16, write_bmp_rgb565};
use crate::error::Error;
use crate::lzss::{lzss_decode, lzss_decompress, LzssStop};
use crate::{le_u32, read_span, read_u32_le, span, u32_at};
use vstd::prelude::*;

verus! {

/// The header fields and compressed pixels of a HIZ file.
pub struct HizImage {
    pub width: u32,
    pub height: u32,
    pub compressed: Vec<u8>,
}

/// Width, height and compressed pixels of a HIZ file, or `Error::UnexpectedEof` when the
/// header or the compressed data lies past the end of the data.
pub open spec fn hiz_image(data: Seq<u8>) -> Result<(u32, u32, Seq<u8>), Error> {
    match span(data, 0, 12) {
        None => Err(Error::UnexpectedEof),
        Some(h) => match span(data, 12, u32_at(h, 8) as int) {
            None => Err(Error::UnexpectedEof),
            Some(c) => Ok((u32_at(h, 0), u32_at(h, 4), c)),
        },
    }
}

/// Whether an image of these dimensions can be converted: its pixel data size, and the
/// sizes the BMP writer computes, stay within their integer types.
pub open spec fn hiz_fits(width: u32, height: u32) -> bool {
    &&& width * height * 2 <= u32::MAX
    &&& width * 2 <= u32::MAX
    &&& width * 2 + 3 <= usize::MAX
    &&& stride16(width) * height + 66 <= usize::MAX
}

/// Reads the header and compressed pixels of a HIZ file.
pub fn parse_hiz(data: &[u8]) -> (r: Result<HizImage, Error>)
    ensures
        match hiz_image(data@) {
            Ok((w, h, c)) => r matches Ok(img) && img.width == w && img.height == h && img.compressed@ == c,
            Err(x) => r matches Err(y) && y == x,
        },
        r is Ok <==> data@.len() >= 12 && 12 + le_u32(data@.subrange(8, 12)) <= data@.len(),
        r matches Ok(img) ==> {
            &&& img.width == le_u32(data@.subrange(0, 4))
            &&& img.height == le_u32(data@.subrange(4, 8))
            &&& img.compressed@ == data@.subrange(12, 12 + le_u32(data@.subrange(8, 12)))
        },
{
    let header = read_span(data, 0, 12)?;
    let width = read_u32_le(&header.as_slice()[0..4]);
    let height = read_u32_le(&header.as_slice()[4..8]);
    let data_size = read_u32_le(&header.as_slice()[8..12]);
    let compressed = read_span(data, 12, data_size as u64)?;
    Ok(HizImage { width, height, compressed })
}

/// Whether `hiz_fits` holds.
pub fn hiz_dimensions_fit(width: u32, height: u32) -> (r: bool)
    ensures
        r == hiz_fits(width, height),
{
    let w = width as u128;
    let h = height as u128;
    proof {
        assert(w * h <= 0xFFFF_FFFF * 0xFFFF_FFFF) by (nonlinear_arith)
            requires
                w <= 0xFFFF_FFFF,
                h <= 0xFFFF_FFFF,
        ;
    }
    if w * h * 2 > u32::MAX as u128 || w * 2 > u32::MAX as u128 || w * 2 + 3 > usize::MAX as u128 {
        return false;
    }
    let stride = (w * 2 + 3) / 4 * 4;
    proof {
        assert(stride * h <= 0x1_0000_0004 * 0xFFFF_FFFF) by (nonlinear_arith)
            requires
                stride <= 0x1_0000_0004,
                h <= 0xFFFF_FFFF,
        ;
    }
    stride * h + 66 <= usize::MAX as u128
}

/// Decompresses the pixels of a HIZ image into `width * height * 2` bytes and returns the
/// 16-bit BMP file made of them; `Error::Decompress` with the decompressor's message when
/// decompression fails.
pub fn convert_hiz(img: &HizImage) -> (r: Result<Vec<u8>, Error>)
    requires
        hiz_fits(img.width, img.height),
    ensures
        ({
            let (prod, stop) = lzss_decode(img.compressed@, (img.width * img.height * 2) as nat);
            &&& stop == LzssStop::Filled ==> (r matches Ok(v) && v@ == bmp_rgb565_file(img.width, img.height, prod))
            &&& stop != LzssStop::Filled ==> r is Err && r->Err_0 is Decompress
                && r->Err_0->Decompress_0@ == lzss_message(stop)
        }),
{
    let expected = (img.width * img.height * 2) as usize;
    let mut raw: Vec<u8> = vec![0u8; expected];
    match lzss_decompress(raw.as_mut_slice(), img.compressed.as_slice()) {
        Ok(()) => {},
        Err(m) => return Err(Error::Decompress(m)),
    }
    let mut out: Vec<u8> = Vec::new();
    proof {
        if img.height > 0 {
            assert((img.height - 1) * img.width <= img.width * img.height) by (nonlinear_arith)
                requires
                    img.height > 0,
            ;
        }
    }
    let _ = write_bmp_rgb565(&mut out, img.width, img.height, raw.as_slice());
    proof {
        assert(Seq::<u8>::empty() + bmp_rgb565_file(img.width, img.height, raw@) =~= bmp_rgb565_file(img.width, img.height, raw@));
    }
    Ok(out)
}

} // verus!
