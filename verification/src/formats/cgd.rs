//! CGD images: a 20-byte header (`cgd\0`, then width and height at bytes 12 and 16)
//! followed by 32-bit pixels, four bytes per pixel, rows from the top. They are converted
//! to 32-bit BMP with colour masks.

use crate::bmp::{bmp_bgra32_file, stride32, write_bmp_bgra32};
use crate::error::Error;
use crate::{le_u32, read_span, read_u32_le, span, u32_at};
use vstd::prelude::*;

verus! {

/// The signature at the start of a CGD file.
pub open spec fn cgd_magic() -> Seq<u8> {
    seq![0x63u8, 0x67u8, 0x64u8, 0x00u8]
}

/// Width and height of a CGD file, or why its header cannot be read.
pub open spec fn cgd_header(data: Seq<u8>) -> Result<(u32, u32), Error> {
    match span(data, 0, 20) {
        None => Err(Error::UnexpectedEof),
        Some(h) => if h.take(4) != cgd_magic() {
            Err(Error::BadMagic)
        } else {
            Ok((u32_at(h, 12), u32_at(h, 16)))
        },
    }
}

/// Whether an image of these dimensions with `pixel_len` bytes of pixel data can be
/// converted: the sizes the BMP writer computes stay within their integer types, and the
/// pixel data holds every row.
pub open spec fn bgra32_fits(width: u32, height: u32, pixel_len: int) -> bool {
    &&& width * 4 + 3 <= usize::MAX
    &&& stride32(width) * height + 70 <= usize::MAX
    &&& height > 0 ==> (height - 1) * width <= u32::MAX
    &&& height > 0 ==> width * height * 4 <= pixel_len
}

/// Reads the width and height of a CGD file: `Error::UnexpectedEof` when the data is shorter
/// than the header, `Error::BadMagic` when it does not start with `cgd\0`.
pub fn parse_cgd(data: &[u8]) -> (r: Result<(u32, u32), Error>)
    ensures
        match cgd_header(data@) {
            Ok((w, h)) => r matches Ok((a, b)) && a == w && b == h,
            Err(x) => r matches Err(y) && y == x,
        },
        r is Ok <==> {
            &&& data@.len() >= 20
            &&& data@[0] == 0x63 && data@[1] == 0x67 && data@[2] == 0x64 && data@[3] == 0x00
        },
        r matches Ok((w, h)) ==> w == le_u32(data@.subrange(12, 16)) && h == le_u32(data@.subrange(16, 20)),
        data@.len() < 20 ==> (r matches Err(e) && e == Error::UnexpectedEof),
        data@.len() >= 20 && data@.take(4) != seq![0x63u8, 0x67u8, 0x64u8, 0x00u8] ==> (r matches Err(e) && e == Error::BadMagic),
{
    let header = read_span(data, 0, 20)?;
    proof {
        assert(header@.take(4) =~= data@.take(4));
    }
    if header[0] != 0x63 || header[1] != 0x67 || header[2] != 0x64 || header[3] != 0x00 {
        proof {
            if header@.take(4) == cgd_magic() {
                assert(header@.take(4)[0] == 0x63 && header@.take(4)[1] == 0x67);
                assert(header@.take(4)[2] == 0x64 && header@.take(4)[3] == 0x00);
            }
        }
        return Err(Error::BadMagic);
    }
    proof {
        assert(header@.take(4) =~= cgd_magic());
    }
    Ok((read_u32_le(&header.as_slice()[12..16]), read_u32_le(&header.as_slice()[16..20])))
}

/// Whether `bgra32_fits` holds.
pub fn bgra32_dimensions_fit(width: u32, height: u32, pixel_len: usize) -> (r: bool)
    ensures
        r == bgra32_fits(width, height, pixel_len as int),
{
    let w = width as u128;
    let h = height as u128;
    let stride = (w * 4 + 3) / 4 * 4;
    proof {
        assert(stride * h <= 0x4_0000_0000 * 0xFFFF_FFFF) by (nonlinear_arith)
            requires
                stride <= 0x4_0000_0000,
                h <= 0xFFFF_FFFF,
        ;
        assert(w * h <= 0xFFFF_FFFF * 0xFFFF_FFFF) by (nonlinear_arith)
            requires
                w <= 0xFFFF_FFFF,
                h <= 0xFFFF_FFFF,
        ;
        if h > 0 {
            assert((h - 1) * w <= w * h) by (nonlinear_arith)
                requires
                    h > 0,
            ;
        }
    }
    if w * 4 + 3 > usize::MAX as u128 || stride * h + 70 > usize::MAX as u128 {
        return false;
    }
    !(h > 0 && ((h - 1) * w > u32::MAX as u128 || w * h * 4 > pixel_len as u128))
}

/// The 32-bit BMP made of the pixels that follow the header of a CGD file of these
/// dimensions.
pub fn cgd_to_bmp(data: &[u8], width: u32, height: u32) -> (r: Vec<u8>)
    requires
        data@.len() >= 20,
        bgra32_fits(width, height, data@.len() - 20),
    ensures
        r@ == bmp_bgra32_file(width, height, data@.skip(20)),
{
    let pixels = &data[20..data.len()];
    proof {
        assert(pixels@ =~= data@.skip(20));
    }
    let mut out: Vec<u8> = Vec::new();
    write_bmp_bgra32(&mut out, width, height, pixels);
    proof {
        assert(Seq::<u8>::empty() + bmp_bgra32_file(width, height, pixels@) =~= bmp_bgra32_file(width, height, pixels@));
    }
    out
}

} // verus!
