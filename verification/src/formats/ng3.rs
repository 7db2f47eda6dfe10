//! NG3 images: a 12-byte header (`NG3\0`, width, height), a 256-colour palette of three
//! bytes per colour, then run-length coded pixels. A code byte 1 is followed by a skipped
//! byte and a palette index, 2 by a skipped byte, a palette index and a repeat count, and
//! anything else is itself followed by three bytes of a colour given directly. They are
//! converted to 24-bit BMP.

use crate::bmp::{bmp_rgb24_file, stride24, write_bmp_rgb24};
use crate::error::Error;
use crate::{le_u32, read_span, read_u32_le, span, u32_at};
use vstd::prelude::*;

verus! {

/// The signature at the start of an NG3 file.
pub open spec fn ng3_magic() -> Seq<u8> {
    seq![0x4Eu8, 0x47u8, 0x33u8, 0x00u8]
}

/// Width and height of an NG3 file, or why its header cannot be read.
pub open spec fn ng3_header(data: Seq<u8>) -> Result<(u32, u32), Error> {
    match span(data, 0, 12) {
        None => Err(Error::UnexpectedEof),
        Some(h) => if h.take(4) != ng3_magic() {
            Err(Error::BadMagic)
        } else {
            Ok((u32_at(h, 4), u32_at(h, 8)))
        },
    }
}

/// An NG3 header that reads successfully is the bytes `NG3\0` followed by the width, the
/// little-endian word at bytes 4..8, and the height, the one at bytes 8..12.
pub proof fn lemma_ng3_header_layout(data: Seq<u8>)
    ensures
        ng3_header(data) matches Ok((w, h)) ==> {
            &&& data.len() >= 12
            &&& data[0] == 0x4E && data[1] == 0x47 && data[2] == 0x33 && data[3] == 0x00
            &&& w == le_u32(data.subrange(4, 8))
            &&& h == le_u32(data.subrange(8, 12))
        },
{
    if let Ok((w, h)) = ng3_header(data) {
        let hd = data.subrange(0, 12);
        assert(hd.take(4)[0] == data[0] && hd.take(4)[1] == data[1]);
        assert(hd.take(4)[2] == data[2] && hd.take(4)[3] == data[3]);
        assert(hd.subrange(4, 8) =~= data.subrange(4, 8));
        assert(hd.subrange(8, 12) =~= data.subrange(8, 12));
    }
}

/// The three palette bytes of colour `idx`.
pub open spec fn palette_color(palette: Seq<u8>, idx: u8) -> Seq<u8> {
    palette.subrange(3 * idx, 3 * idx + 3)
}

/// `n` copies of `c`.
pub open spec fn repeat_color(c: Seq<u8>, n: nat) -> Seq<u8>
    decreases n,
{
    if n == 0 {
        Seq::empty()
    } else {
        repeat_color(c, (n - 1) as nat) + c
    }
}

/// The smaller of two integers.
pub open spec fn min_int(a: int, b: int) -> int {
    if a <= b { a } else { b }
}

/// Decoding pixel codes from `pos` on, with `written` of `total` pixels decoded into `acc`:
/// the pixel bytes of the whole image, or `Error::UnexpectedEof` when the codes end first.
pub open spec fn ng3_run(data: Seq<u8>, palette: Seq<u8>, pos: int, written: int, total: int, acc: Seq<u8>) -> Result<Seq<u8>, Error>
    decreases data.len() - pos,
{
    if written >= total {
        Ok(acc)
    } else if pos < 0 || pos >= data.len() {
        Err(Error::UnexpectedEof)
    } else if data[pos] == 1 {
        if pos + 3 > data.len() {
            Err(Error::UnexpectedEof)
        } else {
            ng3_run(data, palette, pos + 3, written + 1, total, acc + palette_color(palette, data[pos + 2]))
        }
    } else if data[pos] == 2 {
        if pos + 4 > data.len() {
            Err(Error::UnexpectedEof)
        } else {
            let n = min_int(data[pos + 3] as int, total - written);
            ng3_run(data, palette, pos + 4, written + n, total, acc + repeat_color(palette_color(palette, data[pos + 2]), n as nat))
        }
    } else if pos + 4 > data.len() {
        Err(Error::UnexpectedEof)
    } else {
        ng3_run(data, palette, pos + 4, written + 1, total, acc + seq![data[pos + 3], data[pos + 2], data[pos + 1]])
    }
}

/// The pixel bytes of an image of `total` pixels, three per pixel, rows from the top.
pub open spec fn ng3_pixels(data: Seq<u8>, palette: Seq<u8>, total: int) -> Result<Seq<u8>, Error> {
    ng3_run(data, palette, 780, 0, total, Seq::empty())
}

/// A successful decoding adds three bytes per pixel still to be decoded.
pub proof fn lemma_ng3_len(data: Seq<u8>, palette: Seq<u8>, pos: int, written: int, total: int, acc: Seq<u8>)
    requires
        written <= total,
        palette.len() == 768,
    ensures
        ng3_run(data, palette, pos, written, total, acc) matches Ok(r) ==> r.len() == acc.len() + 3 * (total - written),
    decreases data.len() - pos,
{
    if written >= total {
    } else if pos < 0 || pos >= data.len() {
    } else if data[pos] == 1 {
        if pos + 3 <= data.len() {
            lemma_ng3_len(data, palette, pos + 3, written + 1, total, acc + palette_color(palette, data[pos + 2]));
        }
    } else if data[pos] == 2 {
        if pos + 4 <= data.len() {
            let n = min_int(data[pos + 3] as int, total - written);
            let c = palette_color(palette, data[pos + 2]);
            lemma_repeat_len(c, n as nat);
            assert(c.len() == 3);
            assert(repeat_color(c, n as nat).len() == 3 * n) by (nonlinear_arith)
                requires
                    repeat_color(c, n as nat).len() == c.len() * n,
                    c.len() == 3,
            ;
            lemma_ng3_len(data, palette, pos + 4, written + n, total, acc + repeat_color(palette_color(palette, data[pos + 2]), n as nat));
        }
    } else if pos + 4 <= data.len() {
        lemma_ng3_len(data, palette, pos + 4, written + 1, total, acc + seq![data[pos + 3], data[pos + 2], data[pos + 1]]);
    }
}

proof fn lemma_ng3_palette_codes_from(data: Seq<u8>, palette: Seq<u8>, j: int, total: int)
    requires
        palette.len() == 768,
        0 <= j <= total,
        780 + 3 * total <= data.len(),
        forall|i: int| 0 <= i < total ==> #[trigger] data[780 + 3 * i] == 1u8,
    ensures
        ng3_run(data, palette, 780 + 3 * j, j, total, Seq::new((3 * j) as nat, |b: int| palette[3 * data[780 + 3 * (b / 3) + 2] + b % 3]))
            == Ok::<Seq<u8>, Error>(Seq::new((3 * total) as nat, |b: int| palette[3 * data[780 + 3 * (b / 3) + 2] + b % 3])),
    decreases total - j,
{
    if j < total {
        let acc = Seq::new((3 * j) as nat, |b: int| palette[3 * data[780 + 3 * (b / 3) + 2] + b % 3]);
        let next = Seq::new((3 * (j + 1)) as nat, |b: int| palette[3 * data[780 + 3 * (b / 3) + 2] + b % 3]);
        assert(data[780 + 3 * j] == 1u8);
        let c = palette_color(palette, data[780 + 3 * j + 2]);
        assert forall|b: int| 0 <= b < next.len() implies #[trigger] (acc + c)[b] == next[b] by {
            if b >= 3 * j {
                assert(b / 3 == j);
                assert(b % 3 == b - 3 * j);
            }
        }
        assert(acc + c =~= next);
        assert(780 + 3 * (j + 1) == 780 + 3 * j + 3);
        lemma_ng3_palette_codes_from(data, palette, j + 1, total);
    }
}

/// Pixel codes that are all `1`, three bytes each, give pixel `i` the palette colour that the
/// third byte of code `i` names.
pub proof fn lemma_ng3_palette_codes(data: Seq<u8>, palette: Seq<u8>, total: int)
    requires
        palette.len() == 768,
        0 <= total,
        780 + 3 * total <= data.len(),
        forall|i: int| 0 <= i < total ==> #[trigger] data[780 + 3 * i] == 1u8,
    ensures
        ng3_pixels(data, palette, total)
            == Ok::<Seq<u8>, Error>(Seq::new((3 * total) as nat, |b: int| palette[3 * data[780 + 3 * (b / 3) + 2] + b % 3])),
{
    assert(Seq::new((3 * 0) as nat, |b: int| palette[3 * data[780 + 3 * (b / 3) + 2] + b % 3]) =~= Seq::<u8>::empty());
    lemma_ng3_palette_codes_from(data, palette, 0, total);
}

proof fn lemma_ng3_direct_codes_from(data: Seq<u8>, palette: Seq<u8>, j: int, total: int)
    requires
        0 <= j <= total,
        780 + 4 * total <= data.len(),
        forall|i: int| 0 <= i < total ==> #[trigger] data[780 + 4 * i] != 1u8 && data[780 + 4 * i] != 2u8,
    ensures
        ng3_run(data, palette, 780 + 4 * j, j, total, Seq::new((3 * j) as nat, |b: int| data[780 + 4 * (b / 3) + 3 - b % 3]))
            == Ok::<Seq<u8>, Error>(Seq::new((3 * total) as nat, |b: int| data[780 + 4 * (b / 3) + 3 - b % 3])),
    decreases total - j,
{
    if j < total {
        let acc = Seq::new((3 * j) as nat, |b: int| data[780 + 4 * (b / 3) + 3 - b % 3]);
        let next = Seq::new((3 * (j + 1)) as nat, |b: int| data[780 + 4 * (b / 3) + 3 - b % 3]);
        let pos = 780 + 4 * j;
        assert(data[pos] != 1u8 && data[pos] != 2u8);
        let c = seq![data[pos + 3], data[pos + 2], data[pos + 1]];
        assert forall|b: int| 0 <= b < next.len() implies #[trigger] (acc + c)[b] == next[b] by {
            if b >= 3 * j {
                assert(b / 3 == j);
                assert(b % 3 == b - 3 * j);
            }
        }
        assert(acc + c =~= next);
        assert(780 + 4 * (j + 1) == pos + 4);
        lemma_ng3_direct_codes_from(data, palette, j + 1, total);
    }
}

/// Pixel codes that are neither `1` nor `2`, four bytes each, give pixel `i` the colour that
/// the last three bytes of code `i` hold, written in reverse order.
pub proof fn lemma_ng3_direct_codes(data: Seq<u8>, palette: Seq<u8>, total: int)
    requires
        0 <= total,
        780 + 4 * total <= data.len(),
        forall|i: int| 0 <= i < total ==> #[trigger] data[780 + 4 * i] != 1u8 && data[780 + 4 * i] != 2u8,
    ensures
        ng3_pixels(data, palette, total)
            == Ok::<Seq<u8>, Error>(Seq::new((3 * total) as nat, |b: int| data[780 + 4 * (b / 3) + 3 - b % 3])),
{
    assert(Seq::new((3 * 0) as nat, |b: int| data[780 + 4 * (b / 3) + 3 - b % 3]) =~= Seq::<u8>::empty());
    lemma_ng3_direct_codes_from(data, palette, 0, total);
}

proof fn lemma_repeat_color_at(c: Seq<u8>, n: nat, b: int)
    requires
        c.len() == 3,
        0 <= b < 3 * n,
    ensures
        repeat_color(c, n).len() == 3 * n,
        repeat_color(c, n)[b] == c[b % 3],
    decreases n,
{
    let m = (n - 1) as nat;
    lemma_repeat_len(c, m);
    assert(c.len() * m == 3 * m) by (nonlinear_arith)
        requires
            c.len() == 3,
    ;
    if b < 3 * m {
        lemma_repeat_color_at(c, m, b);
    } else {
        assert(b % 3 == b - 3 * m);
    }
}

/// A single run code `2` whose count covers the whole image fills it with the palette
/// colour that its third byte names.
pub proof fn lemma_ng3_single_run(data: Seq<u8>, palette: Seq<u8>, total: int)
    requires
        palette.len() == 768,
        0 < total <= data[783],
        784 <= data.len(),
        data[780] == 2u8,
    ensures
        ng3_pixels(data, palette, total)
            == Ok::<Seq<u8>, Error>(Seq::new((3 * total) as nat, |b: int| palette[3 * data[782] + b % 3])),
{
    let c = palette_color(palette, data[782]);
    let n = min_int(data[783] as int, total);
    assert(n == total);
    let r = Seq::<u8>::empty() + repeat_color(c, n as nat);
    assert(ng3_run(data, palette, 780, 0, total, Seq::empty()) == ng3_run(data, palette, 784, total, total, r));
    assert forall|b: int| 0 <= b < 3 * total implies #[trigger] r[b] == palette[3 * data[782] + b % 3] by {
        lemma_repeat_color_at(c, n as nat, b);
    }
    lemma_repeat_len(c, n as nat);
    assert(c.len() * n == 3 * total) by (nonlinear_arith)
        requires
            c.len() == 3,
            n == total,
    ;
    assert(r =~= Seq::new((3 * total) as nat, |b: int| palette[3 * data[782] + b % 3]));
}

proof fn lemma_repeat_len(c: Seq<u8>, n: nat)
    ensures
        repeat_color(c, n).len() == c.len() * n,
    decreases n,
{
    if n > 0 {
        let m = (n - 1) as nat;
        lemma_repeat_len(c, m);
        assert(c.len() * n == c.len() * m + c.len()) by (nonlinear_arith)
            requires
                m + 1 == n,
        ;
    } else {
        assert(c.len() * n == 0) by (nonlinear_arith)
            requires
                n == 0,
        ;
    }
}

/// The header fields and palette of an NG3 file.
pub struct Ng3Image {
    pub width: u32,
    pub height: u32,
    pub palette: Vec<u8>,
}

/// Reads the header and the palette: `Error::UnexpectedEof` when either lies past the end
/// of the data, `Error::BadMagic` when the data does not start with `NG3\0`.
pub fn parse_ng3(data: &[u8]) -> (r: Result<Ng3Image, Error>)
    ensures
        match ng3_header(data@) {
            Err(x) => r matches Err(y) && y == x,
            Ok((w, h)) => match span(data@, 12, 768) {
                None => r matches Err(y) && y == Error::UnexpectedEof,
                Some(p) => r matches Ok(img) && img.width == w && img.height == h && img.palette@ == p,
            },
        },
        r is Ok <==> {
            &&& data@.len() >= 780
            &&& data@[0] == 0x4E && data@[1] == 0x47 && data@[2] == 0x33 && data@[3] == 0x00
        },
        r matches Ok(img) ==> {
            &&& data@.len() >= 780
            &&& img.width == le_u32(data@.subrange(4, 8))
            &&& img.height == le_u32(data@.subrange(8, 12))
            &&& img.palette@ == data@.subrange(12, 780)
        },
        data@.len() < 12 ==> (r matches Err(e) && e == Error::UnexpectedEof),
        data@.len() >= 12 && data@.take(4) != seq![0x4Eu8, 0x47u8, 0x33u8, 0x00u8] ==> (r matches Err(e) && e == Error::BadMagic),
{
    let header = read_span(data, 0, 12)?;
    proof {
        assert(header@.take(4) =~= data@.take(4));
    }
    if header[0] != 0x4E || header[1] != 0x47 || header[2] != 0x33 || header[3] != 0x00 {
        proof {
            if header@.take(4) == ng3_magic() {
                assert(header@.take(4)[0] == 0x4E && header@.take(4)[1] == 0x47);
                assert(header@.take(4)[2] == 0x33 && header@.take(4)[3] == 0x00);
            }
        }
        return Err(Error::BadMagic);
    }
    proof {
        assert(header@.take(4) =~= ng3_magic());
    }
    let width = read_u32_le(&header.as_slice()[4..8]);
    let height = read_u32_le(&header.as_slice()[8..12]);
    let palette = read_span(data, 12, 768)?;
    Ok(Ng3Image { width, height, palette })
}

/// Whether the pixel count `width * height` fits in 32 bits.
pub fn pixel_count_fits(width: u32, height: u32) -> (r: bool)
    ensures
        r == (width * height <= u32::MAX),
{
    let w = width as u64;
    let h = height as u64;
    proof {
        assert(w * h <= 0xFFFF_FFFF * 0xFFFF_FFFF) by (nonlinear_arith)
            requires
                w <= 0xFFFF_FFFF,
                h <= 0xFFFF_FFFF,
        ;
    }
    w * h <= u32::MAX as u64
}

/// Appends the palette colour `idx`.
fn push_color(out: &mut Vec<u8>, palette: &Vec<u8>, idx: u8)
    requires
        palette@.len() == 768,
    ensures
        final(out)@ == old(out)@ + palette_color(palette@, idx),
{
    let at = 3 * idx as usize;
    out.push(palette[at]);
    out.push(palette[at + 1]);
    out.push(palette[at + 2]);
    proof {
        assert(final(out)@ =~= old(out)@ + palette_color(palette@, idx));
    }
}

/// Decodes the pixel codes that follow the palette into three bytes per pixel, rows from
/// the top: `Error::UnexpectedEof` when the codes end before `width * height` pixels.
pub fn decode_ng3_pixels(data: &[u8], img: &Ng3Image) -> (r: Result<Vec<u8>, Error>)
    requires
        img.width * img.height <= u32::MAX,
        img.palette@.len() == 768,
    ensures
        match ng3_pixels(data@, img.palette@, img.width * img.height) {
            Ok(p) => r matches Ok(v) && v@ == p && v@.len() == 3 * img.width * img.height,
            Err(x) => r matches Err(y) && y == x,
        },
{
    let total = (img.width * img.height) as usize;
    let ghost pal = img.palette@;
    let mut rgb: Vec<u8> = Vec::new();
    let mut written: usize = 0;
    let mut pos: usize = 780;
    proof {
        lemma_ng3_len(data@, pal, 780, 0, total as int, Seq::empty());
        assert(3 * total == 3 * img.width * img.height) by (nonlinear_arith)
            requires
                total == img.width * img.height,
        ;
    }
    while written < total
        invariant
            written <= total,
            total == img.width * img.height,
            pal == img.palette@,
            pal.len() == 768,
            ng3_run(data@, pal, pos as int, written as int, total as int, rgb@) == ng3_pixels(data@, pal, total as int),
        decreases data@.len() - pos,
    {
        if pos >= data.len() {
            return Err(Error::UnexpectedEof);
        }
        let c = data[pos];
        if c == 1 {
            if data.len() - pos < 3 {
                return Err(Error::UnexpectedEof);
            }
            push_color(&mut rgb, &img.palette, data[pos + 2]);
            written = written + 1;
            pos = pos + 3;
        } else if c == 2 {
            if data.len() - pos < 4 {
                return Err(Error::UnexpectedEof);
            }
            let idx = data[pos + 2];
            let count = data[pos + 3] as usize;
            let ghost acc0 = rgb@;
            let ghost w0 = written;
            let ghost n = min_int(count as int, total - w0);
            let mut k: usize = 0;
            while k < count && written < total
                invariant
                    k <= count,
                    written == w0 + k,
                    written <= total,
                    pal == img.palette@,
                    pal.len() == 768,
                    rgb@ == acc0 + repeat_color(palette_color(pal, idx), k as nat),
                decreases count - k,
            {
                let ghost before = rgb@;
                push_color(&mut rgb, &img.palette, idx);
                proof {
                    vstd::seq_lib::lemma_concat_associative(acc0, repeat_color(palette_color(pal, idx), k as nat), palette_color(pal, idx));
                }
                written = written + 1;
                k = k + 1;
            }
            assert(k == n);
            pos = pos + 4;
        } else {
            if data.len() - pos < 4 {
                return Err(Error::UnexpectedEof);
            }
            let ghost before = rgb@;
            rgb.push(data[pos + 3]);
            rgb.push(data[pos + 2]);
            rgb.push(data[pos + 1]);
            proof {
                assert(rgb@ =~= before + seq![data@[pos + 3], data@[pos + 2], data@[pos + 1]]);
            }
            written = written + 1;
            pos = pos + 4;
        }
    }
    Ok(rgb)
}

/// Whether the 24-bit BMP writer can take an image of these dimensions: its row and data
/// sizes stay within their integer types.
pub open spec fn rgb24_fits(width: u32, height: u32) -> bool {
    &&& width * 3 + 3 <= u32::MAX
    &&& stride24(width) * height + 54 <= usize::MAX
}

/// Whether `rgb24_fits` holds.
pub fn rgb24_dimensions_fit(width: u32, height: u32) -> (r: bool)
    ensures
        r == rgb24_fits(width, height),
{
    let w = width as u128;
    let h = height as u128;
    if w * 3 + 3 > u32::MAX as u128 {
        return false;
    }
    let stride = (w * 3 + 3) / 4 * 4;
    proof {
        assert(stride * h <= 0xFFFF_FFFF * 0xFFFF_FFFF) by (nonlinear_arith)
            requires
                stride <= 0xFFFF_FFFF,
                h <= 0xFFFF_FFFF,
        ;
    }
    stride * h + 54 <= usize::MAX as u128
}

/// The 24-bit BMP made of decoded NG3 pixels.
pub fn ng3_to_bmp(width: u32, height: u32, rgb: &[u8]) -> (r: Vec<u8>)
    requires
        width * height <= u32::MAX,
        rgb24_fits(width, height),
        rgb@.len() == 3 * width * height,
    ensures
        r@ == bmp_rgb24_file(width, height, rgb@),
{
    let mut out: Vec<u8> = Vec::new();
    proof {
        if height > 0 {
            assert((height - 1) * width <= width * height) by (nonlinear_arith)
                requires
                    height > 0,
            ;
        }
        assert(width * height * 3 == 3 * width * height) by (nonlinear_arith);
    }
    write_bmp_rgb24(&mut out, width, height, rgb);
    proof {
        assert(Seq::<u8>::empty() + bmp_rgb24_file(width, height, rgb@) =~= bmp_rgb24_file(width, height, rgb@));
    }
    out
}

} // verus!
