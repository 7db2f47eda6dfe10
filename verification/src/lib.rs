//! Readers and converters for visual-novel archive and image formats.
//!
//! Every reader works on the bytes of a whole file and hands back plain values; the
//! command-line program around the library does the file I/O.

pub mod bmp;
pub mod cp932;
pub mod error;
pub mod formats;
pub mod lzss;
pub mod text;

pub use error::Error;

use vstd::prelude::*;

verus! {

/// Value of the two bytes `b[0], b[1]` read as a little-endian number.
pub open spec fn le_u16(b: Seq<u8>) -> int {
    b[0] + 256 * b[1]
}

/// Value of the four bytes `b[0..4]` read as a little-endian number.
pub open spec fn le_u32(b: Seq<u8>) -> int {
    b[0] + 256 * b[1] + 65536 * b[2] + 16777216 * b[3]
}

/// The four bytes of `v` in little-endian order.
pub open spec fn le_bytes_u32(v: u32) -> Seq<u8> {
    seq![
        (v % 256) as u8,
        ((v / 256) % 256) as u8,
        ((v / 65536) % 256) as u8,
        (v / 16777216) as u8,
    ]
}

/// Little-endian `u32` found at byte `at` of `data`.
pub open spec fn u32_at(data: Seq<u8>, at: int) -> u32 {
    le_u32(data.subrange(at, at + 4)) as u32
}

/// The `n` bytes of `data` from `at` on, or `None` when `data` is shorter than that.
pub open spec fn span(data: Seq<u8>, at: int, n: int) -> Option<Seq<u8>> {
    if 0 <= at && 0 <= n && at + n <= data.len() {
        Some(data.subrange(at, at + n))
    } else {
        None
    }
}

/// `data` from position `at` on (empty when `at` is past its end).
pub open spec fn rest_from(data: Seq<u8>, at: int) -> Seq<u8> {
    if at <= data.len() {
        data.skip(at)
    } else {
        Seq::empty()
    }
}

/// Size of the blocks in which `copy_data` moves bytes.
pub const COPY_BLOCK: u64 = 8192;

/// How many bytes `copy_data` hands on when `avail` bytes can be read and `size` are
/// asked for: all of them when enough are there, else every whole block that could be read.
pub open spec fn copied_len(avail: nat, size: nat) -> nat {
    if avail >= size {
        size
    } else {
        ((avail / (COPY_BLOCK as nat)) * (COPY_BLOCK as nat)) as nat
    }
}

/// Reads a little-endian `u32` from the first four bytes of `bytes`.
pub fn read_u32_le(bytes: &[u8]) -> (r: u32)
    requires
        bytes@.len() >= 4,
    ensures
        r == le_u32(bytes@),
        r % 256 == bytes@[0],
        (r / 256) % 256 == bytes@[1],
        (r / 65536) % 256 == bytes@[2],
        r / 16777216 == bytes@[3],
{
    let r = bytes[0] as u32 + bytes[1] as u32 * 256 + bytes[2] as u32 * 65536 + bytes[3] as u32 * 16777216;
    proof {
        let (b0, b1, b2, b3) = (bytes@[0] as int, bytes@[1] as int, bytes@[2] as int, bytes@[3] as int);
        assert(r % 256 == b0 && (r / 256) % 256 == b1 && (r / 65536) % 256 == b2 && r / 16777216 == b3) by (nonlinear_arith)
            requires
                r == b0 + 256 * b1 + 65536 * b2 + 16777216 * b3,
                0 <= b0 < 256,
                0 <= b1 < 256,
                0 <= b2 < 256,
                0 <= b3 < 256,
        ;
    }
    r
}

/// Reads a little-endian `u16` from the first two bytes of `bytes`.
pub fn read_u16_le(bytes: &[u8]) -> (r: u16)
    requires
        bytes@.len() >= 2,
    ensures
        r == le_u16(bytes@),
        r % 256 == bytes@[0],
        r / 256 == bytes@[1],
{
    bytes[0] as u16 + bytes[1] as u16 * 256
}

/// Whether `data` starts with `magic`.
pub fn check_magic(data: &[u8], magic: &[u8]) -> (r: bool)
    ensures
        r == (data@.len() >= magic@.len() && data@.take(magic@.len() as int) == magic@),
{
    if data.len() < magic.len() {
        return false;
    }
    let mut i: usize = 0;
    while i < magic.len()
        invariant
            i <= magic@.len() <= data@.len(),
            forall|j: int| 0 <= j < i ==> data@[j] == magic@[j],
        decreases magic@.len() - i,
    {
        if data[i] != magic[i] {
            proof {
                assert(data@.take(magic@.len() as int)[i as int] != magic@[i as int]);
            }
            return false;
        }
        i = i + 1;
    }
    proof {
        assert(data@.take(magic@.len() as int) =~= magic@);
    }
    true
}

/// Appends `src[from..to]` to `out`.
pub(crate) fn append_range(out: &mut Vec<u8>, src: &[u8], from: usize, to: usize)
    requires
        from <= to <= src@.len(),
    ensures
        final(out)@ == old(out)@ + src@.subrange(from as int, to as int),
{
    let mut i = from;
    while i < to
        invariant
            from <= i <= to <= src@.len(),
            out@ == old(out)@ + src@.subrange(from as int, i as int),
        decreases to - i,
    {
        out.push(src[i]);
        proof {
            assert(src@.subrange(from as int, i + 1) =~= src@.subrange(from as int, i as int).push(src@[i as int]));
        }
        i = i + 1;
    }
}

/// Reads `n` bytes of `data` starting at `at`, as a file read past its end would fail.
pub(crate) fn read_span(data: &[u8], at: u64, n: u64) -> (r: Result<Vec<u8>, Error>)
    ensures
        match span(data@, at as int, n as int) {
            Some(s) => r matches Ok(v) && v@ == s,
            None => r == Err::<Vec<u8>, Error>(Error::UnexpectedEof),
        },
{
    let len = data.len() as u64;
    if at > len || n > len - at {
        return Err(Error::UnexpectedEof);
    }
    let mut v: Vec<u8> = Vec::new();
    append_range(&mut v, data, at as usize, (at + n) as usize);
    proof {
        assert(Seq::<u8>::empty() + data@.subrange(at as int, at + n) =~= data@.subrange(at as int, at + n));
    }
    Ok(v)
}

/// Copies `size` bytes read from `reader` into `writer`, in blocks of `COPY_BLOCK` bytes.
/// When `reader` holds fewer than `size` bytes, the blocks read in full before the shortfall
/// are written and `Err(Error::UnexpectedEof)` is returned.
pub fn copy_data(reader: &[u8], writer: &mut Vec<u8>, size: u64) -> (r: Result<(), Error>)
    ensures
        r is Ok <==> reader@.len() >= size,
        r is Err ==> r == Err::<(), Error>(Error::UnexpectedEof),
        final(writer)@ == old(writer)@ + reader@.take(copied_len(reader@.len(), size as nat) as int),
        reader@.len() >= size ==> final(writer)@ == old(writer)@ + reader@.take(size as int),
        reader@.len() < size ==> old(writer)@.len() <= final(writer)@.len() <= old(writer)@.len() + reader@.len(),
{
    let mut remaining = size;
    let mut pos: usize = 0;
    let ghost avail = reader@.len();
    while remaining > 0
        invariant
            pos + remaining == size,
            pos <= avail,
            avail == reader@.len(),
            pos % 8192 == 0 || remaining == 0,
            writer@ == old(writer)@ + reader@.take(pos as int),
        decreases remaining,
    {
        let to_read = if remaining < COPY_BLOCK { remaining } else { COPY_BLOCK };
        if to_read > (reader.len() - pos) as u64 {
            proof {
                assert((avail / 8192) * 8192 == pos) by (nonlinear_arith)
                    requires
                        pos % 8192 == 0,
                        pos <= avail < pos + 8192,
                ;
            }
            return Err(Error::UnexpectedEof);
        }
        let end = pos + to_read as usize;
        let ghost before = writer@;
        append_range(writer, reader, pos, end);
        proof {
            assert(reader@.take(end as int) =~= reader@.take(pos as int) + reader@.subrange(pos as int, end as int));
            assert(before + reader@.subrange(pos as int, end as int) =~= old(writer)@ + reader@.take(end as int));
        }
        pos = end;
        remaining = remaining - to_read;
    }
    Ok(())
}

} // verus!
