//! Cromwell `Graphic PackData` archives: a 20-byte header (the 16-byte signature, member
//! count) followed by 20-byte records (12-byte NUL-padded name, offset, unpacked size).
//! A member runs from its offset to the next member's offset, or to the end of the file
//! for the last one; it is stored as is when that length equals its unpacked size, and
//! zlib-compressed otherwise.

use super::{lemma_records_fail, lemma_records_ok, lemma_records_ok_iff, lossy_name, read_lossy_name, records_upto};
use crate::error::Error;
use crate::{check_magic, le_u32, read_span, read_u32_le, span, u32_at};
use flate2::read::ZlibDecoder;
use std::io::Read;
use vstd::prelude::*;

verus! {

/// What inflating the zlib stream `data` to its end gives, or `None` where that fails.
pub uninterp spec fn zlib_inflated(data: Seq<u8>) -> Option<Seq<u8>>;

/// Calls `Read::read_to_end` on a `flate2::read::ZlibDecoder` over the bytes.
/// Trusted: the bytes read are `zlib_inflated` of the input when the call succeeds, and the
/// call fails exactly where `zlib_inflated` is `None`.
#[verifier::external_body]
fn inflate_zlib(data: &[u8]) -> (r: Option<Vec<u8>>)
    ensures
        r.is_some() == zlib_inflated(data@).is_some(),
        r.is_some() ==> zlib_inflated(data@) == Some(r.unwrap()@),
{
    let mut out = Vec::new();
    match ZlibDecoder::new(data).read_to_end(&mut out) {
        Ok(_) => Some(out),
        Err(_) => None,
    }
}

/// A member of a `Graphic PackData` archive.
pub struct PakEntry {
    pub filename: String,
    pub offset: u32,
    pub compressed_size: u64,
    pub uncompressed_size: u32,
}

impl View for PakEntry {
    /// File name, offset, stored length and unpacked size.
    type V = (Seq<char>, u32, u64, u32);

    open spec fn view(&self) -> (Seq<char>, u32, u64, u32) {
        (self.filename@, self.offset, self.compressed_size, self.uncompressed_size)
    }
}

/// The views of a run of entries.
pub open spec fn pak_views(v: Seq<PakEntry>) -> Seq<(Seq<char>, u32, u64, u32)> {
    v.map_values(|e: PakEntry| e@)
}

/// The 16-byte signature `Graphic PackData`.
pub open spec fn pak_magic() -> Seq<u8> {
    seq![
        0x47u8, 0x72u8, 0x61u8, 0x70u8, 0x68u8, 0x69u8, 0x63u8, 0x20u8,
        0x50u8, 0x61u8, 0x63u8, 0x6Bu8, 0x44u8, 0x61u8, 0x74u8, 0x61u8,
    ]
}

/// The member count, or why the header cannot be read.
pub open spec fn pak_count(data: Seq<u8>) -> Result<u32, Error> {
    match span(data, 0, 20) {
        None => Err(Error::UnexpectedEof),
        Some(h) => if h.take(16) == pak_magic() {
            Ok(u32_at(h, 16))
        } else {
            Err(Error::BadMagic)
        },
    }
}

/// Record `i` of the index, with its stored length not yet known (zero).
pub open spec fn pak_record(data: Seq<u8>, i: int) -> Result<(Seq<char>, u32, u64, u32), Error> {
    match span(data, 20 + 20 * i, 20) {
        None => Err(Error::UnexpectedEof),
        Some(b) => Ok((lossy_name(b.take(12)), u32_at(b, 12), 0u64, u32_at(b, 16))),
    }
}

/// The records of the index, or the first error met reading them.
pub open spec fn pak_index(data: Seq<u8>) -> Result<Seq<(Seq<char>, u32, u64, u32)>, Error> {
    match pak_count(data) {
        Err(e) => Err(e),
        Ok(n) => records_upto(|i: int| pak_record(data, i), n as int),
    }
}

/// Where member `i` ends: the next member's offset, or the end of the file.
pub open spec fn pak_end(entries: Seq<(Seq<char>, u32, u64, u32)>, file_len: int, i: int) -> int {
    if i + 1 < entries.len() {
        entries[i + 1].1 as int
    } else {
        file_len
    }
}

/// Whether every member ends at or after its offset, so that its length is defined.
pub open spec fn pak_ends_ordered(entries: Seq<(Seq<char>, u32, u64, u32)>, file_len: int) -> bool {
    forall|i: int| 0 <= i < entries.len() ==> entries[i].1 <= #[trigger] pak_end(entries, file_len, i)
}

/// A `Graphic PackData` index that reads successfully starts with the 16-byte signature,
/// holds as many members as the word at bytes 16..20 says, and member `i` is the 20-byte
/// record at byte `20 + 20 * i`: its name is the whole first 12 bytes (decoded lossily,
/// trailing NULs removed), its offset and unpacked size the next two little-endian words.
pub proof fn lemma_pak_layout(data: Seq<u8>)
    ensures
        pak_index(data) matches Ok(v) ==> {
            &&& data.len() >= 20
            &&& data.take(16) == seq![
                0x47u8, 0x72u8, 0x61u8, 0x70u8, 0x68u8, 0x69u8, 0x63u8, 0x20u8,
                0x50u8, 0x61u8, 0x63u8, 0x6Bu8, 0x44u8, 0x61u8, 0x74u8, 0x61u8,
            ]
            &&& v.len() == le_u32(data.subrange(16, 20))
            &&& forall|i: int| 0 <= i < v.len() ==> {
                let at = 20 + 20 * i;
                &&& at + 20 <= data.len()
                &&& (#[trigger] v[i]).0 == lossy_name(data.subrange(at, at + 12))
                &&& v[i].1 == le_u32(data.subrange(at + 12, at + 16))
                &&& v[i].2 == 0
                &&& v[i].3 == le_u32(data.subrange(at + 16, at + 20))
            }
        },
{
    if let Ok(v) = pak_index(data) {
        let h = data.subrange(0, 20);
        assert(h.take(16) =~= data.take(16));
        assert(pak_magic() =~= seq![
            0x47u8, 0x72u8, 0x61u8, 0x70u8, 0x68u8, 0x69u8, 0x63u8, 0x20u8,
            0x50u8, 0x61u8, 0x63u8, 0x6Bu8, 0x44u8, 0x61u8, 0x74u8, 0x61u8,
        ]);
        let f = |i: int| pak_record(data, i);
        lemma_records_ok(f, u32_at(h, 16) as int);
        assert forall|i: int| 0 <= i < v.len() implies {
            let at = 20 + 20 * i;
            &&& at + 20 <= data.len()
            &&& (#[trigger] v[i]).0 == lossy_name(data.subrange(at, at + 12))
            &&& v[i].1 == le_u32(data.subrange(at + 12, at + 16))
            &&& v[i].2 == 0
            &&& v[i].3 == le_u32(data.subrange(at + 16, at + 20))
        } by {
            assert(f(i) == Ok::<(Seq<char>, u32, u64, u32), Error>(v[i]));
            let at = 20 + 20 * i;
            assert(data.subrange(at, at + 20).take(12) =~= data.subrange(at, at + 12));
        }
    }
}

/// A `Graphic PackData` index reads successfully exactly when the data starts with the
/// signature, holds the 20-byte header, and holds the 20-byte records of as many members as
/// the word at bytes 16..20 says.
pub proof fn lemma_pak_index_ok(data: Seq<u8>)
    ensures
        pak_index(data) is Ok <==> {
            &&& data.len() >= 20
            &&& data.take(16) == seq![
                0x47u8, 0x72u8, 0x61u8, 0x70u8, 0x68u8, 0x69u8, 0x63u8, 0x20u8,
                0x50u8, 0x61u8, 0x63u8, 0x6Bu8, 0x44u8, 0x61u8, 0x74u8, 0x61u8,
            ]
            &&& 20 + 20 * le_u32(data.subrange(16, 20)) <= data.len()
        },
{
    assert(pak_magic() =~= seq![
        0x47u8, 0x72u8, 0x61u8, 0x70u8, 0x68u8, 0x69u8, 0x63u8, 0x20u8,
        0x50u8, 0x61u8, 0x63u8, 0x6Bu8, 0x44u8, 0x61u8, 0x74u8, 0x61u8,
    ]);
    if data.len() >= 20 {
        let h = data.subrange(0, 20);
        assert(h.take(16) =~= data.take(16));
        assert(h.subrange(16, 20) =~= data.subrange(16, 20));
        let n = u32_at(h, 16) as int;
        let f = |i: int| pak_record(data, i);
        lemma_records_ok_iff(f, n);
        if 20 + 20 * n <= data.len() {
            assert forall|i: int| 0 <= i < n implies (#[trigger] f(i)) is Ok by {}
        } else {
            assert(!(f(n - 1) is Ok));
        }
    }
}

fn magic() -> (m: Vec<u8>)
    ensures
        m@ == pak_magic(),
{
    let mut m = Vec::new();
    m.push(0x47);
    m.push(0x72);
    m.push(0x61);
    m.push(0x70);
    m.push(0x68);
    m.push(0x69);
    m.push(0x63);
    m.push(0x20);
    m.push(0x50);
    m.push(0x61);
    m.push(0x63);
    m.push(0x6B);
    m.push(0x44);
    m.push(0x61);
    m.push(0x74);
    m.push(0x61);
    proof {
        assert(m@ =~= pak_magic());
    }
    m
}

fn read_record(data: &[u8], i: u32) -> (r: Result<PakEntry, Error>)
    ensures
        match pak_record(data@, i as int) {
            Ok(v) => r matches Ok(e) && e@ == v,
            Err(x) => r == Err::<PakEntry, Error>(x),
        },
{
    let buf = read_span(data, 20 + 20 * i as u64, 20)?;
    let name = &buf.as_slice()[0..12];
    proof {
        assert(name@ =~= buf@.take(12));
    }
    let filename = read_lossy_name(name);
    let offset = read_u32_le(&buf.as_slice()[12..16]);
    let uncompressed_size = read_u32_le(&buf.as_slice()[16..20]);
    Ok(PakEntry { filename, offset, compressed_size: 0, uncompressed_size })
}

/// Reads the index of a `Graphic PackData` archive, every stored length still zero:
/// `Error::UnexpectedEof` when the header or a record lies past the end of the data,
/// `Error::BadMagic` when the data does not start with the signature.
pub fn parse_pak_index(data: &[u8]) -> (r: Result<Vec<PakEntry>, Error>)
    ensures
        match pak_index(data@) {
            Ok(v) => r matches Ok(entries) && pak_views(entries@) == v,
            Err(x) => r matches Err(y) && y == x,
        },
        data@.len() < 20 ==> (r matches Err(e) && e == Error::UnexpectedEof),
        data@.len() >= 20 && data@.take(16) != seq![0x47u8, 0x72u8, 0x61u8, 0x70u8, 0x68u8, 0x69u8, 0x63u8, 0x20u8, 0x50u8, 0x61u8, 0x63u8, 0x6Bu8, 0x44u8, 0x61u8, 0x74u8, 0x61u8] ==> (r matches Err(e) && e == Error::BadMagic),
{
    let header = read_span(data, 0, 20)?;
    proof {
        assert(header@.take(16) =~= data@.take(16));
        assert(pak_magic() =~= seq![0x47u8, 0x72u8, 0x61u8, 0x70u8, 0x68u8, 0x69u8, 0x63u8, 0x20u8, 0x50u8, 0x61u8, 0x63u8, 0x6Bu8, 0x44u8, 0x61u8, 0x74u8, 0x61u8]);
    }
    let m = magic();
    if !check_magic(header.as_slice(), m.as_slice()) {
        return Err(Error::BadMagic);
    }
    let count = read_u32_le(&header.as_slice()[16..20]);
    let ghost f = |i: int| pak_record(data@, i);
    let mut entries: Vec<PakEntry> = Vec::new();
    let mut i: u32 = 0;
    proof {
        assert(pak_views(entries@) =~= Seq::empty());
    }
    while i < count
        invariant
            data@.len() >= 20,
            data@.take(16) == seq![0x47u8, 0x72u8, 0x61u8, 0x70u8, 0x68u8, 0x69u8, 0x63u8, 0x20u8, 0x50u8, 0x61u8, 0x63u8, 0x6Bu8, 0x44u8, 0x61u8, 0x74u8, 0x61u8],
            i <= count,
            pak_index(data@) == records_upto(f, count as int),
            f == (|i: int| pak_record(data@, i)),
            records_upto(f, i as int) == Ok::<Seq<(Seq<char>, u32, u64, u32)>, Error>(pak_views(entries@)),
        decreases count - i,
    {
        match read_record(data, i) {
            Ok(e) => {
                let ghost prev = entries@;
                entries.push(e);
                proof {
                    assert(pak_views(entries@) =~= pak_views(prev).push(e@));
                }
            },
            Err(x) => {
                proof {
                    lemma_records_fail(f, i as int, count as int);
                }
                return Err(x);
            },
        }
        i = i + 1;
    }
    Ok(entries)
}

/// Whether every member of the index ends at or after its offset in a file of `file_len`
/// bytes.
pub fn pak_lengths_defined(entries: &Vec<PakEntry>, file_len: u64) -> (r: bool)
    ensures
        r == pak_ends_ordered(pak_views(entries@), file_len as int),
{
    let n = entries.len();
    let ghost v = pak_views(entries@);
    let mut i: usize = 0;
    while i < n
        invariant
            i <= n == entries@.len() == v.len(),
            v == pak_views(entries@),
            forall|j: int| 0 <= j < i ==> v[j].1 <= #[trigger] pak_end(v, file_len as int, j),
        decreases n - i,
    {
        let next: u64 = if i + 1 < n { entries[i + 1].offset as u64 } else { file_len };
        if next < entries[i].offset as u64 {
            assert(v[i as int].1 > pak_end(v, file_len as int, i as int));
            return false;
        }
        i = i + 1;
    }
    true
}

/// The index with every member's stored length filled in: from its offset to the next
/// member's offset, or to the end of a file of `file_len` bytes for the last one.
pub fn pak_with_lengths(entries: Vec<PakEntry>, file_len: u64) -> (r: Vec<PakEntry>)
    requires
        pak_ends_ordered(pak_views(entries@), file_len as int),
    ensures
        r@.len() == entries@.len(),
        forall|i: int| 0 <= i < r@.len() ==> {
            &&& #[trigger] r@[i].filename@ == entries@[i].filename@
            &&& r@[i].offset == entries@[i].offset
            &&& r@[i].uncompressed_size == entries@[i].uncompressed_size
            &&& r@[i].compressed_size == pak_end(pak_views(entries@), file_len as int, i) - entries@[i].offset
        },
        forall|i: int| 0 <= i < r@.len() ==> #[trigger] r@[i].offset + r@[i].compressed_size == if i + 1 < r@.len() {
            entries@[i + 1].offset as int
        } else {
            file_len as int
        },
{
    let ghost v = pak_views(entries@);
    let n = entries.len();
    let mut ends: Vec<u64> = Vec::new();
    let mut i: usize = 0;
    while i < n
        invariant
            i <= n == entries@.len() == v.len(),
            v == pak_views(entries@),
            ends@.len() == i,
            forall|j: int| 0 <= j < i ==> #[trigger] ends@[j] == pak_end(v, file_len as int, j),
        decreases n - i,
    {
        let next: u64 = if i + 1 < n { entries[i + 1].offset as u64 } else { file_len };
        ends.push(next);
        i = i + 1;
    }
    let mut out: Vec<PakEntry> = Vec::new();
    let mut j: usize = 0;
    while j < n
        invariant
            j <= n == entries@.len() == v.len(),
            v == pak_views(entries@),
            ends@.len() == n,
            forall|k: int| 0 <= k < n ==> #[trigger] ends@[k] == pak_end(v, file_len as int, k),
            pak_ends_ordered(v, file_len as int),
            out@.len() == j,
            forall|k: int| 0 <= k < j ==> {
                &&& #[trigger] out@[k].filename@ == entries@[k].filename@
                &&& out@[k].offset == entries@[k].offset
                &&& out@[k].uncompressed_size == entries@[k].uncompressed_size
                &&& out@[k].compressed_size == pak_end(v, file_len as int, k) - entries@[k].offset
            },
        decreases n - j,
    {
        let e = &entries[j];
        assert(v[j as int].1 <= pak_end(v, file_len as int, j as int));
        let length = ends[j] - e.offset as u64;
        out.push(PakEntry { filename: e.filename.clone(), offset: e.offset, compressed_size: length, uncompressed_size: e.uncompressed_size });
        j = j + 1;
    }
    proof {
        assert forall|i: int| 0 <= i < out@.len() implies #[trigger] out@[i].offset + out@[i].compressed_size == if i + 1 < out@.len() {
            entries@[i + 1].offset as int
        } else {
            file_len as int
        } by {
            assert(out@[i].filename@ == entries@[i].filename@);
            assert(v[i].1 == entries@[i].offset);
            if i + 1 < out@.len() {
                assert(v[i + 1].1 == entries@[i + 1].offset);
            }
        }
    }
    out
}

/// The bytes of a member: its `compressed_size` bytes from its offset, inflated unless that
/// length equals its unpacked size. `Error::UnexpectedEof` when they lie past the end of the
/// data, `Error::Inflate` when they are not a complete zlib stream.
pub fn extract_pak_entry(data: &[u8], entry: &PakEntry) -> (r: Result<Vec<u8>, Error>)
    ensures
        match span(data@, entry.offset as int, entry.compressed_size as int) {
            None => r == Err::<Vec<u8>, Error>(Error::UnexpectedEof),
            Some(c) => if entry.compressed_size == entry.uncompressed_size {
                r matches Ok(v) && v@ == c
            } else {
                match zlib_inflated(c) {
                    Some(d) => r matches Ok(v) && v@ == d,
                    None => r == Err::<Vec<u8>, Error>(Error::Inflate),
                }
            },
        },
{
    let stored = read_span(data, entry.offset as u64, entry.compressed_size)?;
    if entry.compressed_size == entry.uncompressed_size as u64 {
        return Ok(stored);
    }
    match inflate_zlib(stored.as_slice()) {
        Some(v) => Ok(v),
        None => Err(Error::Inflate),
    }
}

} // verus!
