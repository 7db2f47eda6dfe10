//! MIF archives: an 8-byte header (`MIF\0`, member count) followed by 24-byte records
//! (16-byte NUL-padded name, offset, size). Members are stored as is.

use super::{lemma_records_fail, lemma_records_ok, lemma_records_ok_iff, lossy_name, plain_views, read_lossy_name, records_upto, PlainEntry};
use crate::error::Error;
use crate::{check_magic, le_u32, read_span, read_u32_le, span, u32_at};
use vstd::prelude::*;

verus! {

/// The signature at the start of a MIF archive.
pub open spec fn mif_magic() -> Seq<u8> {
    seq![0x4Du8, 0x49u8, 0x46u8, 0x00u8]
}

/// The member count of a MIF archive, or why its header cannot be read.
pub open spec fn mif_count(data: Seq<u8>) -> Result<u32, Error> {
    match span(data, 0, 8) {
        None => Err(Error::UnexpectedEof),
        Some(h) => if h.take(4) == mif_magic() {
            Ok(u32_at(h, 4))
        } else {
            Err(Error::BadMagic)
        },
    }
}

/// Record `i` of a MIF index.
pub open spec fn mif_record(data: Seq<u8>, i: int) -> Result<(Seq<char>, u32, u32), Error> {
    match span(data, 8 + 24 * i, 24) {
        None => Err(Error::UnexpectedEof),
        Some(b) => Ok((lossy_name(b.take(16)), u32_at(b, 16), u32_at(b, 20))),
    }
}

/// The member list of a MIF archive, or the first error met reading it.
pub open spec fn mif_index(data: Seq<u8>) -> Result<Seq<(Seq<char>, u32, u32)>, Error> {
    match mif_count(data) {
        Err(e) => Err(e),
        Ok(n) => records_upto(|i: int| mif_record(data, i), n as int),
    }
}

/// A MIF index that reads successfully starts with `MIF\0`, holds as many members as the
/// word at bytes 4..8 says, and member `i` is the 24-byte record at byte `8 + 24 * i`: its
/// name is the first 16 bytes (decoded lossily, trailing NULs removed), its offset and size
/// the next two little-endian words.
pub proof fn lemma_mif_layout(data: Seq<u8>)
    ensures
        mif_index(data) matches Ok(v) ==> {
            &&& data.len() >= 8
            &&& data[0] == 0x4D && data[1] == 0x49 && data[2] == 0x46 && data[3] == 0x00
            &&& v.len() == le_u32(data.subrange(4, 8))
            &&& forall|i: int| 0 <= i < v.len() ==> {
                let at = 8 + 24 * i;
                &&& at + 24 <= data.len()
                &&& (#[trigger] v[i]).0 == lossy_name(data.subrange(at, at + 16))
                &&& v[i].1 == le_u32(data.subrange(at + 16, at + 20))
                &&& v[i].2 == le_u32(data.subrange(at + 20, at + 24))
            }
        },
{
    if let Ok(v) = mif_index(data) {
        let h = data.subrange(0, 8);
        assert(h.take(4)[0] == data[0] && h.take(4)[1] == data[1] && h.take(4)[2] == data[2] && h.take(4)[3] == data[3]);
        let f = |i: int| mif_record(data, i);
        lemma_records_ok(f, u32_at(h, 4) as int);
        assert forall|i: int| 0 <= i < v.len() implies {
            let at = 8 + 24 * i;
            &&& at + 24 <= data.len()
            &&& (#[trigger] v[i]).0 == lossy_name(data.subrange(at, at + 16))
            &&& v[i].1 == le_u32(data.subrange(at + 16, at + 20))
            &&& v[i].2 == le_u32(data.subrange(at + 20, at + 24))
        } by {
            assert(f(i) == Ok::<(Seq<char>, u32, u32), Error>(v[i]));
            let at = 8 + 24 * i;
            assert(data.subrange(at, at + 24).take(16) =~= data.subrange(at, at + 16));
        }
    }
}

/// A MIF index reads successfully exactly when the data starts with `MIF\0`, holds the
/// 8-byte header, and holds the 24-byte records of as many members as the word at bytes 4..8
/// says.
pub proof fn lemma_mif_index_ok(data: Seq<u8>)
    ensures
        mif_index(data) is Ok <==> {
            &&& data.len() >= 8
            &&& data.take(4) == seq![0x4Du8, 0x49u8, 0x46u8, 0x00u8]
            &&& 8 + 24 * le_u32(data.subrange(4, 8)) <= data.len()
        },
{
    assert(mif_magic() =~= seq![0x4Du8, 0x49u8, 0x46u8, 0x00u8]);
    if data.len() >= 8 {
        let h = data.subrange(0, 8);
        assert(h.take(4) =~= data.take(4));
        assert(h.subrange(4, 8) =~= data.subrange(4, 8));
        let n = u32_at(h, 4) as int;
        let f = |i: int| mif_record(data, i);
        lemma_records_ok_iff(f, n);
        if 8 + 24 * n <= data.len() {
            assert forall|i: int| 0 <= i < n implies (#[trigger] f(i)) is Ok by {}
        } else {
            assert(!(f(n - 1) is Ok));
        }
    }
}

fn magic() -> (m: Vec<u8>)
    ensures
        m@ == mif_magic(),
{
    let mut m = Vec::new();
    m.push(0x4D);
    m.push(0x49);
    m.push(0x46);
    m.push(0x00);
    proof {
        assert(m@ =~= mif_magic());
    }
    m
}

fn read_record(data: &[u8], i: u32) -> (r: Result<PlainEntry, Error>)
    ensures
        match mif_record(data@, i as int) {
            Ok(v) => r matches Ok(e) && e@ == v,
            Err(x) => r == Err::<PlainEntry, Error>(x),
        },
{
    let buf = read_span(data, 8 + 24 * i as u64, 24)?;
    let name = &buf.as_slice()[0..16];
    proof {
        assert(name@ =~= buf@.take(16));
    }
    let filename = read_lossy_name(name);
    let offset = read_u32_le(&buf.as_slice()[16..20]);
    let size = read_u32_le(&buf.as_slice()[20..24]);
    Ok(PlainEntry { filename, offset, size })
}

/// Reads the member list of a MIF archive: `Error::UnexpectedEof` when the header or a
/// record lies past the end of the data, `Error::BadMagic` when the data does not start
/// with `MIF\0`.
pub fn parse_mif_index(data: &[u8]) -> (r: Result<Vec<PlainEntry>, Error>)
    ensures
        match mif_index(data@) {
            Ok(v) => r matches Ok(entries) && plain_views(entries@) == v,
            Err(x) => r matches Err(y) && y == x,
        },
        data@.len() < 8 ==> (r matches Err(e) && e == Error::UnexpectedEof),
        data@.len() >= 8 && data@.take(4) != seq![0x4Du8, 0x49u8, 0x46u8, 0x00u8] ==> (r matches Err(e) && e == Error::BadMagic),
{
    let header = read_span(data, 0, 8)?;
    proof {
        assert(header@.take(4) =~= data@.take(4));
        assert(mif_magic() =~= seq![0x4Du8, 0x49u8, 0x46u8, 0x00u8]);
    }
    let m = magic();
    if !check_magic(header.as_slice(), m.as_slice()) {
        return Err(Error::BadMagic);
    }
    let count = read_u32_le(&header.as_slice()[4..8]);
    let ghost f = |i: int| mif_record(data@, i);
    let mut entries: Vec<PlainEntry> = Vec::new();
    let mut i: u32 = 0;
    proof {
        assert(plain_views(entries@) =~= Seq::empty());
    }
    while i < count
        invariant
            data@.len() >= 8,
            data@.take(4) == seq![0x4Du8, 0x49u8, 0x46u8, 0x00u8],
            i <= count,
            mif_index(data@) == records_upto(f, count as int),
            f == (|i: int| mif_record(data@, i)),
            records_upto(f, i as int) == Ok::<Seq<(Seq<char>, u32, u32)>, Error>(plain_views(entries@)),
        decreases count - i,
    {
        match read_record(data, i) {
            Ok(e) => {
                let ghost prev = entries@;
                entries.push(e);
                proof {
                    assert(plain_views(entries@) =~= plain_views(prev).push(e@));
                }
            },
            Err(x) => {
                proof {
                    lemma_records_fail(f, i as int, count as int);
                }
                return Err(x);
            },
        }
        i = i + 1;
    }
    Ok(entries)
}

} // verus!
