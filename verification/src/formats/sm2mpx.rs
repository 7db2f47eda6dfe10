//! SM2MPX10 archives: a 32-byte header (`SM2MPX10`, member count, index size) followed by
//! 20-byte records (12-byte NUL-padded name, offset, size). Members are stored as is.

use super::{lemma_records_fail, lemma_records_ok, lemma_records_ok_iff, lossy_name, plain_views, read_lossy_name, records_upto, PlainEntry};
use crate::error::Error;
use crate::{check_magic, le_u32, read_span, read_u32_le, span, u32_at};
use vstd::prelude::*;

verus! {

/// The signature at the start of an SM2MPX10 archive.
pub open spec fn sm2mpx_magic() -> Seq<u8> {
    seq![0x53u8, 0x4Du8, 0x32u8, 0x4Du8, 0x50u8, 0x58u8, 0x31u8, 0x30u8]
}

/// The member count of an SM2MPX10 archive, or why its header cannot be read.
pub open spec fn sm2mpx_count(data: Seq<u8>) -> Result<u32, Error> {
    match span(data, 0, 32) {
        None => Err(Error::UnexpectedEof),
        Some(h) => if h.take(8) == sm2mpx_magic() {
            Ok(u32_at(h, 8))
        } else {
            Err(Error::BadMagic)
        },
    }
}

/// Record `i` of an SM2MPX10 index.
pub open spec fn sm2mpx_record(data: Seq<u8>, i: int) -> Result<(Seq<char>, u32, u32), Error> {
    match span(data, 32 + 20 * i, 20) {
        None => Err(Error::UnexpectedEof),
        Some(b) => Ok((lossy_name(b.take(12)), u32_at(b, 12), u32_at(b, 16))),
    }
}

/// The member list of an SM2MPX10 archive, or the first error met reading it.
pub open spec fn sm2mpx_index(data: Seq<u8>) -> Result<Seq<(Seq<char>, u32, u32)>, Error> {
    match sm2mpx_count(data) {
        Err(e) => Err(e),
        Ok(n) => records_upto(|i: int| sm2mpx_record(data, i), n as int),
    }
}

/// An SM2MPX10 index that reads successfully starts with `SM2MPX10`, holds as many members
/// as the word at bytes 8..12 says, and member `i` is the 20-byte record at byte
/// `32 + 20 * i`: its name is the first 12 bytes (decoded lossily, trailing NULs removed),
/// its offset and size the next two little-endian words.
pub proof fn lemma_sm2mpx_layout(data: Seq<u8>)
    ensures
        sm2mpx_index(data) matches Ok(v) ==> {
            &&& data.len() >= 32
            &&& data[0] == 0x53 && data[1] == 0x4D && data[2] == 0x32 && data[3] == 0x4D
            &&& data[4] == 0x50 && data[5] == 0x58 && data[6] == 0x31 && data[7] == 0x30
            &&& v.len() == le_u32(data.subrange(8, 12))
            &&& forall|i: int| 0 <= i < v.len() ==> {
                let at = 32 + 20 * i;
                &&& at + 20 <= data.len()
                &&& (#[trigger] v[i]).0 == lossy_name(data.subrange(at, at + 12))
                &&& v[i].1 == le_u32(data.subrange(at + 12, at + 16))
                &&& v[i].2 == le_u32(data.subrange(at + 16, at + 20))
            }
        },
{
    if let Ok(v) = sm2mpx_index(data) {
        let h = data.subrange(0, 32);
        assert(h.take(8)[0] == data[0] && h.take(8)[1] == data[1] && h.take(8)[2] == data[2]);
        assert(h.take(8)[3] == data[3] && h.take(8)[4] == data[4] && h.take(8)[5] == data[5]);
        assert(h.take(8)[6] == data[6] && h.take(8)[7] == data[7]);
        let n = u32_at(h, 8);
        let f = |i: int| sm2mpx_record(data, i);
        lemma_records_ok(f, n as int);
        assert forall|i: int| 0 <= i < v.len() implies {
            let at = 32 + 20 * i;
            &&& at + 20 <= data.len()
            &&& (#[trigger] v[i]).0 == lossy_name(data.subrange(at, at + 12))
            &&& v[i].1 == le_u32(data.subrange(at + 12, at + 16))
            &&& v[i].2 == le_u32(data.subrange(at + 16, at + 20))
        } by {
            assert(f(i) == Ok::<(Seq<char>, u32, u32), Error>(v[i]));
            let at = 32 + 20 * i;
            let b = data.subrange(at, at + 20);
            assert(b.take(12) =~= data.subrange(at, at + 12));
        }
    }
}

/// An SM2MPX10 index reads successfully exactly when the data starts with `SM2MPX10`, holds
/// the 32-byte header, and holds the 20-byte records of as many members as the word at bytes
/// 8..12 says.
pub proof fn lemma_sm2mpx_index_ok(data: Seq<u8>)
    ensures
        sm2mpx_index(data) is Ok <==> {
            &&& data.len() >= 32
            &&& data.take(8) == seq![0x53u8, 0x4Du8, 0x32u8, 0x4Du8, 0x50u8, 0x58u8, 0x31u8, 0x30u8]
            &&& 32 + 20 * le_u32(data.subrange(8, 12)) <= data.len()
        },
{
    assert(sm2mpx_magic() =~= seq![0x53u8, 0x4Du8, 0x32u8, 0x4Du8, 0x50u8, 0x58u8, 0x31u8, 0x30u8]);
    if data.len() >= 32 {
        let h = data.subrange(0, 32);
        assert(h.take(8) =~= data.take(8));
        assert(h.subrange(8, 12) =~= data.subrange(8, 12));
        let n = u32_at(h, 8) as int;
        let f = |i: int| sm2mpx_record(data, i);
        lemma_records_ok_iff(f, n);
        if 32 + 20 * n <= data.len() {
            assert forall|i: int| 0 <= i < n implies (#[trigger] f(i)) is Ok by {}
        } else {
            assert(!(f(n - 1) is Ok));
        }
    }
}

fn magic() -> (m: Vec<u8>)
    ensures
        m@ == sm2mpx_magic(),
{
    let mut m = Vec::new();
    m.push(0x53);
    m.push(0x4D);
    m.push(0x32);
    m.push(0x4D);
    m.push(0x50);
    m.push(0x58);
    m.push(0x31);
    m.push(0x30);
    proof {
        assert(m@ =~= sm2mpx_magic());
    }
    m
}

fn read_record(data: &[u8], i: u32) -> (r: Result<PlainEntry, Error>)
    ensures
        match sm2mpx_record(data@, i as int) {
            Ok(v) => r matches Ok(e) && e@ == v,
            Err(x) => r == Err::<PlainEntry, Error>(x),
        },
{
    let buf = read_span(data, 32 + 20 * i as u64, 20)?;
    let name = &buf.as_slice()[0..12];
    proof {
        assert(name@ =~= buf@.take(12));
    }
    let filename = read_lossy_name(name);
    let offset = read_u32_le(&buf.as_slice()[12..16]);
    let size = read_u32_le(&buf.as_slice()[16..20]);
    Ok(PlainEntry { filename, offset, size })
}

/// The member count of an SM2MPX10 archive: `Error::UnexpectedEof` when the data is
/// shorter than the header, `Error::BadMagic` when it does not start with `SM2MPX10`.
pub fn parse_sm2mpx_count(data: &[u8]) -> (r: Result<u32, Error>)
    ensures
        match sm2mpx_count(data@) {
            Ok(n) => r matches Ok(m) && m == n,
            Err(x) => r matches Err(y) && y == x,
        },
        data@.len() < 32 ==> (r matches Err(e) && e == Error::UnexpectedEof),
        data@.len() >= 32 && data@.take(8) != seq![0x53u8, 0x4Du8, 0x32u8, 0x4Du8, 0x50u8, 0x58u8, 0x31u8, 0x30u8] ==> (r matches Err(e) && e == Error::BadMagic),
{
    let header = read_span(data, 0, 32)?;
    proof {
        assert(header@.take(8) =~= data@.take(8));
        assert(sm2mpx_magic() =~= seq![0x53u8, 0x4Du8, 0x32u8, 0x4Du8, 0x50u8, 0x58u8, 0x31u8, 0x30u8]);
    }
    let m = magic();
    if !check_magic(header.as_slice(), m.as_slice()) {
        return Err(Error::BadMagic);
    }
    Ok(read_u32_le(&header.as_slice()[8..12]))
}

/// Reads the member list of an SM2MPX10 archive: the errors of `parse_sm2mpx_count`, or
/// `Error::UnexpectedEof` when a record lies past the end of the data.
pub fn parse_sm2mpx_index(data: &[u8]) -> (r: Result<Vec<PlainEntry>, Error>)
    ensures
        match sm2mpx_index(data@) {
            Ok(v) => r matches Ok(entries) && plain_views(entries@) == v,
            Err(x) => r matches Err(y) && y == x,
        },
        data@.len() < 32 ==> (r matches Err(e) && e == Error::UnexpectedEof),
        data@.len() >= 32 && data@.take(8) != seq![0x53u8, 0x4Du8, 0x32u8, 0x4Du8, 0x50u8, 0x58u8, 0x31u8, 0x30u8] ==> (r matches Err(e) && e == Error::BadMagic),
{
    let count = parse_sm2mpx_count(data)?;
    let ghost f = |i: int| sm2mpx_record(data@, i);
    let mut entries: Vec<PlainEntry> = Vec::new();
    let mut i: u32 = 0;
    proof {
        assert(plain_views(entries@) =~= Seq::empty());
    }
    while i < count
        invariant
            data@.len() >= 32,
            data@.take(8) == seq![0x53u8, 0x4Du8, 0x32u8, 0x4Du8, 0x50u8, 0x58u8, 0x31u8, 0x30u8],
            i <= count,
            sm2mpx_index(data@) == records_upto(f, count as int),
            f == (|i: int| sm2mpx_record(data@, i)),
            records_upto(f, i as int) == Ok::<Seq<(Seq<char>, u32, u32)>, Error>(plain_views(entries@)),
        decreases count - i,
    {
        match read_record(data, i) {
            Ok(e) => {
                let ghost prev = entries@;
                entries.push(e);
                proof {
                    assert(plain_views(entries@) =~= plain_views(prev).push(e@));
                }
            },
            Err(x) => {
                proof {
                    lemma_records_fail(f, i as int, count as int);
                }
                return Err(x);
            },
        }
        i = i + 1;
    }
    Ok(entries)
}

} // verus!
