//! ARCX archives: a 16-byte header (`ARCX`, member count) followed by 128-byte records
//! (CP932 name padded with NULs, then offset, stored size and unpacked size at bytes 100,
//! 104 and 108). A member whose sizes differ is LZSS-compressed.

use super::{lemma_records_fail, lemma_records_ok, lemma_records_ok_iff, name_field, name_length, packed_views, records_upto, PackedEntry};
use crate::cp932::{cp932_decoded, cp932_to_utf8};
use crate::error::Error;
use crate::{check_magic, le_u32, read_span, read_u32_le, span, u32_at};
use vstd::prelude::*;

verus! {

/// The signature at the start of an ARCX archive.
pub open spec fn arcx_magic() -> Seq<u8> {
    seq![0x41u8, 0x52u8, 0x43u8, 0x58u8]
}

/// The member count of an ARCX archive, or why its header cannot be read.
pub open spec fn arcx_count(data: Seq<u8>) -> Result<u32, Error> {
    match span(data, 0, 16) {
        None => Err(Error::UnexpectedEof),
        Some(h) => if h.take(4) == arcx_magic() {
            Ok(u32_at(h, 4))
        } else {
            Err(Error::BadMagic)
        },
    }
}

/// Record `i` of an ARCX index.
pub open spec fn arcx_record(data: Seq<u8>, i: int) -> Result<(Seq<char>, u32, u32, u32, bool), Error> {
    match span(data, 16 + 128 * i, 128) {
        None => Err(Error::UnexpectedEof),
        Some(b) => match cp932_decoded(name_field(b)) {
            None => Err(Error::BadName),
            Some(name) => Ok((name, u32_at(b, 100), u32_at(b, 104), u32_at(b, 108), u32_at(b, 104) != u32_at(b, 108))),
        },
    }
}

/// The member list of an ARCX archive, or the first error met reading it.
pub open spec fn arcx_index(data: Seq<u8>) -> Result<Seq<(Seq<char>, u32, u32, u32, bool)>, Error> {
    match arcx_count(data) {
        Err(e) => Err(e),
        Ok(n) => records_upto(|i: int| arcx_record(data, i), n as int),
    }
}

/// An ARCX index that reads successfully starts with `ARCX`, holds as many members as the
/// word at bytes 4..8 says, and member `i` is the 128-byte record at byte `16 + 128 * i`:
/// its name is the CP932 decoding of the field's bytes before its first NUL, its offset,
/// stored size and unpacked size the words at 100, 104 and 108, and it is compressed
/// exactly when the two sizes differ.
pub proof fn lemma_arcx_layout(data: Seq<u8>)
    ensures
        arcx_index(data) matches Ok(v) ==> {
            &&& data.len() >= 16
            &&& data[0] == 0x41 && data[1] == 0x52 && data[2] == 0x43 && data[3] == 0x58
            &&& v.len() == le_u32(data.subrange(4, 8))
            &&& forall|i: int| 0 <= i < v.len() ==> {
                let at = 16 + 128 * i;
                &&& at + 128 <= data.len()
                &&& cp932_decoded(name_field(data.subrange(at, at + 128))) == Some((#[trigger] v[i]).0)
                &&& v[i].1 == le_u32(data.subrange(at + 100, at + 104))
                &&& v[i].2 == le_u32(data.subrange(at + 104, at + 108))
                &&& v[i].3 == le_u32(data.subrange(at + 108, at + 112))
                &&& v[i].4 == (v[i].2 != v[i].3)
            }
        },
{
    if let Ok(v) = arcx_index(data) {
        let h = data.subrange(0, 16);
        assert(h.take(4)[0] == data[0] && h.take(4)[1] == data[1] && h.take(4)[2] == data[2] && h.take(4)[3] == data[3]);
        let f = |i: int| arcx_record(data, i);
        lemma_records_ok(f, u32_at(h, 4) as int);
        assert forall|i: int| 0 <= i < v.len() implies {
            let at = 16 + 128 * i;
            &&& at + 128 <= data.len()
            &&& cp932_decoded(name_field(data.subrange(at, at + 128))) == Some((#[trigger] v[i]).0)
            &&& v[i].1 == le_u32(data.subrange(at + 100, at + 104))
            &&& v[i].2 == le_u32(data.subrange(at + 104, at + 108))
            &&& v[i].3 == le_u32(data.subrange(at + 108, at + 112))
            &&& v[i].4 == (v[i].2 != v[i].3)
        } by {
            assert(f(i) == Ok::<(Seq<char>, u32, u32, u32, bool), Error>(v[i]));
        }
    }
}

/// An ARCX index reads successfully exactly when the data starts with `ARCX`, holds the
/// 16-byte header and the 128-byte records of as many members as the word at bytes 4..8
/// says, and the name of each record is valid CP932.
#[verifier::rlimit(30)]
pub proof fn lemma_arcx_index_ok(data: Seq<u8>)
    ensures
        arcx_index(data) is Ok <==> {
            let n = le_u32(data.subrange(4, 8));
            &&& data.len() >= 16
            &&& data.take(4) == seq![0x41u8, 0x52u8, 0x43u8, 0x58u8]
            &&& 16 + 128 * n <= data.len()
            &&& forall|i: int| 0 <= i < n ==>
                (#[trigger] cp932_decoded(name_field(data.subrange(16 + 128 * i, 16 + 128 * i + 128)))) is Some
        },
{
    assert(arcx_magic() =~= seq![0x41u8, 0x52u8, 0x43u8, 0x58u8]);
    if data.len() >= 16 {
        let h = data.subrange(0, 16);
        assert(h.take(4) =~= data.take(4));
        assert(h.subrange(4, 8) =~= data.subrange(4, 8));
        let n = u32_at(h, 4) as int;
        let f = |i: int| arcx_record(data, i);
        lemma_records_ok_iff(f, n);
        if 16 + 128 * n <= data.len() {
            if forall|i: int| 0 <= i < n ==>
                (#[trigger] cp932_decoded(name_field(data.subrange(16 + 128 * i, 16 + 128 * i + 128)))) is Some {
                assert forall|i: int| 0 <= i < n implies (#[trigger] f(i)) is Ok by {
                    assert(cp932_decoded(name_field(data.subrange(16 + 128 * i, 16 + 128 * i + 128))) is Some);
                }
            } else {
                let i = choose|i: int| 0 <= i < n && !((#[trigger] cp932_decoded(name_field(data.subrange(16 + 128 * i, 16 + 128 * i + 128)))) is Some);
                assert(!(f(i) is Ok));
            }
        } else {
            assert(!(f(n - 1) is Ok));
        }
    }
}

/// The signature bytes.
fn magic() -> (m: Vec<u8>)
    ensures
        m@ == arcx_magic(),
{
    let mut m = Vec::new();
    m.push(0x41);
    m.push(0x52);
    m.push(0x43);
    m.push(0x58);
    proof {
        assert(m@ =~= arcx_magic());
    }
    m
}

/// Reads record `i` of the index.
fn read_record(data: &[u8], i: u32) -> (r: Result<PackedEntry, Error>)
    ensures
        match arcx_record(data@, i as int) {
            Ok(v) => r matches Ok(e) && e@ == v,
            Err(x) => r == Err::<PackedEntry, Error>(x),
        },
{
    let buf = read_span(data, 16 + 128 * i as u64, 128)?;
    let n = name_length(buf.as_slice());
    let name_bytes = &buf.as_slice()[0..n];
    proof {
        assert(name_bytes@ =~= name_field(buf@));
    }
    let filename = match cp932_to_utf8(name_bytes) {
        Ok(s) => s,
        Err(_) => return Err(Error::BadName),
    };
    let offset = read_u32_le(&buf.as_slice()[100..104]);
    let size = read_u32_le(&buf.as_slice()[104..108]);
    let unpacked_size = read_u32_le(&buf.as_slice()[108..112]);
    Ok(PackedEntry { filename, offset, size, unpacked_size, is_packed: size != unpacked_size })
}

/// Reads the member list of an ARCX archive: `Error::UnexpectedEof` when the header or a
/// record lies past the end of the data, `Error::BadMagic` when the data does not start
/// with `ARCX`, `Error::BadName` when a name is not valid CP932.
pub fn parse_arcx_index(data: &[u8]) -> (r: Result<Vec<PackedEntry>, Error>)
    ensures
        match arcx_index(data@) {
            Ok(v) => r matches Ok(entries) && packed_views(entries@) == v,
            Err(x) => r matches Err(y) && y == x,
        },
        data@.len() < 16 ==> (r matches Err(e) && e == Error::UnexpectedEof),
        data@.len() >= 16 && data@.take(4) != seq![0x41u8, 0x52u8, 0x43u8, 0x58u8] ==> (r matches Err(e) && e == Error::BadMagic),
{
    let header = read_span(data, 0, 16)?;
    proof {
        assert(header@.take(4) =~= data@.take(4));
        assert(arcx_magic() =~= seq![0x41u8, 0x52u8, 0x43u8, 0x58u8]);
    }
    let m = magic();
    if !check_magic(header.as_slice(), m.as_slice()) {
        return Err(Error::BadMagic);
    }
    let count = read_u32_le(&header.as_slice()[4..8]);
    let ghost f = |i: int| arcx_record(data@, i);
    let mut entries: Vec<PackedEntry> = Vec::new();
    let mut i: u32 = 0;
    proof {
        assert(packed_views(entries@) =~= Seq::empty());
    }
    while i < count
        invariant
            data@.len() >= 16,
            data@.take(4) == seq![0x41u8, 0x52u8, 0x43u8, 0x58u8],
            i <= count,
            arcx_index(data@) == records_upto(f, count as int),
            f == (|i: int| arcx_record(data@, i)),
            records_upto(f, i as int) == Ok::<Seq<(Seq<char>, u32, u32, u32, bool)>, Error>(packed_views(entries@)),
        decreases count - i,
    {
        match read_record(data, i) {
            Ok(e) => {
                let ghost prev = entries@;
                entries.push(e);
                proof {
                    assert(packed_views(entries@) =~= packed_views(prev).push(e@));
                }
            },
            Err(x) => {
                proof {
                    lemma_records_fail(f, i as int, count as int);
                }
                return Err(x);
            },
        }
        i = i + 1;
    }
    Ok(entries)
}

} // verus!
