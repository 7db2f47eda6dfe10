//! Nekopunch `PACK` archives: the signature `PACK`, a 12-byte header (member count, then a
//! flag that allows compression), then records of 44 bytes (32-byte names) or 76 bytes
//! (64-byte names). Each record ends with the unpacked size, the stored size and the offset.
//! A member is LZSS-compressed when the flag is set and its two sizes differ.

use super::{lemma_records_fail, lemma_records_ok, lemma_records_ok_iff, name_field, name_length, packed_views, records_upto, PackedEntry};
use crate::cp932::{cp932_decoded, cp932_to_utf8};
use crate::error::Error;
use crate::{check_magic, le_u32, read_span, read_u32_le, span, u32_at};
use vstd::prelude::*;

verus! {

/// The signature at the start of a `PACK` archive.
pub open spec fn pack_magic() -> Seq<u8> {
    seq![0x50u8, 0x41u8, 0x43u8, 0x4Bu8]
}

/// Size of an index record: 44 bytes with 32-byte names, 76 with 64-byte names.
pub open spec fn record_size(name32: bool) -> int {
    if name32 { 44 } else { 76 }
}

/// The member count and compression flag of a `PACK` archive, or why its header cannot be
/// read.
pub open spec fn pack_header(data: Seq<u8>) -> Result<(u32, bool), Error> {
    match span(data, 0, 4) {
        None => Err(Error::UnexpectedEof),
        Some(m) => if m != pack_magic() {
            Err(Error::BadMagic)
        } else {
            match span(data, 4, 12) {
                None => Err(Error::UnexpectedEof),
                Some(h) => Ok((u32_at(h, 0), u32_at(h, 4) != 0)),
            }
        },
    }
}

/// Record `i` of the index.
pub open spec fn pack_record(data: Seq<u8>, name32: bool, compressed: bool, i: int) -> Result<(Seq<char>, u32, u32, u32, bool), Error> {
    let es = record_size(name32);
    match span(data, 16 + es * i, es) {
        None => Err(Error::UnexpectedEof),
        Some(b) => match cp932_decoded(name_field(b)) {
            None => Err(Error::BadName),
            Some(name) => {
                let offset = u32_at(b, es - 4);
                let size = u32_at(b, es - 8);
                let unpacked = u32_at(b, es - 12);
                Ok((name, offset, size, unpacked, compressed && size != unpacked))
            },
        },
    }
}

/// The member list of a `PACK` archive, or the first error met reading it.
pub open spec fn pack_index(data: Seq<u8>, name32: bool) -> Result<Seq<(Seq<char>, u32, u32, u32, bool)>, Error> {
    match pack_header(data) {
        Err(e) => Err(e),
        Ok((n, c)) => records_upto(|i: int| pack_record(data, name32, c, i), n as int),
    }
}

/// A `PACK` index that reads successfully starts with `PACK`, holds as many members as the
/// word at bytes 4..8 says, and compression is allowed when the word at 8..12 is not zero.
/// Member `i` is the record at byte `16 + es * i`, `es` being 44 with 32-byte names and 76
/// with 64-byte names: its name is the CP932 decoding of the bytes before the record's
/// first NUL, and its last three words are the unpacked size, the stored size and the
/// offset. It is compressed when compression is allowed and the two sizes differ.
pub proof fn lemma_pack_layout(data: Seq<u8>, name32: bool)
    ensures
        pack_index(data, name32) matches Ok(v) ==> {
            let es: int = if name32 { 44 } else { 76 };
            &&& data.len() >= 16
            &&& data[0] == 0x50 && data[1] == 0x41 && data[2] == 0x43 && data[3] == 0x4B
            &&& v.len() == le_u32(data.subrange(4, 8))
            &&& forall|i: int| 0 <= i < v.len() ==> {
                let at = 16 + es * i;
                &&& at + es <= data.len()
                &&& cp932_decoded(name_field(data.subrange(at, at + es))) == Some((#[trigger] v[i]).0)
                &&& v[i].3 == le_u32(data.subrange(at + es - 12, at + es - 8))
                &&& v[i].2 == le_u32(data.subrange(at + es - 8, at + es - 4))
                &&& v[i].1 == le_u32(data.subrange(at + es - 4, at + es))
                &&& v[i].4 == (le_u32(data.subrange(8, 12)) != 0 && v[i].2 != v[i].3)
            }
        },
{
    if let Ok(v) = pack_index(data, name32) {
        let m = data.subrange(0, 4);
        assert(m[0] == data[0] && m[1] == data[1] && m[2] == data[2] && m[3] == data[3]);
        let h = data.subrange(4, 16);
        let c = u32_at(h, 4) != 0;
        let f = |i: int| pack_record(data, name32, c, i);
        lemma_records_ok(f, u32_at(h, 0) as int);
        assert forall|i: int| 0 <= i < v.len() implies {
            let es: int = if name32 { 44 } else { 76 };
            let at = 16 + es * i;
            &&& at + es <= data.len()
            &&& cp932_decoded(name_field(data.subrange(at, at + es))) == Some((#[trigger] v[i]).0)
            &&& v[i].3 == le_u32(data.subrange(at + es - 12, at + es - 8))
            &&& v[i].2 == le_u32(data.subrange(at + es - 8, at + es - 4))
            &&& v[i].1 == le_u32(data.subrange(at + es - 4, at + es))
            &&& v[i].4 == (le_u32(data.subrange(8, 12)) != 0 && v[i].2 != v[i].3)
        } by {
            assert(f(i) == Ok::<(Seq<char>, u32, u32, u32, bool), Error>(v[i]));
        }
    }
}

#[verifier::rlimit(30)]
proof fn lemma_pack_index_ok_sized(data: Seq<u8>, name32: bool, es: int)
    requires
        es == record_size(name32),
    ensures
        pack_index(data, name32) is Ok <==> {
            let n = le_u32(data.subrange(4, 8));
            &&& data.len() >= 16
            &&& data.take(4) == seq![0x50u8, 0x41u8, 0x43u8, 0x4Bu8]
            &&& 16 + es * n <= data.len()
            &&& forall|i: int| 0 <= i < n ==>
                (#[trigger] cp932_decoded(name_field(data.subrange(16 + es * i, 16 + es * i + es)))) is Some
        },
{
    assert(pack_magic() =~= seq![0x50u8, 0x41u8, 0x43u8, 0x4Bu8]);
    if data.len() >= 16 {
        assert(data.subrange(0, 4) =~= data.take(4));
    }
    if data.len() >= 16 && data.take(4) == pack_magic() {
        let h = data.subrange(4, 16);
        assert(h.subrange(0, 4) =~= data.subrange(4, 8));
        let n = u32_at(h, 0) as int;
        assert(n == le_u32(data.subrange(4, 8)));
        let c = u32_at(h, 4) != 0;
        let f = |i: int| pack_record(data, name32, c, i);
        lemma_records_ok_iff(f, n);
        assert(pack_index(data, name32) == records_upto(f, n));
        if pack_index(data, name32) is Ok && 16 + es * n <= data.len() {
            assert forall|i: int| 0 <= i < n implies
                (#[trigger] cp932_decoded(name_field(data.subrange(16 + es * i, 16 + es * i + es)))) is Some by {
                assert(f(i) is Ok);
                assert(es * i + es <= es * n) by (nonlinear_arith)
                    requires
                        0 <= i < n,
                        es > 0,
                ;
            }
        }
        if 16 + es * n <= data.len() {
            if forall|i: int| 0 <= i < n ==>
                (#[trigger] cp932_decoded(name_field(data.subrange(16 + es * i, 16 + es * i + es)))) is Some {
                assert forall|i: int| 0 <= i < n implies (#[trigger] f(i)) is Ok by {
                    assert(es * i + es <= es * n) by (nonlinear_arith)
                        requires
                            0 <= i < n,
                            es > 0,
                    ;
                    assert(cp932_decoded(name_field(data.subrange(16 + es * i, 16 + es * i + es))) is Some);
                }
                assert(pack_index(data, name32) is Ok);
            } else {
                let i = choose|i: int| 0 <= i < n && !((#[trigger] cp932_decoded(name_field(data.subrange(16 + es * i, 16 + es * i + es)))) is Some);
                assert(es * i + es <= es * n) by (nonlinear_arith)
                    requires
                        0 <= i < n,
                        es > 0,
                ;
                assert(!(f(i) is Ok));
                assert(!(pack_index(data, name32) is Ok));
            }
        } else {
            assert(es * (n - 1) + es == es * n) by (nonlinear_arith);
            assert(!(f(n - 1) is Ok));
            assert(!(pack_index(data, name32) is Ok));
        }
    } else {
        if data.len() >= 4 {
            assert(data.subrange(0, 4) =~= data.take(4));
        }
        assert(!(pack_index(data, name32) is Ok));
    }
}

/// A `PACK` index reads successfully exactly when the data starts with `PACK`, holds the
/// 16-byte header and the records of as many members as the word at bytes 4..8 says (44
/// bytes each with 32-byte names, 76 with 64-byte names), and the name of each record is
/// valid CP932.
pub proof fn lemma_pack_index_ok(data: Seq<u8>)
    ensures
        pack_index(data, true) is Ok <==> {
            let n = le_u32(data.subrange(4, 8));
            &&& data.len() >= 16
            &&& data.take(4) == seq![0x50u8, 0x41u8, 0x43u8, 0x4Bu8]
            &&& 16 + 44 * n <= data.len()
            &&& forall|i: int| 0 <= i < n ==>
                (#[trigger] cp932_decoded(name_field(data.subrange(16 + 44 * i, 16 + 44 * i + 44)))) is Some
        },
        pack_index(data, false) is Ok <==> {
            let n = le_u32(data.subrange(4, 8));
            &&& data.len() >= 16
            &&& data.take(4) == seq![0x50u8, 0x41u8, 0x43u8, 0x4Bu8]
            &&& 16 + 76 * n <= data.len()
            &&& forall|i: int| 0 <= i < n ==>
                (#[trigger] cp932_decoded(name_field(data.subrange(16 + 76 * i, 16 + 76 * i + 76)))) is Some
        },
{
    lemma_pack_index_ok_sized(data, true, 44);
    lemma_pack_index_ok_sized(data, false, 76);
}

fn magic() -> (m: Vec<u8>)
    ensures
        m@ == pack_magic(),
{
    let mut m = Vec::new();
    m.push(0x50);
    m.push(0x41);
    m.push(0x43);
    m.push(0x4B);
    proof {
        assert(m@ =~= pack_magic());
    }
    m
}

fn read_record(data: &[u8], name32: bool, compressed: bool, i: u32) -> (r: Result<PackedEntry, Error>)
    ensures
        match pack_record(data@, name32, compressed, i as int) {
            Ok(v) => r matches Ok(e) && e@ == v,
            Err(x) => r == Err::<PackedEntry, Error>(x),
        },
{
    let es: usize = if name32 { 44 } else { 76 };
    let buf = read_span(data, 16 + es as u64 * i as u64, es as u64)?;
    let n = name_length(buf.as_slice());
    let name_bytes = &buf.as_slice()[0..n];
    proof {
        assert(name_bytes@ =~= name_field(buf@));
    }
    let filename = match cp932_to_utf8(name_bytes) {
        Ok(s) => s,
        Err(_) => return Err(Error::BadName),
    };
    let offset = read_u32_le(&buf.as_slice()[es - 4..es]);
    let size = read_u32_le(&buf.as_slice()[es - 8..es - 4]);
    let unpacked_size = read_u32_le(&buf.as_slice()[es - 12..es - 8]);
    Ok(PackedEntry { filename, offset, size, unpacked_size, is_packed: compressed && size != unpacked_size })
}

/// Reads the member list of a `PACK` archive whose records carry 32-byte names (`name32`)
/// or 64-byte names: `Error::UnexpectedEof` when the header or a record lies past the end of
/// the data, `Error::BadMagic` when the data does not start with `PACK`, `Error::BadName`
/// when a name is not valid CP932.
pub fn parse_pack_index(data: &[u8], name32: bool) -> (r: Result<Vec<PackedEntry>, Error>)
    ensures
        match pack_index(data@, name32) {
            Ok(v) => r matches Ok(entries) && packed_views(entries@) == v,
            Err(x) => r matches Err(y) && y == x,
        },
        data@.len() >= 4 && data@.take(4) != seq![0x50u8, 0x41u8, 0x43u8, 0x4Bu8] ==> (r matches Err(e) && e == Error::BadMagic),
        data@.len() < 4 || (data@.take(4) == seq![0x50u8, 0x41u8, 0x43u8, 0x4Bu8] && data@.len() < 16) ==> (r matches Err(e) && e == Error::UnexpectedEof),
{
    let sig = read_span(data, 0, 4)?;
    proof {
        assert(sig@ =~= data@.take(4));
    }
    let m = magic();
    proof {
        assert(sig@.take(4) =~= sig@);
    }
    if !check_magic(sig.as_slice(), m.as_slice()) {
        return Err(Error::BadMagic);
    }
    let header = read_span(data, 4, 12)?;
    let count = read_u32_le(&header.as_slice()[0..4]);
    let compressed = read_u32_le(&header.as_slice()[4..8]) != 0;
    let ghost f = |i: int| pack_record(data@, name32, compressed, i);
    let mut entries: Vec<PackedEntry> = Vec::new();
    let mut i: u32 = 0;
    proof {
        assert(packed_views(entries@) =~= Seq::empty());
    }
    while i < count
        invariant
            data@.len() >= 16,
            data@.take(4) == seq![0x50u8, 0x41u8, 0x43u8, 0x4Bu8],
            i <= count,
            pack_index(data@, name32) == records_upto(f, count as int),
            f == (|i: int| pack_record(data@, name32, compressed, i)),
            records_upto(f, i as int) == Ok::<Seq<(Seq<char>, u32, u32, u32, bool)>, Error>(packed_views(entries@)),
        decreases count - i,
    {
        match read_record(data, name32, compressed, i) {
            Ok(e) => {
                let ghost prev = entries@;
                entries.push(e);
                proof {
                    assert(packed_views(entries@) =~= packed_views(prev).push(e@));
                }
            },
            Err(x) => {
                proof {
                    lemma_records_fail(f, i as int, count as int);
                }
                return Err(x);
            },
        }
        i = i + 1;
    }
    Ok(entries)
}

} // verus!
