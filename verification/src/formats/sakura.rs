//! Studio Sakura archives: the member count in the first four bytes, then from byte 36 one
//! 272-byte record per member (256-byte CP932 name padded with NULs, then size and offset).
//! A member that starts with `ACMPRS03` is LZSS-compressed from 36 bytes after its offset
//! on and unpacks to its size; any other member is stored as is. A trailing `.pr3` is
//! removed from the names.

use super::{copy_from, name_field, name_length, plain_extract_ok, PlainEntry};
use crate::cp932::{cp932_decoded, cp932_to_utf8};
use crate::error::Error;
use crate::lzss::{lzss_decode, lzss_decode_into, LzssStop};
use crate::text::{pr3_suffix, trim_end_seq, trim_pr3};
use crate::{append_range, check_magic, le_u32, read_span, read_u32_le, rest_from, span, u32_at};
use vstd::prelude::*;

verus! {

/// The signature of a compressed member.
pub open spec fn compressed_signature() -> Seq<u8> {
    seq![0x41u8, 0x43u8, 0x4Du8, 0x50u8, 0x52u8, 0x53u8, 0x30u8, 0x33u8]
}

/// The member count, or `Error::UnexpectedEof` when the data is shorter than four bytes.
pub open spec fn sakura_count(data: Seq<u8>) -> Result<u32, Error> {
    match span(data, 0, 4) {
        None => Err(Error::UnexpectedEof),
        Some(b) => Ok(u32_at(b, 0)),
    }
}

/// Record `i`: the member's name without trailing `.pr3`, its offset and its size.
pub open spec fn sakura_record(data: Seq<u8>, i: int) -> Result<(Seq<char>, u32, u32), Error> {
    let p = 36 + 272 * i;
    match span(data, p, 256) {
        None => Err(Error::UnexpectedEof),
        Some(nb) => match cp932_decoded(name_field(nb)) {
            None => Err(Error::BadName),
            Some(name) => match span(data, p + 256, 16) {
                None => Err(Error::UnexpectedEof),
                Some(h) => Ok((trim_end_seq(name, pr3_suffix()), u32_at(h, 4), u32_at(h, 0))),
            },
        },
    }
}

/// Reads the member count.
pub fn parse_sakura_count(data: &[u8]) -> (r: Result<u32, Error>)
    ensures
        match sakura_count(data@) {
            Ok(n) => r matches Ok(m) && m == n,
            Err(x) => r matches Err(y) && y == x,
        },
        r is Ok <==> data@.len() >= 4,
        r matches Ok(n) ==> n == le_u32(data@.subrange(0, 4)),
{
    let b = read_span(data, 0, 4)?;
    Ok(read_u32_le(b.as_slice()))
}

/// Reads record `i`: `Error::UnexpectedEof` when it lies past the end of the data,
/// `Error::BadName` when its name is not valid CP932.
pub fn parse_sakura_record(data: &[u8], i: u32) -> (r: Result<PlainEntry, Error>)
    ensures
        match sakura_record(data@, i as int) {
            Ok(v) => r matches Ok(e) && e@ == v,
            Err(x) => r matches Err(y) && y == x,
        },
        r matches Ok(e) ==> {
            let p = 36 + 272 * i;
            let name = cp932_decoded(name_field(data@.subrange(p, p + 256)));
            &&& p + 272 <= data@.len()
            &&& name is Some
            &&& e.filename@ == trim_end_seq(name->Some_0, seq!['.', 'p', 'r', '3'])
            &&& e.size == le_u32(data@.subrange(p + 256, p + 260))
            &&& e.offset == le_u32(data@.subrange(p + 260, p + 264))
        },
{
    let p: u64 = 36 + 272 * i as u64;
    let name_buf = read_span(data, p, 256)?;
    let n = name_length(name_buf.as_slice());
    let name_bytes = &name_buf.as_slice()[0..n];
    proof {
        assert(name_bytes@ =~= name_field(name_buf@));
    }
    let filename = match cp932_to_utf8(name_bytes) {
        Ok(s) => s,
        Err(_) => return Err(Error::BadName),
    };
    let out_name = trim_pr3(filename.as_str());
    let header = read_span(data, p + 256, 16)?;
    let size = read_u32_le(&header.as_slice()[0..4]);
    let offset = read_u32_le(&header.as_slice()[4..8]);
    proof {
        assert(pr3_suffix() =~= seq!['.', 'p', 'r', '3']);
    }
    Ok(PlainEntry { filename: out_name, offset, size })
}

fn signature() -> (m: Vec<u8>)
    ensures
        m@ == compressed_signature(),
{
    let mut m = Vec::new();
    m.push(0x41);
    m.push(0x43);
    m.push(0x4D);
    m.push(0x50);
    m.push(0x52);
    m.push(0x53);
    m.push(0x30);
    m.push(0x33);
    proof {
        assert(m@ =~= compressed_signature());
    }
    m
}

/// `data[start..]`, or nothing when `start` is past its end.
fn tail_from(data: &[u8], start: u64) -> (r: &[u8])
    ensures
        r@ == rest_from(data@, start as int),
{
    let s = if start <= data.len() as u64 { start as usize } else { data.len() };
    let r = &data[s..data.len()];
    proof {
        assert(r@ =~= rest_from(data@, start as int));
    }
    r
}

/// Whether a member is compressed: `Ok(true)` when its first eight bytes are `ACMPRS03`,
/// `Ok(false)` when they are something else, `Err(Error::UnexpectedEof)` when the data ends
/// before them.
pub fn is_compressed_member(data: &[u8], entry: &PlainEntry) -> (r: Result<bool, Error>)
    ensures
        match span(data@, entry.offset as int, 8) {
            None => r == Err::<bool, Error>(Error::UnexpectedEof),
            Some(m) => r == Ok::<bool, Error>(m == compressed_signature()),
        },
        r is Ok <==> entry.offset + 8 <= data@.len(),
        r matches Ok(b) ==> b == (data@.subrange(entry.offset as int, entry.offset + 8)
            == seq![0x41u8, 0x43u8, 0x4Du8, 0x50u8, 0x52u8, 0x53u8, 0x30u8, 0x33u8]),
{
    let m = read_span(data, entry.offset as u64, 8)?;
    let sig = signature();
    let same = check_magic(m.as_slice(), sig.as_slice());
    proof {
        assert(m@.take(8) =~= m@);
        assert(compressed_signature() =~= seq![0x41u8, 0x43u8, 0x4Du8, 0x50u8, 0x52u8, 0x53u8, 0x30u8, 0x33u8]);
    }
    Ok(same)
}

/// Extracts a member. A compressed one (`compressed`) is LZSS-decoded from 36 bytes past
/// its offset until `entry.size` bytes came out: every decoded byte is written, and the
/// result is `Err(Error::UnexpectedEof)` when the stream ends first. Any other member is
/// copied, `entry.size` bytes from its offset, as `extract_plain_entry` does.
pub fn extract_sakura_entry(data: &[u8], entry: &PlainEntry, compressed: bool, out: &mut Vec<u8>) -> (r: Result<(), Error>)
    ensures
        compressed ==> ({
            let (prod, stop) = lzss_decode(rest_from(data@, entry.offset + 36), entry.size as nat);
            &&& final(out)@ == old(out)@ + prod
            &&& (r is Ok <==> stop == LzssStop::Filled)
            &&& (r is Ok ==> prod.len() == entry.size)
            &&& (r is Err ==> r == Err::<(), Error>(Error::UnexpectedEof))
        }),
        !compressed ==> plain_extract_ok(data@, entry.offset, entry.size, old(out)@, final(out)@, r),
        !compressed && entry.offset + entry.size <= data@.len() ==> r is Ok
            && final(out)@ == old(out)@ + data@.subrange(entry.offset as int, entry.offset + entry.size),
{
    if compressed {
        let stream = tail_from(data, entry.offset as u64 + 36);
        let mut buf: Vec<u8> = vec![0u8; entry.size as usize];
        let (produced, stop) = lzss_decode_into(buf.as_mut_slice(), stream);
        proof {
            crate::lzss::lemma_run_len(stream@, entry.size as nat, 0, Seq::empty(), 0, 8);
        }
        append_range(out, buf.as_slice(), 0, produced);
        proof {
            let prod = lzss_decode(stream@, entry.size as nat).0;
            assert(buf@.subrange(0, produced as int) =~= prod);
        }
        match stop {
            LzssStop::Filled => Ok(()),
            _ => Err(Error::UnexpectedEof),
        }
    } else {
        let r = copy_from(data, entry.offset, entry.size, out);
        proof {
            if entry.offset + entry.size <= data@.len() {
                assert(rest_from(data@, entry.offset as int).take(entry.size as int)
                    =~= data@.subrange(entry.offset as int, entry.offset + entry.size));
            }
        }
        r
    }
}

} // verus!
