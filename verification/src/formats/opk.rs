//! `VoiceOggPackFile` voice archives: a 20-byte header (the 16-byte signature, member
//! count), then one 32-bit offset per member from byte 20 on, and at the very end of the
//! file one 8-byte NUL-padded name per member. A member runs from its offset to the next
//! member's offset, the last one to the end of the file; each is written out as `name.ogg`.

use super::{lossy_name, read_lossy_name, PlainEntry, plain_views};
use crate::error::Error;
use crate::{check_magic, le_u32, read_span, read_u32_le, span, u32_at};
use vstd::prelude::*;
use vstd::string::*;

verus! {

/// The 16-byte signature `VoiceOggPackFile`.
pub open spec fn opk_magic() -> Seq<u8> {
    seq![
        0x56u8, 0x6Fu8, 0x69u8, 0x63u8, 0x65u8, 0x4Fu8, 0x67u8, 0x67u8,
        0x50u8, 0x61u8, 0x63u8, 0x6Bu8, 0x46u8, 0x69u8, 0x6Cu8, 0x65u8,
    ]
}

/// The extension added to every member name.
pub open spec fn ogg_suffix() -> Seq<char> {
    seq!['.', 'o', 'g', 'g']
}

/// The member count, or why the header cannot be read.
pub open spec fn opk_count(data: Seq<u8>) -> Result<u32, Error> {
    match span(data, 0, 20) {
        None => Err(Error::UnexpectedEof),
        Some(h) => if h.take(16) == opk_magic() {
            Ok(u32_at(h, 16))
        } else {
            Err(Error::BadMagic)
        },
    }
}

/// How many offsets are read: one per member, and at least one.
pub open spec fn offsets_read(n: u32) -> int {
    if n == 0 { 1 } else { n as int }
}

/// The member count and the member offsets followed by the file length (reduced to 32
/// bits), or why they cannot be read: the names would start before the file does, or the
/// offsets run past its end.
pub open spec fn opk_offsets(data: Seq<u8>) -> Result<(u32, Seq<u32>), Error> {
    match opk_count(data) {
        Err(e) => Err(e),
        Ok(n) => if 8 * n > data.len() {
            Err(Error::InvalidSeek)
        } else if 20 + 4 * offsets_read(n) > data.len() {
            Err(Error::UnexpectedEof)
        } else {
            Ok((n, Seq::new(offsets_read(n) as nat, |j: int| u32_at(data, 20 + 4 * j)).push((data.len() % 0x1_0000_0000) as u32)))
        },
    }
}

/// Whether each of the `n` members starts at or before the next offset.
pub open spec fn opk_offsets_ascending(n: u32, offsets: Seq<u32>) -> bool {
    &&& offsets.len() > n
    &&& forall|i: int| 0 <= i < n ==> #[trigger] offsets[i] <= offsets[i + 1]
}

/// Member `i`: its name from the name table at the end of the data with `.ogg` added, its
/// offset, and its length up to the next offset.
pub open spec fn opk_member(data: Seq<u8>, n: u32, offsets: Seq<u32>, i: int) -> (Seq<char>, u32, u32) {
    let at = data.len() - 8 * n + 8 * i;
    (lossy_name(data.subrange(at, at + 8)) + ogg_suffix(), offsets[i], (offsets[i + 1] - offsets[i]) as u32)
}

fn magic() -> (m: Vec<u8>)
    ensures
        m@ == opk_magic(),
{
    let mut m = Vec::new();
    m.push(0x56);
    m.push(0x6F);
    m.push(0x69);
    m.push(0x63);
    m.push(0x65);
    m.push(0x4F);
    m.push(0x67);
    m.push(0x67);
    m.push(0x50);
    m.push(0x61);
    m.push(0x63);
    m.push(0x6B);
    m.push(0x46);
    m.push(0x69);
    m.push(0x6C);
    m.push(0x65);
    proof {
        assert(m@ =~= opk_magic());
    }
    m
}

/// Reads the member count and offsets: `Error::UnexpectedEof` when the header or an offset
/// lies past the end of the data, `Error::BadMagic` when the signature is wrong,
/// `Error::InvalidSeek` when the name table would start before the data does.
pub fn parse_opk_offsets(data: &[u8]) -> (r: Result<(u32, Vec<u32>), Error>)
    ensures
        match opk_offsets(data@) {
            Ok((n, offs)) => r matches Ok((m, v)) && m == n && v@ == offs,
            Err(x) => r matches Err(y) && y == x,
        },
        r matches Ok((n, v)) ==> {
            &&& data@.len() >= 20
            &&& data@.take(16) == seq![
                0x56u8, 0x6Fu8, 0x69u8, 0x63u8, 0x65u8, 0x4Fu8, 0x67u8, 0x67u8,
                0x50u8, 0x61u8, 0x63u8, 0x6Bu8, 0x46u8, 0x69u8, 0x6Cu8, 0x65u8,
            ]
            &&& n == le_u32(data@.subrange(16, 20))
            &&& 8 * n <= data@.len()
            &&& v@.len() == (if n == 0 { 2 } else { n + 1 })
            &&& 20 + 4 * (v@.len() - 1) <= data@.len()
            &&& forall|j: int| 0 <= j < v@.len() - 1 ==> #[trigger] v@[j] == le_u32(data@.subrange(20 + 4 * j, 24 + 4 * j))
            &&& v@.last() == data@.len() % 0x1_0000_0000
        },
        data@.len() < 20 ==> (r matches Err(e) && e == Error::UnexpectedEof),
        data@.len() >= 20 && data@.take(16) != seq![0x56u8, 0x6Fu8, 0x69u8, 0x63u8, 0x65u8, 0x4Fu8, 0x67u8, 0x67u8, 0x50u8, 0x61u8, 0x63u8, 0x6Bu8, 0x46u8, 0x69u8, 0x6Cu8, 0x65u8] ==> (r matches Err(e) && e == Error::BadMagic),
{
    let header = read_span(data, 0, 20)?;
    proof {
        assert(header@.take(16) =~= data@.take(16));
        assert(opk_magic() =~= seq![0x56u8, 0x6Fu8, 0x69u8, 0x63u8, 0x65u8, 0x4Fu8, 0x67u8, 0x67u8, 0x50u8, 0x61u8, 0x63u8, 0x6Bu8, 0x46u8, 0x69u8, 0x6Cu8, 0x65u8]);
    }
    let m = magic();
    if !check_magic(header.as_slice(), m.as_slice()) {
        return Err(Error::BadMagic);
    }
    let count = read_u32_le(&header.as_slice()[16..20]);
    let len = data.len() as u64;
    if 8 * count as u64 > len {
        return Err(Error::InvalidSeek);
    }
    let k: u32 = if count == 0 { 1 } else { count };
    let mut offsets: Vec<u32> = Vec::new();
    let mut j: u32 = 0;
    while j < k
        invariant
            data@.len() >= 20,
            data@.take(16) == seq![0x56u8, 0x6Fu8, 0x69u8, 0x63u8, 0x65u8, 0x4Fu8, 0x67u8, 0x67u8, 0x50u8, 0x61u8, 0x63u8, 0x6Bu8, 0x46u8, 0x69u8, 0x6Cu8, 0x65u8],
            j <= k,
            k as int == offsets_read(count),
            len == data@.len(),
            offsets@.len() == j,
            j == 0 || 20 + 4 * j <= data@.len(),
            forall|q: int| 0 <= q < j ==> #[trigger] offsets@[q] == u32_at(data@, 20 + 4 * q),
            opk_count(data@) == Ok::<u32, Error>(count),
            8 * count <= data@.len(),
        decreases k - j,
    {
        let word = match read_span(data, 20 + 4 * j as u64, 4) {
            Ok(w) => w,
            Err(e) => {
                proof {
                    assert(20 + 4 * offsets_read(count) > data@.len());
                }
                return Err(e);
            },
        };
        offsets.push(read_u32_le(word.as_slice()));
        j = j + 1;
    }
    offsets.push((len % 0x1_0000_0000) as u32);
    proof {
        assert(offsets@ =~= Seq::new(offsets_read(count) as nat, |q: int| u32_at(data@, 20 + 4 * q)).push((data@.len() % 0x1_0000_0000) as u32));
    }
    proof {
        assert(header@.subrange(16, 20) =~= data@.subrange(16, 20));
        assert(header@.take(16) =~= data@.take(16));
        assert(opk_magic() =~= seq![
            0x56u8, 0x6Fu8, 0x69u8, 0x63u8, 0x65u8, 0x4Fu8, 0x67u8, 0x67u8,
            0x50u8, 0x61u8, 0x63u8, 0x6Bu8, 0x46u8, 0x69u8, 0x6Cu8, 0x65u8,
        ]);
        assert forall|q: int| 0 <= q < offsets@.len() - 1 implies #[trigger] offsets@[q] == le_u32(data@.subrange(20 + 4 * q, 24 + 4 * q)) by {
            assert(data@.subrange(20 + 4 * q, 20 + 4 * q + 4) =~= data@.subrange(20 + 4 * q, 24 + 4 * q));
        }
    }
    Ok((count, offsets))
}

/// Whether each of the `count` members starts at or before the next offset, so that its
/// length is defined.
pub fn opk_lengths_defined(count: u32, offsets: &Vec<u32>) -> (r: bool)
    ensures
        r == opk_offsets_ascending(count, offsets@),
{
    if offsets.len() <= count as usize {
        return false;
    }
    let mut i: usize = 0;
    while i < count as usize
        invariant
            i <= count,
            offsets@.len() > count,
            forall|q: int| 0 <= q < i ==> #[trigger] offsets@[q] <= offsets@[q + 1],
        decreases count - i,
    {
        if offsets[i] > offsets[i + 1] {
            return false;
        }
        i = i + 1;
    }
    true
}

/// The members of a voice archive whose count and offsets `parse_opk_offsets` read.
pub fn opk_members(data: &[u8], count: u32, offsets: &Vec<u32>) -> (r: Vec<PlainEntry>)
    requires
        8 * count <= data@.len(),
        opk_offsets_ascending(count, offsets@),
    ensures
        r@.len() == count,
        forall|i: int| 0 <= i < count ==> #[trigger] plain_views(r@)[i] == opk_member(data@, count, offsets@, i),
        forall|i: int| 0 <= i < count ==> {
            let at = data@.len() - 8 * count + 8 * i;
            &&& (#[trigger] r@[i]).filename@ == lossy_name(data@.subrange(at, at + 8)) + seq!['.', 'o', 'g', 'g']
            &&& r@[i].offset == offsets@[i]
            &&& r@[i].offset + r@[i].size == offsets@[i + 1]
        },
{
    let name_start = data.len() - 8 * count as usize;
    let mut out: Vec<PlainEntry> = Vec::new();
    let mut i: usize = 0;
    while i < count as usize
        invariant
            i <= count,
            8 * count <= data@.len(),
            name_start == data@.len() - 8 * count,
            name_start + 8 * count == data.len(),
            opk_offsets_ascending(count, offsets@),
            out@.len() == i,
            forall|q: int| 0 <= q < i ==> #[trigger] plain_views(out@)[q] == opk_member(data@, count, offsets@, q),
        decreases count - i,
    {
        let at = name_start + 8 * i;
        let field = &data[at..at + 8];
        let name = read_lossy_name(field);
        let filename = name.concat(".ogg");
        proof {
            reveal_strlit(".ogg");
            assert(".ogg"@ =~= ogg_suffix());
        }
        assert(offsets@[i as int] <= offsets@[i + 1]);
        let size = offsets[i + 1] - offsets[i];
        let ghost prev = out@;
        out.push(PlainEntry { filename, offset: offsets[i], size });
        proof {
            assert forall|q: int| 0 <= q < i + 1 implies #[trigger] plain_views(out@)[q] == opk_member(data@, count, offsets@, q) by {
                if q < i {
                    assert(plain_views(out@)[q] == plain_views(prev)[q]);
                }
            }
        }
        i = i + 1;
    }
    proof {
        assert forall|q: int| 0 <= q < count implies {
            let at = data@.len() - 8 * count + 8 * q;
            &&& (#[trigger] out@[q]).filename@ == lossy_name(data@.subrange(at, at + 8)) + seq!['.', 'o', 'g', 'g']
            &&& out@[q].offset == offsets@[q]
            &&& out@[q].offset + out@[q].size == offsets@[q + 1]
        } by {
            assert(plain_views(out@)[q] == opk_member(data@, count, offsets@, q));
            assert(plain_views(out@)[q] == out@[q]@);
            assert(offsets@[q] <= offsets@[q + 1]);
        }
    }
    out
}

} // verus!
