//! The archive and image formats, and what they have in common: fixed-size index records,
//! NUL-padded names, and members that are stored as is or LZSS-compressed.

pub mod arcx;
pub mod cgd;
pub mod ggp;
pub mod hiz;
pub mod mif;
pub mod nekopunch;
pub mod ng3;
pub mod opk;
pub mod pak;
pub mod sakura;
pub mod sm2mpx;

use crate::error::Error;
use crate::lzss::{lzss_decode, lzss_decompress, LzssStop};
use crate::text::{lossy_string, trim_end_char, trim_nuls, utf8_lossy};
use crate::{append_range, copied_len, copy_data, read_span, rest_from, span};
use vstd::prelude::*;

verus! {

/// The records `0..n` of an index, where `f(i)` parses record `i`: all of them, or the error
/// of the first record that fails.
pub open spec fn records_upto<T>(f: spec_fn(int) -> Result<T, Error>, n: int) -> Result<Seq<T>, Error>
    decreases n,
{
    if n <= 0 {
        Ok(Seq::empty())
    } else {
        match records_upto(f, n - 1) {
            Err(e) => Err(e),
            Ok(s) => match f(n - 1) {
                Err(e) => Err(e),
                Ok(x) => Ok(s.push(x)),
            },
        }
    }
}

/// Once a record fails, every longer prefix of the index fails with the same error.
pub proof fn lemma_records_fail<T>(f: spec_fn(int) -> Result<T, Error>, i: int, n: int)
    requires
        0 <= i < n,
        records_upto(f, i) is Ok,
        f(i) is Err,
    ensures
        records_upto(f, n) == Err::<Seq<T>, Error>(f(i)->Err_0),
    decreases n - i,
{
    if n - 1 > i {
        lemma_records_fail(f, i, n - 1);
    }
}

/// The records `0..n` parse exactly when each of them does.
pub proof fn lemma_records_ok_iff<T>(f: spec_fn(int) -> Result<T, Error>, n: int)
    ensures
        records_upto(f, n) is Ok <==> forall|i: int| 0 <= i < n ==> (#[trigger] f(i)) is Ok,
    decreases n,
{
    if n > 0 {
        lemma_records_ok_iff(f, n - 1);
        if records_upto(f, n) is Ok {
            assert forall|i: int| 0 <= i < n implies (#[trigger] f(i)) is Ok by {
                if i < n - 1 {
                    assert(records_upto(f, n - 1) is Ok);
                }
            }
        }
        if forall|i: int| 0 <= i < n ==> (#[trigger] f(i)) is Ok {
            assert(f(n - 1) is Ok);
            assert forall|i: int| 0 <= i < n - 1 implies (#[trigger] f(i)) is Ok by {}
        }
    }
}

/// When the records `0..n` all parse, there are `n` of them and the `i`-th is what `f(i)`
/// gives.
pub proof fn lemma_records_ok<T>(f: spec_fn(int) -> Result<T, Error>, n: int)
    requires
        n >= 0,
        records_upto(f, n) is Ok,
    ensures
        records_upto(f, n)->Ok_0.len() == n,
        forall|i: int| 0 <= i < n ==> #[trigger] f(i) == Ok::<T, Error>(records_upto(f, n)->Ok_0[i]),
    decreases n,
{
    if n > 0 {
        lemma_records_ok(f, n - 1);
        let prev = records_upto(f, n - 1)->Ok_0;
        let all = records_upto(f, n)->Ok_0;
        assert forall|i: int| 0 <= i < n implies #[trigger] f(i) == Ok::<T, Error>(all[i]) by {
            if i < n - 1 {
                assert(all[i] == prev[i]);
            }
        }
    }
}

/// Index of the first zero byte of `buf` at or after `from`, or the length of `buf`.
pub open spec fn first_zero_from(buf: Seq<u8>, from: int) -> int
    decreases buf.len() - from,
{
    if from < 0 || from >= buf.len() {
        buf.len() as int
    } else if buf[from] == 0 {
        from
    } else {
        first_zero_from(buf, from + 1)
    }
}

proof fn lemma_first_zero_from(buf: Seq<u8>, from: int)
    requires
        0 <= from <= buf.len(),
    ensures
        from <= first_zero_from(buf, from) <= buf.len(),
        forall|j: int| from <= j < first_zero_from(buf, from) ==> buf[j] != 0,
        first_zero_from(buf, from) < buf.len() ==> buf[first_zero_from(buf, from)] == 0,
    decreases buf.len() - from,
{
    if from < buf.len() && buf[from] != 0 {
        lemma_first_zero_from(buf, from + 1);
    }
}

/// The name in a field is the longest prefix of the field without a zero byte: it is
/// followed by a zero byte, or it is the whole field.
pub proof fn lemma_name_field(buf: Seq<u8>)
    ensures
        name_field(buf).len() <= buf.len(),
        buf.take(name_field(buf).len() as int) == name_field(buf),
        forall|j: int| 0 <= j < name_field(buf).len() ==> #[trigger] name_field(buf)[j] != 0,
        name_field(buf).len() < buf.len() ==> buf[name_field(buf).len() as int] == 0,
{
    lemma_first_zero_from(buf, 0);
    let f = name_field(buf);
    assert forall|j: int| 0 <= j < f.len() implies #[trigger] f[j] != 0 by {
        assert(f[j] == buf[j]);
    }
}

/// The bytes of a NUL-terminated name field: everything before its first zero byte.
pub open spec fn name_field(buf: Seq<u8>) -> Seq<u8> {
    buf.take(first_zero_from(buf, 0))
}

/// Length of the name in a NUL-terminated field: the index of its first zero byte, or the
/// field's length when it has none.
pub fn name_length(buf: &[u8]) -> (n: usize)
    ensures
        n == first_zero_from(buf@, 0),
        n <= buf@.len(),
{
    let mut i: usize = 0;
    while i < buf.len()
        invariant
            i <= buf@.len(),
            first_zero_from(buf@, i as int) == first_zero_from(buf@, 0),
        decreases buf@.len() - i,
    {
        if buf[i] == 0 {
            return i;
        }
        i = i + 1;
    }
    i
}

/// A name field decoded as UTF-8, invalid sequences replaced, with trailing NULs removed.
pub open spec fn lossy_name(field: Seq<u8>) -> Seq<char> {
    trim_end_char(utf8_lossy(field), '\0')
}

/// Decodes a NUL-padded name field as `lossy_name` describes.
pub fn read_lossy_name(field: &[u8]) -> (r: String)
    ensures
        r@ == lossy_name(field@),
{
    let s = lossy_string(field);
    trim_nuls(s.as_str())
}

/// An archive member stored as is.
pub struct PlainEntry {
    pub filename: String,
    pub offset: u32,
    pub size: u32,
}

impl View for PlainEntry {
    /// File name, offset and size.
    type V = (Seq<char>, u32, u32);

    open spec fn view(&self) -> (Seq<char>, u32, u32) {
        (self.filename@, self.offset, self.size)
    }
}

/// The views of a run of plain entries.
pub open spec fn plain_views(v: Seq<PlainEntry>) -> Seq<(Seq<char>, u32, u32)> {
    v.map_values(|e: PlainEntry| e@)
}

/// An archive member that is either stored as is (`size` bytes) or LZSS-compressed into
/// `size` bytes that unpack to `unpacked_size`.
pub struct PackedEntry {
    pub filename: String,
    pub offset: u32,
    pub size: u32,
    pub unpacked_size: u32,
    pub is_packed: bool,
}

impl View for PackedEntry {
    /// File name, offset, stored size, unpacked size, and whether it is compressed.
    type V = (Seq<char>, u32, u32, u32, bool);

    open spec fn view(&self) -> (Seq<char>, u32, u32, u32, bool) {
        (self.filename@, self.offset, self.size, self.unpacked_size, self.is_packed)
    }
}

/// The views of a run of packed entries.
pub open spec fn packed_views(v: Seq<PackedEntry>) -> Seq<(Seq<char>, u32, u32, u32, bool)> {
    v.map_values(|e: PackedEntry| e@)
}

/// The message `lzss_decompress` gives for a run that stopped early.
pub open spec fn lzss_message(stop: LzssStop) -> Seq<char> {
    if stop == LzssStop::MatchCut {
        "Unexpected end of input"@
    } else {
        "Output buffer not fully filled"@
    }
}

/// What extracting a member stored as is writes and returns: the bytes from its offset,
/// copied block by block, failing when the data ends before `size` bytes.
pub open spec fn plain_extract_ok(data: Seq<u8>, offset: u32, size: u32, before: Seq<u8>, after: Seq<u8>, r: Result<(), Error>) -> bool {
    let avail = rest_from(data, offset as int);
    &&& after == before + avail.take(copied_len(avail.len(), size as nat) as int)
    &&& (r is Ok <==> avail.len() >= size)
    &&& (r is Err ==> r == Err::<(), Error>(Error::UnexpectedEof))
}

/// Copies a member stored as is: `entry.size` bytes from `entry.offset`.
pub fn extract_plain_entry(data: &[u8], entry: &PlainEntry, out: &mut Vec<u8>) -> (r: Result<(), Error>)
    ensures
        plain_extract_ok(data@, entry.offset, entry.size, old(out)@, final(out)@, r),
        entry.offset + entry.size <= data@.len() ==> r is Ok
            && final(out)@ == old(out)@ + data@.subrange(entry.offset as int, entry.offset + entry.size),
        entry.offset + entry.size > data@.len() && entry.size > 0 ==> r == Err::<(), Error>(Error::UnexpectedEof),
{
    let r = copy_from(data, entry.offset, entry.size, out);
    proof {
        if entry.offset + entry.size <= data@.len() {
            assert(rest_from(data@, entry.offset as int).take(entry.size as int)
                =~= data@.subrange(entry.offset as int, entry.offset + entry.size));
        }
    }
    r
}

/// Copies `size` bytes of `data` starting at `offset`, as a file positioned at `offset` would.
pub(crate) fn copy_from(data: &[u8], offset: u32, size: u32, out: &mut Vec<u8>) -> (r: Result<(), Error>)
    ensures
        plain_extract_ok(data@, offset, size, old(out)@, final(out)@, r),
{
    let start = if (offset as usize) <= data.len() { offset as usize } else { data.len() };
    let reader = slice_from(data, start);
    copy_data(reader, out, size as u64)
}

/// `data[start..]`.
fn slice_from(data: &[u8], start: usize) -> (r: &[u8])
    requires
        start <= data@.len(),
    ensures
        r@ == data@.skip(start as int),
{
    let r = &data[start..data.len()];
    proof {
        assert(r@ =~= data@.skip(start as int));
    }
    r
}

/// Extracts a member that may be LZSS-compressed. A member stored as is is copied as
/// `extract_plain_entry` does; a compressed one is read in full, then decompressed into
/// `entry.unpacked_size` bytes, and written only when decompression succeeds.
pub fn extract_packed_entry(data: &[u8], entry: &PackedEntry, out: &mut Vec<u8>) -> (r: Result<(), Error>)
    ensures
        !entry.is_packed ==> plain_extract_ok(data@, entry.offset, entry.size, old(out)@, final(out)@, r),
        entry.is_packed ==> match span(data@, entry.offset as int, entry.size as int) {
            None => r == Err::<(), Error>(Error::UnexpectedEof) && final(out)@ == old(out)@,
            Some(c) => {
                let (prod, stop) = lzss_decode(c, entry.unpacked_size as nat);
                &&& stop == LzssStop::Filled ==> r is Ok && final(out)@ == old(out)@ + prod
                    && prod.len() == entry.unpacked_size
                &&& stop != LzssStop::Filled ==> final(out)@ == old(out)@ && r is Err
                    && r->Err_0 is Decompress && r->Err_0->Decompress_0@ == lzss_message(stop)
            },
        },
{
    if !entry.is_packed {
        return copy_from(data, entry.offset, entry.size, out);
    }
    let compressed = read_span(data, entry.offset as u64, entry.size as u64)?;
    let mut decompressed: Vec<u8> = vec![0u8; entry.unpacked_size as usize];
    let ghost cap = decompressed@.len();
    proof {
        crate::lzss::lemma_run_len(compressed@, cap, 0, Seq::empty(), 0, 8);
    }
    match lzss_decompress(decompressed.as_mut_slice(), compressed.as_slice()) {
        Ok(()) => {
            append_range(out, decompressed.as_slice(), 0, decompressed.len());
            proof {
                assert(decompressed@.subrange(0, decompressed@.len() as int) =~= decompressed@);
            }
            Ok(())
        },
        Err(m) => Err(Error::Decompress(m)),
    }
}

} // verus!
