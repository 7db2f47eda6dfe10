//! GGP images: a PNG file XOR-encrypted with an 8-byte key. The 36-byte header holds the
//! signature `GGPFAIKE`, the key XOR-ed with the signature at bytes 12 to 20, and the offset
//! and size of the encrypted data at bytes 20 and 24.

use crate::error::Error;
use crate::{check_magic, le_u32, read_span, read_u32_le, span, u32_at};
use vstd::prelude::*;

verus! {

/// The signature at the start of a GGP file.
pub open spec fn ggp_magic() -> Seq<u8> {
    seq![0x47u8, 0x47u8, 0x50u8, 0x46u8, 0x41u8, 0x49u8, 0x4Bu8, 0x45u8]
}

/// The key held in a GGP header: byte `i` of the header XOR byte `i + 12`.
pub open spec fn ggp_key(header: Seq<u8>) -> Seq<u8> {
    Seq::new(8, |i: int| header[i] ^ header[i + 12])
}

/// `data` with byte `i` XOR-ed with byte `i % 8` of `key`.
pub open spec fn xor_with_key(data: Seq<u8>, key: Seq<u8>) -> Seq<u8> {
    Seq::new(data.len(), |i: int| data[i] ^ key[i % 8])
}

/// The PNG file a GGP file holds, or why it cannot be read.
pub open spec fn ggp_png(data: Seq<u8>) -> Result<Seq<u8>, Error> {
    match span(data, 0, 36) {
        None => Err(Error::UnexpectedEof),
        Some(h) => if h.take(8) != ggp_magic() {
            Err(Error::BadMagic)
        } else {
            match span(data, u32_at(h, 20) as int, u32_at(h, 24) as int) {
                None => Err(Error::UnexpectedEof),
                Some(enc) => Ok(xor_with_key(enc, ggp_key(h))),
            }
        },
    }
}

/// XOR-ing twice with the same key gives the data back: decryption is its own inverse.
pub proof fn lemma_xor_involution(data: Seq<u8>, key: Seq<u8>)
    requires
        key.len() == 8,
    ensures
        xor_with_key(xor_with_key(data, key), key) == data,
{
    let once = xor_with_key(data, key);
    assert forall|i: int| 0 <= i < data.len() implies #[trigger] xor_with_key(once, key)[i] == data[i] by {
        let a = data[i];
        let k = key[i % 8];
        assert((a ^ k) ^ k == a) by (bit_vector);
    }
    assert(xor_with_key(once, key) =~= data);
}

/// XORs byte `i` of `data` with byte `i % 8` of `key`.
pub fn xor_decrypt(data: &[u8], key: &[u8]) -> (r: Vec<u8>)
    requires
        key@.len() == 8,
    ensures
        r@ == xor_with_key(data@, key@),
        r@.len() == data@.len(),
        forall|i: int| 0 <= i < data@.len() ==> #[trigger] r@[i] == data@[i] ^ key@[i % 8],
{
    let mut out: Vec<u8> = Vec::new();
    let mut i: usize = 0;
    while i < data.len()
        invariant
            i <= data@.len(),
            key@.len() == 8,
            out@ == xor_with_key(data@, key@).take(i as int),
        decreases data@.len() - i,
    {
        out.push(data[i] ^ key[i % 8]);
        proof {
            assert(xor_with_key(data@, key@).take(i + 1) =~= xor_with_key(data@, key@).take(i as int).push(data@[i as int] ^ key@[(i % 8) as int]));
        }
        i = i + 1;
    }
    proof {
        assert(xor_with_key(data@, key@).take(i as int) =~= xor_with_key(data@, key@));
    }
    out
}

fn magic() -> (m: Vec<u8>)
    ensures
        m@ == ggp_magic(),
{
    let mut m = Vec::new();
    m.push(0x47);
    m.push(0x47);
    m.push(0x50);
    m.push(0x46);
    m.push(0x41);
    m.push(0x49);
    m.push(0x4B);
    m.push(0x45);
    proof {
        assert(m@ =~= ggp_magic());
    }
    m
}

/// Decrypts a GGP file into the PNG file it holds: `Error::UnexpectedEof` when the header or
/// the encrypted data lies past the end of the data, `Error::BadMagic` when the data does not
/// start with `GGPFAIKE`.
pub fn convert_ggp(data: &[u8]) -> (r: Result<Vec<u8>, Error>)
    ensures
        match ggp_png(data@) {
            Ok(png) => r matches Ok(v) && v@ == png,
            Err(x) => r matches Err(y) && y == x,
        },
        r matches Ok(png) ==> {
            let off = le_u32(data@.subrange(20, 24));
            &&& data@.len() >= 36
            &&& data@.take(8) == seq![0x47u8, 0x47u8, 0x50u8, 0x46u8, 0x41u8, 0x49u8, 0x4Bu8, 0x45u8]
            &&& png@.len() == le_u32(data@.subrange(24, 28))
            &&& off + png@.len() <= data@.len()
            &&& forall|i: int| 0 <= i < png@.len() ==>
                #[trigger] png@[i] == data@[off + i] ^ (data@[i % 8] ^ data@[12 + i % 8])
        },
        data@.len() < 36 ==> (r matches Err(e) && e == Error::UnexpectedEof),
        data@.len() >= 36 && data@.take(8) != seq![0x47u8, 0x47u8, 0x50u8, 0x46u8, 0x41u8, 0x49u8, 0x4Bu8, 0x45u8] ==> (r matches Err(e) && e == Error::BadMagic),
{
    let header = read_span(data, 0, 36)?;
    proof {
        assert(header@.take(8) =~= data@.take(8));
    }
    let m = magic();
    if !check_magic(header.as_slice(), m.as_slice()) {
        return Err(Error::BadMagic);
    }
    let mut key: Vec<u8> = Vec::new();
    let mut i: usize = 0;
    while i < 8
        invariant
            i <= 8,
            header@.len() == 36,
            key@ == ggp_key(header@).take(i as int),
        decreases 8 - i,
    {
        key.push(header[i] ^ header[i + 12]);
        proof {
            assert(ggp_key(header@).take(i + 1) =~= ggp_key(header@).take(i as int).push(header@[i as int] ^ header@[i + 12]));
        }
        i = i + 1;
    }
    proof {
        assert(ggp_key(header@).take(8) =~= ggp_key(header@));
    }
    let offset = read_u32_le(&header.as_slice()[20..24]);
    let size = read_u32_le(&header.as_slice()[24..28]);
    let encrypted = read_span(data, offset as u64, size as u64)?;
    let png = xor_decrypt(encrypted.as_slice(), key.as_slice());
    proof {
        assert(header@.take(8) =~= data@.take(8));
        assert(m@ =~= seq![0x47u8, 0x47u8, 0x50u8, 0x46u8, 0x41u8, 0x49u8, 0x4Bu8, 0x45u8]);
        assert forall|i: int| 0 <= i < png@.len() implies
            #[trigger] png@[i] == data@[offset + i] ^ (data@[i % 8] ^ data@[12 + i % 8]) by {
            assert(encrypted@[i] == data@[offset + i]);
            assert(key@[i % 8] == header@[i % 8] ^ header@[i % 8 + 12]);
        }
    }
    Ok(png)
}

} // verus!
