//! The error type of the readers.

use vstd::prelude::*;

verus! {

/// Why reading a file failed.
#[derive(Debug, Clone, Copy)]
pub enum Error {
    /// A read went past the end of the data.
    UnexpectedEof,
    /// A seek would have moved before the start of the data.
    InvalidSeek,
    /// The data does not start with the signature of the expected format.
    BadMagic,
    /// A file name is not valid CP932 text.
    BadName,
    /// LZSS decompression failed, with the decompressor's message.
    Decompress(&'static str),
    /// A zlib stream could not be inflated.
    Inflate,
    /// Fewer palette indices than pixels were given.
    NotEnoughIndices,
}

} // verus!
