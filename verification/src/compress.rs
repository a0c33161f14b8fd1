//! Trusted boundary around zstd's whole-stream compression.
//!
//! The parameter file holds one compressed frame; the payload inside it is
//! the canonical record encoding. Compression is chosen for fast single-pass
//! operation, not maximum ratio: parameter files are written once and read
//! many times.

use vstd::prelude::*;

verus! {

/// The byte string zstd produces, at the default compression level, for a
/// given input. Compression is a pure function of the input bytes.
pub uninterp spec fn compressed_of(s: Seq<u8>) -> Seq<u8>;

/// What zstd decompression yields for a given input: the payload, or
/// nothing when the input is not a valid compressed frame.
pub uninterp spec fn decompressed_of(s: Seq<u8>) -> Option<Seq<u8>>;

/// Relies on zstd::stream::encode_all at level 0 (the library's default
/// level): single-pass compression of the whole input into one frame, a
/// pure function of the input bytes. It accepts every input, and here it
/// reads from an in-memory slice and writes into a vector, neither of which
/// can fail, so the call always succeeds.
#[verifier::external_body]
pub(crate) fn zstd_compress(data: &Vec<u8>) -> (r: Option<Vec<u8>>)
    ensures
        r is Some,
        r matches Some(v) ==> v@ == compressed_of(data@),
{
    match zstd::stream::encode_all(data.as_slice(), 0) {
        Ok(v) => Some(v),
        Err(_) => None,
    }
}

/// Relies on zstd::stream::decode_all: decompression is a pure function of
/// the input; it fails exactly on inputs that are not a valid frame; and,
/// zstd being lossless, decompressing what `encode_all` produced yields the
/// original input.
#[verifier::external_body]
pub(crate) fn zstd_decompress(data: &Vec<u8>) -> (r: Option<Vec<u8>>)
    ensures
        r matches Some(v) ==> decompressed_of(data@) == Some(v@),
        r is None ==> decompressed_of(data@) is None,
        r is None ==> forall|b: Seq<u8>| data@ != compressed_of(b),
        r matches Some(v) ==> forall|b: Seq<u8>| data@ == compressed_of(b) ==> v@ == b,
{
    match zstd::stream::decode_all(data.as_slice()) {
        Ok(v) => Some(v),
        Err(_) => None,
    }
}

} // verus!
