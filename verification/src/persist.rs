//! The computing half of the persistence service: a parameter set to and
//! from the bytes of its on-disk file. The caller owns the file itself
//! (create, write, durable flush, open, read); this module owns everything
//! between a parameter set and the byte string that reaches the file.

use vstd::prelude::*;

verus! {

use crate::codec::{decode_record, enc_record, encode_record, record_ok};
use crate::compress::{compressed_of, decompressed_of, zstd_compress, zstd_decompress};
use crate::error::{CodecError, ProofError};
use crate::params::{from_record, params_of, record_of, to_record, PPDiskV, PublicParams};

/// The bytes the parameter file holds for a given record: the canonical
/// record encoding, compressed as one frame.
pub open spec fn file_bytes_of(r: PPDiskV) -> Seq<u8> {
    compressed_of(enc_record(r))
}

/// Produces the full contents of a parameter file for `pp`: the type tag is
/// erased, the record is canonically encoded, and the encoding is
/// compressed. Every step is total — encoding is a pure function of the
/// record and compression accepts every byte string — so the result is owed
/// on every input: exactly the file bytes of this parameter set's record.
pub fn encode_pp<T>(pp: PublicParams<T>) -> (r: Vec<u8>)
    ensures
        r@ == file_bytes_of(record_of(pp@)),
        record_ok(record_of(pp@)),
{
    let rec = to_record(pp);
    let payload = encode_record(&rec);
    match zstd_compress(&payload) {
        Some(v) => v,
        None => vstd::pervasive::unreached(),
    }
}

/// Rebuilds a parameter set from the contents of a parameter file,
/// re-attaching the caller's expected circuit-type tag.
///
/// Together with `encode_pp` this carries the round-trip law across
/// persistence: for any well-sized record `x`, feeding the exact bytes
/// `file_bytes_of(x)` back in yields `Ok`, and the result is `x` with the
/// tag re-attached. Anything that is not a valid frame fails with the
/// decompression error; a valid frame whose payload is not a canonical
/// record encoding fails with the malformed-record error; nothing else is
/// accepted.
pub fn decode_pp<T>(data: &Vec<u8>) -> (r: Result<PublicParams<T>, ProofError>)
    ensures
        r matches Ok(p) ==> (decompressed_of(data@) matches Some(pl)
            && pl == enc_record(record_of(p@)) && record_ok(record_of(p@))),
        forall|x: PPDiskV| record_ok(x) && data@ == file_bytes_of(x)
            ==> (r matches Ok(p) && p@ == params_of(x)),
        (r matches Err(e) && e == ProofError::Codec(CodecError::Decompress))
            <==> decompressed_of(data@) is None,
        (r matches Err(e) && e == ProofError::Codec(CodecError::Malformed))
            <==> (decompressed_of(data@) matches Some(pl)
                && !(exists|x: PPDiskV| record_ok(x) && pl == enc_record(x))),
        r matches Err(e) ==> (e == ProofError::Codec(CodecError::Decompress)
            || e == ProofError::Codec(CodecError::Malformed)),
{
    let payload = match zstd_decompress(data) {
        Some(v) => v,
        None => {
            return Err(ProofError::Codec(CodecError::Decompress));
        },
    };
    let rec = match decode_record(&payload) {
        Some(rec) => rec,
        None => {
            proof {
                assert forall|x: PPDiskV| record_ok(x) && payload@ == enc_record(x)
                    implies false by {}
            }
            return Err(ProofError::Codec(CodecError::Malformed));
        },
    };
    proof {
        assert(exists|x: PPDiskV| record_ok(x) && payload@ == enc_record(x)) by {
            assert(record_ok(rec@) && payload@ == enc_record(rec@));
        }
    }
    Ok(from_record(rec))
}

} // verus!
