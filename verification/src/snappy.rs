use vstd::prelude::*;

use crate::error::DemoError;

verus! {

/// What a snappy-compressed block decompresses to. Decompression is a
/// function of the input bytes alone, so the result only carries a name
/// here; the decoder below is trusted to produce it.
pub uninterp spec fn snappy_plain(compressed: Seq<u8>) -> Seq<u8>;

/// Whether a byte string is a well-formed snappy block. Like the
/// decompressed bytes, this depends on the input alone.
pub uninterp spec fn snappy_ok(compressed: Seq<u8>) -> bool;

/// Relies on `snap::raw::Decoder::decompress_vec`: whether it succeeds,
/// and what it produces, are functions of the input bytes alone, and
/// malformed input is reported as an error rather than decoded.
#[verifier::external_body]
pub(crate) fn snappy_decompress(data: &Vec<u8>) -> (r: Result<Vec<u8>, DemoError>)
    ensures
        r is Ok <==> snappy_ok(data@),
        r matches Ok(v) ==> v@ == snappy_plain(data@),
        r matches Err(e) ==> e == DemoError::DecompressionFailed,
{
    match snap::raw::Decoder::new().decompress_vec(data.as_slice()) {
        Ok(v) => Ok(v),
        Err(_) => Err(DemoError::DecompressionFailed),
    }
}

} // verus!
