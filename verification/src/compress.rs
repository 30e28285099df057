//! Compression codec for chunk payloads. The codec itself is an outside
//! crate; what this module states of it is the encode and decode functions
//! on bytes, each under a name, and the round trip that its documentation
//! gives: decoding a frame produced by encoding yields the encoded bytes.

use crate::errors::CoreError;
use vstd::prelude::*;

verus! {

/// What the outside decompressor yields for a byte sequence: the decoded
/// bytes for a well-formed compressed frame, nothing otherwise. A function of
/// the frame bytes alone.
pub uninterp spec fn zstd_decoded(frame: Seq<u8>) -> Option<Seq<u8>>;

/// The compressed frame the outside encoder produces for a byte sequence at
/// the fixed default level: a function of the input bytes alone.
pub uninterp spec fn zstd_frame_of(data: Seq<u8>) -> Seq<u8>;

/// Relies on `zstd::stream::encode_all` at the default level, together with
/// `zstd::stream::decode_all`: encoding an in-memory slice at a valid level
/// does not fail, the frame is a function of the input bytes alone, and it
/// decodes back to the input.
#[verifier::external_body]
pub(crate) fn compress_chunk(data: &[u8]) -> (r: Result<Vec<u8>, CoreError>)
    ensures
        r is Ok,
        r matches Ok(v) ==> v@ == zstd_frame_of(data@) && zstd_decoded(v@) == Some(data@),
{
    match zstd::stream::encode_all(data, 0) {
        Ok(v) => Ok(v),
        Err(_) => Err(CoreError::Codec),
    }
}

/// Relies on `zstd::stream::decode_all`: decodes a well-formed frame in full,
/// fails on anything else.
#[verifier::external_body]
pub(crate) fn decompress_chunk(frame: &[u8]) -> (r: Result<Vec<u8>, CoreError>)
    ensures
        r matches Ok(v) ==> zstd_decoded(frame@) == Some(v@),
        r is Err ==> zstd_decoded(frame@) is None,
{
    match zstd::stream::decode_all(frame) {
        Ok(v) => Ok(v),
        Err(_) => Err(CoreError::Codec),
    }
}

} // verus!
