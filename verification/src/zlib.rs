//! The on-disk byte representation: canonical serializations are stored
//! zlib-compressed, and reading undoes the compression before decoding.

use vstd::prelude::*;
use std::io::Read;
use std::io::Write;
use crate::codec::{decode_object, decode_spec, decoded_view, encode_object, serial_of};
use crate::object::{Object, ObjectView, StoreError};

verus! {

/// What zlib decompression yields on a byte stream: the decompressed
/// bytes, or nothing when the stream is not well formed. The outcome is
/// a pure function of the input bytes; nothing short of the algorithm
/// itself would pin it, so the function is left uninterpreted and
/// applied by the trusted wrappers below.
pub uninterp spec fn zlib_inflate(bytes: Seq<u8>) -> Option<Seq<u8>>;

/// Relies on flate2::write::ZlibEncoder: compresses at the default level
/// into a zlib stream whose decompression gives back the input. Writing
/// into an in-memory buffer cannot fail.
#[verifier::external_body]
fn zlib_compress(data: &[u8]) -> (r: Vec<u8>)
    ensures
        zlib_inflate(r@) == Some(data@),
{
    let mut enc = flate2::write::ZlibEncoder::new(Vec::new(), flate2::Compression::default());
    enc.write_all(data).expect("writing into a byte buffer cannot fail");
    enc.finish().expect("writing into a byte buffer cannot fail")
}

/// Relies on flate2::read::ZlibDecoder: yields the decompressed bytes of
/// a well-formed zlib stream, and an error on any other input.
#[verifier::external_body]
fn zlib_decompress(data: &[u8]) -> (r: Option<Vec<u8>>)
    ensures
        match r {
            Some(v) => zlib_inflate(data@) == Some(v@),
            None => zlib_inflate(data@) is None,
        },
{
    let mut dec = flate2::read::ZlibDecoder::new(data);
    let mut out: Vec<u8> = Vec::new();
    match dec.read_to_end(&mut out) {
        Ok(_) => Some(out),
        Err(_) => None,
    }
}

/// What decoding a stored byte stream yields: decompress, then decode;
/// a stream that does not decompress is an `IoFailure`.
pub open spec fn decode_stored_spec(bytes: Seq<u8>) -> Result<ObjectView, StoreError> {
    match zlib_inflate(bytes) {
        Some(raw) => decode_spec(raw),
        None => Err(StoreError::IoFailure),
    }
}

/// Encodes an object into its on-disk bytes: the canonical
/// serialization, compressed.
pub fn encode_stored(obj: &Object) -> (r: Vec<u8>)
    ensures
        zlib_inflate(r@) == Some(serial_of(obj@)),
{
    let serial = encode_object(obj);
    zlib_compress(serial.as_slice())
}

/// Decodes on-disk bytes back into an object, reporting exactly which
/// step failed on every other input.
pub fn decode_stored(bytes: &[u8]) -> (r: Result<Object, StoreError>)
    ensures
        decoded_view(r) == decode_stored_spec(bytes@),
{
    match zlib_decompress(bytes) {
        Some(raw) => decode_object(raw.as_slice()),
        None => Err(StoreError::IoFailure),
    }
}

/// Round trip through the on-disk representation: decoding any bytes
/// that decompress to an object's canonical serialization yields exactly
/// that object.
pub proof fn lemma_stored_round_trip(o: ObjectView, stored: Seq<u8>)
    requires
        o.payload.len() <= usize::MAX,
        zlib_inflate(stored) == Some(serial_of(o)),
    ensures
        decode_stored_spec(stored) == Ok::<ObjectView, StoreError>(o),
{
    crate::codec::lemma_round_trip(o);
}

} // verus!
