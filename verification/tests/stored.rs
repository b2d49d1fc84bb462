use std::io::{Read, Write};

use mini_git::object::{Kind, Object, StoreError};
use mini_git::repo::{head_ref_content, init_decision, store_access_decision};
use mini_git::zlib::{decode_stored, encode_stored};

fn blob(payload: &[u8]) -> Object {
    Object { kind: Kind::Blob, payload: payload.to_vec() }
}

fn deflate(bytes: &[u8]) -> Vec<u8> {
    let mut enc = flate2::write::ZlibEncoder::new(Vec::new(), flate2::Compression::default());
    enc.write_all(bytes).unwrap();
    enc.finish().unwrap()
}

#[test]
fn stored_round_trip() {
    let original = blob(b"hello\n");
    let stored = encode_stored(&original);
    let decoded = decode_stored(&stored).unwrap();
    assert_eq!(decoded.kind, Kind::Blob);
    assert_eq!(decoded.payload, b"hello\n".to_vec());
}

#[test]
fn stored_bytes_are_compressed_serialization() {
    // The on-disk bytes are a real zlib stream holding exactly the
    // canonical serialization.
    let stored = encode_stored(&blob(b"hello\n"));
    let mut dec = flate2::read::ZlibDecoder::new(&stored[..]);
    let mut raw = Vec::new();
    dec.read_to_end(&mut raw).unwrap();
    assert_eq!(raw, b"blob 6\x00hello\n".to_vec());
}

#[test]
fn garbage_stream_is_io_failure() {
    assert_eq!(decode_stored(b"not a zlib stream").unwrap_err(), StoreError::IoFailure);
}

#[test]
fn compressed_truncated_object_detected() {
    let stored = deflate(b"blob 6\x00hel");
    assert_eq!(decode_stored(&stored).unwrap_err(), StoreError::TruncatedObject);
}

#[test]
fn compressed_trailing_data_detected() {
    let stored = deflate(b"blob 6\x00hello\nX");
    assert_eq!(decode_stored(&stored).unwrap_err(), StoreError::TrailingData);
}

#[test]
fn compressed_unknown_kind_detected() {
    let stored = deflate(b"tag 1\x00a");
    assert_eq!(decode_stored(&stored).unwrap_err(), StoreError::UnknownObjectKind);
}

#[test]
fn head_ref_names_main() {
    assert_eq!(head_ref_content(), "ref: refs/heads/main\n");
}

#[test]
fn init_refuses_existing_root() {
    assert_eq!(init_decision(true).unwrap_err(), StoreError::AlreadyInitialized);
    assert!(init_decision(false).is_ok());
}

#[test]
fn store_access_requires_initialization() {
    assert_eq!(
        store_access_decision(false).unwrap_err(),
        StoreError::RepositoryNotInitialized
    );
    assert!(store_access_decision(true).is_ok());
}
