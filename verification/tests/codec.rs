use mini_git::codec::{decode_object, encode_object};
use mini_git::object::{Kind, Object, StoreError};

fn blob(payload: &[u8]) -> Object {
    Object { kind: Kind::Blob, payload: payload.to_vec() }
}

#[test]
fn encode_blob_exact_bytes() {
    let encoded = encode_object(&blob(b"hello\n"));
    assert_eq!(encoded, b"blob 6\x00hello\n".to_vec());
}

#[test]
fn encode_empty_blob_exact_bytes() {
    let encoded = encode_object(&blob(b""));
    assert_eq!(encoded, b"blob 0\x00".to_vec());
}

#[test]
fn round_trip_blob() {
    let original = blob(b"some file contents\n");
    let decoded = decode_object(&encode_object(&original)).unwrap();
    assert_eq!(decoded.kind, Kind::Blob);
    assert_eq!(decoded.payload, original.payload);
}

#[test]
fn round_trip_tree_and_commit() {
    for kind in [Kind::Tree, Kind::Commit] {
        let original = Object { kind, payload: vec![0, 1, 2, 0, 255] };
        let decoded = decode_object(&encode_object(&original)).unwrap();
        assert_eq!(decoded.kind, kind);
        assert_eq!(decoded.payload, original.payload);
    }
}

#[test]
fn round_trip_payload_with_nul_bytes() {
    let original = blob(b"\x00\x00after nuls");
    let decoded = decode_object(&encode_object(&original)).unwrap();
    assert_eq!(decoded.payload, original.payload);
}

#[test]
fn truncated_object_detected() {
    let mut encoded = encode_object(&blob(b"hello\n"));
    encoded.pop();
    assert_eq!(decode_object(&encoded).unwrap_err(), StoreError::TruncatedObject);
}

#[test]
fn truncation_to_empty_payload_detected() {
    let encoded = encode_object(&blob(b"hello\n"));
    // Keep only the header: all six declared payload bytes are missing.
    let header_only = &encoded[..encoded.len() - 6];
    assert_eq!(decode_object(header_only).unwrap_err(), StoreError::TruncatedObject);
}

#[test]
fn trailing_data_detected() {
    let mut encoded = encode_object(&blob(b"hello\n"));
    encoded.push(b'x');
    assert_eq!(decode_object(&encoded).unwrap_err(), StoreError::TrailingData);
}

#[test]
fn missing_nul_is_malformed() {
    assert_eq!(decode_object(b"blob 6hello").unwrap_err(), StoreError::MalformedHeader);
}

#[test]
fn missing_space_is_malformed() {
    assert_eq!(decode_object(b"blob6\x00hello!").unwrap_err(), StoreError::MalformedHeader);
}

#[test]
fn empty_length_is_malformed() {
    assert_eq!(decode_object(b"blob \x00").unwrap_err(), StoreError::MalformedHeader);
}

#[test]
fn non_digit_length_is_malformed() {
    assert_eq!(decode_object(b"blob x\x00junk").unwrap_err(), StoreError::MalformedHeader);
}

#[test]
fn negative_length_is_malformed() {
    assert_eq!(decode_object(b"blob -1\x00j").unwrap_err(), StoreError::MalformedHeader);
}

#[test]
fn overflowing_length_is_malformed() {
    // Twenty-one digits cannot denote a representable length.
    assert_eq!(decode_object(b"blob 111111111111111111111\x00x").unwrap_err(), StoreError::MalformedHeader);
}

#[test]
fn oversized_header_is_malformed() {
    // The nul appears only after the scan bound.
    let mut bytes = b"blob ".to_vec();
    bytes.extend_from_slice(&[b'1'; 40]);
    bytes.push(0);
    assert_eq!(decode_object(&bytes).unwrap_err(), StoreError::MalformedHeader);
}

#[test]
fn header_at_scan_bound_accepted() {
    // The nul sits at index 32, the last position the scan reaches:
    // "blob " and a zero-padded length of twenty-seven digits.
    let mut bytes = b"blob ".to_vec();
    bytes.extend_from_slice(&[b'0'; 26]);
    bytes.push(b'6');
    bytes.push(0);
    assert_eq!(bytes.len(), 33);
    bytes.extend_from_slice(b"hello\n");
    let decoded = decode_object(&bytes).unwrap();
    assert_eq!(decoded.kind, Kind::Blob);
    assert_eq!(decoded.payload, b"hello\n".to_vec());
}

#[test]
fn header_past_scan_bound_rejected() {
    // One more digit pushes the nul to index 33, past the bound.
    let mut bytes = b"blob ".to_vec();
    bytes.extend_from_slice(&[b'0'; 27]);
    bytes.push(b'6');
    bytes.push(0);
    assert_eq!(bytes.len(), 34);
    bytes.extend_from_slice(b"hello\n");
    assert_eq!(decode_object(&bytes).unwrap_err(), StoreError::MalformedHeader);
}

#[test]
fn leading_zero_length_accepted() {
    let decoded = decode_object(b"blob 06\x00hello\n").unwrap();
    assert_eq!(decoded.payload, b"hello\n".to_vec());
}

#[test]
fn unknown_kind_detected() {
    assert_eq!(decode_object(b"tag 3\x00abc").unwrap_err(), StoreError::UnknownObjectKind);
    assert_eq!(decode_object(b"blobs 1\x00a").unwrap_err(), StoreError::UnknownObjectKind);
}

#[test]
fn uppercase_kind_is_unknown() {
    assert_eq!(decode_object(b"Blob 1\x00a").unwrap_err(), StoreError::UnknownObjectKind);
}

#[test]
fn invalid_utf8_header_is_malformed() {
    // 0xff can begin no UTF-8 sequence, so the header is rejected as
    // malformed before any kind lookup.
    assert_eq!(decode_object(b"\xff 1\x00a").unwrap_err(), StoreError::MalformedHeader);
}

#[test]
fn non_ascii_utf8_kind_is_unknown() {
    // A well-formed UTF-8 name that simply is not a known kind.
    assert_eq!(decode_object(b"\xc3\xa9 1\x00a").unwrap_err(), StoreError::UnknownObjectKind);
}

#[test]
fn empty_input_is_malformed() {
    assert_eq!(decode_object(b"").unwrap_err(), StoreError::MalformedHeader);
}
