use mini_git::ids::{fan_out, object_id, object_id_hex, valid_hex_id};
use mini_git::object::{Kind, Object};

const HELLO_ID: &str = "ce013625030ba8dba906f756967f9e9ca394464a";

fn hello_blob() -> Object {
    Object { kind: Kind::Blob, payload: b"hello\n".to_vec() }
}

#[test]
fn known_blob_digest() {
    // The id of a blob holding "hello\n" is the SHA-1 of "blob 6\0hello\n".
    let id = object_id(&hello_blob());
    assert_eq!(object_id_hex(&id), HELLO_ID);
}

#[test]
fn digest_is_deterministic() {
    let a = object_id(&hello_blob());
    let b = object_id(&hello_blob());
    assert_eq!(a.bytes, b.bytes);
    assert_eq!(object_id_hex(&a), object_id_hex(&b));
}

#[test]
fn digest_depends_on_kind() {
    let blob = object_id(&Object { kind: Kind::Blob, payload: b"x".to_vec() });
    let tree = object_id(&Object { kind: Kind::Tree, payload: b"x".to_vec() });
    assert_ne!(blob.bytes, tree.bytes);
}

#[test]
fn digest_depends_on_payload() {
    let a = object_id(&Object { kind: Kind::Blob, payload: b"a".to_vec() });
    let b = object_id(&Object { kind: Kind::Blob, payload: b"b".to_vec() });
    assert_ne!(a.bytes, b.bytes);
}

#[test]
fn fan_out_splits_hex_id() {
    let id = object_id(&hello_blob());
    let (dir, file) = fan_out(&id);
    assert_eq!(dir, &HELLO_ID[..2]);
    assert_eq!(file, &HELLO_ID[2..]);
    assert_eq!(format!("{dir}{file}"), HELLO_ID);
}

#[test]
fn id_is_twenty_bytes() {
    let id = object_id(&hello_blob());
    assert_eq!(id.bytes.len(), 20);
    assert_eq!(object_id_hex(&id).len(), 40);
}

#[test]
fn valid_hex_id_accepts_well_formed() {
    assert!(valid_hex_id(HELLO_ID.as_bytes()));
}

#[test]
fn valid_hex_id_rejects_bad_length() {
    assert!(!valid_hex_id(&HELLO_ID.as_bytes()[..39]));
    assert!(!valid_hex_id(b""));
}

#[test]
fn valid_hex_id_rejects_bad_characters() {
    assert!(!valid_hex_id(b"CE013625030BA8DBA906F756967F9E9CA394464A"));
    assert!(!valid_hex_id(b"ce013625030ba8dba906f756967f9e9ca39446_g"));
}
