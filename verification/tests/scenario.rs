use mini_git::ids::{fan_out, object_id_hex};
use mini_git::object::{pretty_payload, Kind, Object, StoreError};
use mini_git::store::MemStore;

#[test]
fn end_to_end_hello() {
    // A fresh store; writing a blob holding "hello\n" yields the SHA-1
    // of "blob 6\0hello\n", fanned out as ce/013...; reading it back
    // and printing it yields exactly "hello\n".
    let mut store = MemStore::new();
    let object = Object { kind: Kind::Blob, payload: b"hello\n".to_vec() };
    let id = store.put(&object);
    assert_eq!(object_id_hex(&id), "ce013625030ba8dba906f756967f9e9ca394464a");
    let (dir, file) = fan_out(&id);
    assert_eq!(dir, "ce");
    assert_eq!(file, "013625030ba8dba906f756967f9e9ca394464a");
    let fetched = store.get(&id).unwrap();
    let printed = pretty_payload(&fetched).unwrap();
    assert_eq!(printed, b"hello\n".to_vec());
}

#[test]
fn pretty_payload_prints_blobs_only() {
    let blob = Object { kind: Kind::Blob, payload: b"data".to_vec() };
    assert_eq!(pretty_payload(&blob).unwrap(), b"data".to_vec());

    let tree = Object { kind: Kind::Tree, payload: b"data".to_vec() };
    assert_eq!(pretty_payload(&tree).unwrap_err(), StoreError::UnsupportedKind);

    let commit = Object { kind: Kind::Commit, payload: b"data".to_vec() };
    assert_eq!(pretty_payload(&commit).unwrap_err(), StoreError::UnsupportedKind);
}
