use mini_git::ids::{object_id, ObjectId};
use mini_git::object::{Kind, Object, StoreError};
use mini_git::store::MemStore;

fn blob(payload: &[u8]) -> Object {
    Object { kind: Kind::Blob, payload: payload.to_vec() }
}

#[test]
fn put_then_get_returns_object() {
    let mut store = MemStore::new();
    let id = store.put(&blob(b"hello\n"));
    let fetched = store.get(&id).unwrap();
    assert_eq!(fetched.kind, Kind::Blob);
    assert_eq!(fetched.payload, b"hello\n".to_vec());
}

#[test]
fn put_is_idempotent() {
    let mut store = MemStore::new();
    assert_eq!(store.len(), 0);
    let first = store.put(&blob(b"same content"));
    assert_eq!(store.len(), 1);
    let second = store.put(&blob(b"same content"));
    assert_eq!(first.bytes, second.bytes);
    // Still exactly one entry at that location.
    assert_eq!(store.len(), 1);
    let fetched = store.get(&second).unwrap();
    assert_eq!(fetched.payload, b"same content".to_vec());
}

#[test]
fn put_matches_object_id() {
    let mut store = MemStore::new();
    let stored = store.put(&blob(b"abc"));
    let computed = object_id(&blob(b"abc"));
    assert_eq!(stored.bytes, computed.bytes);
}

#[test]
fn get_unwritten_id_is_not_found() {
    let store = MemStore::new();
    let id = ObjectId { bytes: vec![0u8; 20] };
    assert_eq!(store.get(&id).unwrap_err(), StoreError::ObjectNotFound);
}

#[test]
fn get_other_id_after_puts_is_not_found() {
    let mut store = MemStore::new();
    store.put(&blob(b"one"));
    store.put(&blob(b"two"));
    let id = ObjectId { bytes: vec![0xabu8; 20] };
    assert_eq!(store.get(&id).unwrap_err(), StoreError::ObjectNotFound);
}

#[test]
fn distinct_content_gets_distinct_entries() {
    let mut store = MemStore::new();
    let a = store.put(&blob(b"first"));
    let b = store.put(&blob(b"second"));
    assert_ne!(a.bytes, b.bytes);
    assert_eq!(store.get(&a).unwrap().payload, b"first".to_vec());
    assert_eq!(store.get(&b).unwrap().payload, b"second".to_vec());
}

#[test]
fn tree_and_commit_objects_are_stored_too() {
    let mut store = MemStore::new();
    let tree = Object { kind: Kind::Tree, payload: b"entries".to_vec() };
    let id = store.put(&tree);
    let fetched = store.get(&id).unwrap();
    assert_eq!(fetched.kind, Kind::Tree);
    assert_eq!(fetched.payload, b"entries".to_vec());
}
