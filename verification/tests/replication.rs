use hit::codec::encode_object;
use hit::error::Error;
use hit::object::{Blob, Commit, Hashable, Object, Tree};
use hit::server::{fetch_object, store_object};
use hit::storage::ObjectStore;
use hit::sync::{apply_fetched, backup_path, resolve_repo_path, SyncAction, SyncClient, SyncEvent};
use hit::watcher::should_ignore;

#[test]
fn test_store_object_endpoint() {
    let mut store = ObjectStore::new();
    let obj = Object::Blob(Blob { content: b"Hello, world!".to_vec() });
    let hash = obj.hash();
    let body = encode_object(&obj);
    store_object(&mut store, &hash, &body).expect("stored");
    let served = fetch_object(&store, &hash).expect("must be served back");
    assert_eq!(served, &body);
}

#[test]
fn test_store_object_with_hash_mismatch() {
    let mut store = ObjectStore::new();
    let obj = Object::Blob(Blob { content: b"Hello, world!".to_vec() });
    let body = encode_object(&obj);
    let res = store_object(&mut store, "wrong_hash_12345", &body);
    assert_eq!(res.unwrap_err(), Error::Validation);
    assert_eq!(store.len(), 0);
}

#[test]
fn test_store_object_with_invalid_data() {
    let mut store = ObjectStore::new();
    let res = store_object(&mut store, "some_hash", b"not a valid serialized object");
    assert_eq!(res.unwrap_err(), Error::Validation);
    assert_eq!(store.len(), 0);
}

#[test]
fn test_get_nonexistent_object() {
    let store = ObjectStore::new();
    let res = fetch_object(&store, "nonexistent_hash_12345");
    assert_eq!(res.unwrap_err(), Error::NotFound);
}

#[test]
fn test_roundtrip_object_storage() {
    let mut store = ObjectStore::new();
    for content in [b"Small content".to_vec(), vec![0u8; 1000], vec![255u8; 256]] {
        let obj = Object::Blob(Blob { content });
        let hash = obj.hash();
        let body = encode_object(&obj);
        store_object(&mut store, &hash, &body).unwrap();
        assert_eq!(fetch_object(&store, &hash).unwrap(), &body);
    }
}

#[test]
fn rejects_path_traversal() {
    let mut store = ObjectStore::new();
    let obj = Object::Blob(Blob { content: b"hi".to_vec() });
    let bytes = encode_object(&obj);
    let res = apply_fetched(&mut store, "../evil.txt", &bytes, false);
    assert_eq!(res.unwrap_err(), Error::Security);
    // nothing was stored: the rejection happens before any effect
    assert_eq!(store.len(), 0);
}

#[test]
fn path_safety_rules() {
    assert!(resolve_repo_path("synced.txt").is_ok());
    assert!(resolve_repo_path("a/b/c.txt").is_ok());
    assert!(resolve_repo_path("..plain-name").is_ok());
    assert!(resolve_repo_path("a/..b/c").is_ok());
    assert_eq!(resolve_repo_path("/abs/path").unwrap_err(), Error::Security);
    assert_eq!(resolve_repo_path("../evil.txt").unwrap_err(), Error::Security);
    assert_eq!(resolve_repo_path("a/../b").unwrap_err(), Error::Security);
    assert_eq!(resolve_repo_path("a/..").unwrap_err(), Error::Security);
    assert_eq!(resolve_repo_path("..").unwrap_err(), Error::Security);
}

#[test]
fn applies_change_from_server() {
    let mut store = ObjectStore::new();
    let blob = Blob { content: b"hello".to_vec() };
    let obj = Object::Blob(blob);
    let bytes = encode_object(&obj);
    let hash = obj.hash();
    let plan = apply_fetched(&mut store, "synced.txt", &bytes, false).unwrap();
    assert_eq!(plan.target, "synced.txt");
    assert_eq!(plan.content, b"hello".to_vec());
    assert!(plan.backup.is_none());
    // the object was cached locally under its hash
    assert!(store.contains(&hash));
}

#[test]
fn rejects_non_blob_objects() {
    let mut store = ObjectStore::new();
    let obj = Object::Commit(Commit { tree: Tree { entries: vec![] }, message: "msg".into() });
    let bytes = encode_object(&obj);
    let res = apply_fetched(&mut store, "commit.txt", &bytes, false);
    assert_eq!(res.unwrap_err(), Error::Validation);
    // like the object store itself, the apply step still caches the object
    assert!(store.contains(&obj.hash()));
}

#[test]
fn apply_rejects_undecodable_bytes() {
    let mut store = ObjectStore::new();
    let res = apply_fetched(&mut store, "f.txt", b"garbage", false);
    assert_eq!(res.unwrap_err(), Error::Decode);
    assert_eq!(store.len(), 0);
}

#[test]
fn backs_up_existing_file() {
    let mut store = ObjectStore::new();
    let obj = Object::Blob(Blob { content: b"new".to_vec() });
    let bytes = encode_object(&obj);
    let plan = apply_fetched(&mut store, "backup.txt", &bytes, true).unwrap();
    assert_eq!(plan.content, b"new".to_vec());
    assert_eq!(plan.target, "backup.txt");
    assert_eq!(plan.backup.as_deref(), Some("backup.bak"));
}

#[test]
fn backup_names_replace_the_extension() {
    assert_eq!(backup_path("backup.txt").unwrap(), "backup.bak");
    assert_eq!(backup_path("nope").unwrap(), "nope.bak");
    assert_eq!(backup_path("a.tar.gz").unwrap(), "a.tar.bak");
    assert_eq!(backup_path(".gitignore").unwrap(), ".gitignore.bak");
    assert_eq!(backup_path("dir/file.txt").unwrap(), "dir/file.bak");
    assert_eq!(backup_path("dir.d/file").unwrap(), "dir.d/file.bak");
}

#[test]
fn reconnect_backoff_doubles_and_caps() {
    let mut client = SyncClient::new();
    let mut delays = Vec::new();
    for _ in 0..8 {
        match client.on_event(SyncEvent::StreamError) {
            SyncAction::Reconnect(d) => delays.push(d),
            other => panic!("expected a reconnect, got {:?}", other),
        }
    }
    assert_eq!(delays, vec![1, 2, 4, 8, 16, 30, 30, 30]);
    // a successful connection resets the schedule
    assert_eq!(client.on_event(SyncEvent::Opened), SyncAction::Continue);
    match client.on_event(SyncEvent::Closed) {
        SyncAction::Reconnect(d) => assert_eq!(d, 1),
        other => panic!("expected a reconnect, got {:?}", other),
    }
}

#[test]
fn cancellation_always_stops() {
    let mut client = SyncClient::new();
    client.on_event(SyncEvent::ConnectFailed);
    assert_eq!(client.on_event(SyncEvent::Cancelled), SyncAction::Stop);
}

#[test]
fn message_events_are_applied() {
    let mut client = SyncClient::new();
    assert_eq!(client.on_event(SyncEvent::Message), SyncAction::Apply);
}

#[test]
fn watcher_ignores_repository_and_scratch_files() {
    assert!(should_ignore(".hit/some_file"));
    assert!(should_ignore("work/.hit/objects/abc"));
    assert!(should_ignore("file.txt~"));
    assert!(should_ignore("file.swp"));
    assert!(should_ignore("temp.tmp"));
    assert!(!should_ignore("src/lib.rs"));
    assert!(!should_ignore("hit.txt"));
    assert!(!should_ignore("a.hit/file"));
    assert!(!should_ignore("swp.file"));
}
