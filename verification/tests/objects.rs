use hit::codec::{decode_object, encode_object};
use hit::error::Error;
use hit::object::{Blob, Commit, Hashable, Object, Tree, TreeEntry};
use hit::storage::ObjectStore;

#[test]
fn blob_hash_is_deterministic() {
    let blob = Blob { content: b"hello".to_vec() };
    assert_eq!(blob.hash(), blob.hash());
}

#[test]
fn tree_and_commit_hash() {
    let blob = Blob { content: b"hello".to_vec() };
    let tree = Tree {
        entries: vec![TreeEntry::Blob { name: "file.txt".into(), blob }],
    };
    let commit = Commit {
        tree: Tree {
            entries: vec![TreeEntry::Blob {
                name: "file.txt".into(),
                blob: Blob { content: b"hello".to_vec() },
            }],
        },
        message: "init".into(),
    };
    assert!(!tree.hash().is_empty());
    assert!(!commit.hash().is_empty());
}

#[test]
fn blob_hash_exact_value() {
    // SHA-256 of the canonical bytes of Blob { content: b"hello" }
    let blob = Blob { content: b"hello".to_vec() };
    assert_eq!(
        blob.hash(),
        "fe745503750fdbf3e6ef676d16d85ee0d63626c594222f7e991908bdffef7ac9"
    );
    let obj = Object::Blob(Blob { content: b"hello".to_vec() });
    assert_eq!(
        obj.hash(),
        "69ca153591b0dd3a849ba88cc1062c44fda127126183caabd56eb5740a16eb16"
    );
}

#[test]
fn different_content_hashes_differ() {
    let a = Blob { content: b"hello".to_vec() };
    let b = Blob { content: b"world".to_vec() };
    assert_ne!(a.hash(), b.hash());
}

#[test]
fn object_codec_round_trip() {
    let blob = Blob { content: b"hello".to_vec() };
    let tree = Tree {
        entries: vec![
            TreeEntry::Blob { name: "file".into(), blob },
            TreeEntry::Tree {
                name: "dir".into(),
                tree: Tree {
                    entries: vec![TreeEntry::Blob {
                        name: "nested.txt".into(),
                        blob: Blob { content: vec![0, 1, 2, 255] },
                    }],
                },
            },
        ],
    };
    let obj = Object::Commit(Commit { tree, message: "msg".into() });
    let bytes = encode_object(&obj);
    let back = decode_object(&bytes).expect("canonical bytes must decode");
    assert_eq!(encode_object(&back), bytes);
    assert_eq!(back.hash(), obj.hash());
}

#[test]
fn decode_rejects_garbage_and_trailing_bytes() {
    assert!(decode_object(b"not a valid serialized object").is_none());
    let obj = Object::Blob(Blob { content: b"x".to_vec() });
    let mut bytes = encode_object(&obj);
    bytes.push(0);
    assert!(decode_object(&bytes).is_none());
}

#[test]
fn blob_roundtrip() {
    let blob = Blob { content: b"hello".to_vec() };
    let obj = Object::Blob(blob);
    let hash = obj.hash();
    let mut store = ObjectStore::new();
    let written = store.put(&obj);
    assert_eq!(hash, written);
    let read = store.get(&hash).unwrap();
    assert_eq!(encode_object(&read), encode_object(&obj));
}

#[test]
fn tree_roundtrip() {
    let blob = Blob { content: b"hello".to_vec() };
    let tree = Tree {
        entries: vec![TreeEntry::Blob { name: "file".into(), blob }],
    };
    let obj = Object::Tree(tree);
    let hash = obj.hash();
    let mut store = ObjectStore::new();
    let written = store.put(&obj);
    assert_eq!(hash, written);
    let read = store.get(&hash).unwrap();
    assert_eq!(encode_object(&read), encode_object(&obj));
}

#[test]
fn commit_roundtrip() {
    let blob = Blob { content: b"hello".to_vec() };
    let tree = Tree {
        entries: vec![TreeEntry::Blob { name: "file".into(), blob }],
    };
    let commit = Commit { tree, message: "msg".into() };
    let obj = Object::Commit(commit);
    let hash = obj.hash();
    let mut store = ObjectStore::new();
    let written = store.put(&obj);
    assert_eq!(hash, written);
    let read = store.get(&hash).unwrap();
    assert_eq!(encode_object(&read), encode_object(&obj));
}

#[test]
fn put_is_idempotent_and_stores_one_copy() {
    let mut store = ObjectStore::new();
    let obj = Object::Blob(Blob { content: b"Duplicate content test".to_vec() });
    let h1 = store.put(&obj);
    assert_eq!(store.len(), 1);
    let h2 = store.put(&obj);
    assert_eq!(h1, h2);
    assert_eq!(store.len(), 1);
    assert!(store.contains(&h1));
}

#[test]
fn get_missing_is_not_found() {
    let store = ObjectStore::new();
    match store.get("nonexistent_hash_12345") {
        Err(e) => assert_eq!(e, Error::NotFound),
        Ok(_) => panic!("expected NotFound for a missing hash"),
    }
}
