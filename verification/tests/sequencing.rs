use hit::commit::{Commit as Record, CommitStore};
use hit::commit_log::CommitLog;
use hit::error::Error;
use hit::server::{ingest_change, Change, IngestOutcome};

fn change(hash: &str, path: &str, timestamp: u64) -> Change {
    Change { hash: hash.to_string(), path: path.to_string(), timestamp }
}

#[test]
fn test_duplicate_changes_are_deduplicated() {
    let mut store = CommitStore::default();

    let c = change("abc123", "test.txt", 1000);

    let commit1 = store.add_commit(c.clone(), 1000).expect("first commit should succeed");
    let commit2 = store.add_commit(c.clone(), 1000).expect("second commit should succeed");

    assert_eq!(
        commit1.id, commit2.id,
        "duplicate changes should return the same commit"
    );

    let all_commits = store.all().expect("should get all commits");
    assert_eq!(
        all_commits.len(),
        1,
        "should only have one commit for duplicate changes"
    );
}

#[test]
fn test_different_changes_create_separate_commits() {
    let mut store = CommitStore::default();

    let change1 = change("abc123", "test.txt", 1000);
    let change2 = change("def456", "test.txt", 1001);

    let commit1 = store.add_commit(change1, 1000).expect("first commit should succeed");
    let commit2 = store.add_commit(change2, 1001).expect("second commit should succeed");

    assert_ne!(
        commit1.id, commit2.id,
        "different changes should create separate commits"
    );
    assert_eq!(
        commit2.id,
        commit1.id + 1,
        "second commit should have incremented ID"
    );

    let all_commits = store.all().expect("should get all commits");
    assert_eq!(
        all_commits.len(),
        2,
        "should have two commits for different changes"
    );
}

#[test]
fn test_same_hash_different_path_creates_new_commit() {
    let mut store = CommitStore::default();

    let change1 = change("abc123", "test1.txt", 1000);
    let change2 = change("abc123", "test2.txt", 1001);

    let commit1 = store.add_commit(change1, 1000).expect("first commit should succeed");
    let commit2 = store.add_commit(change2, 1001).expect("second commit should succeed");

    assert_ne!(
        commit1.id, commit2.id,
        "same hash different path should create separate commits"
    );

    let all_commits = store.all().expect("should get all commits");
    assert_eq!(
        all_commits.len(),
        2,
        "should have two commits for same hash different paths"
    );
}

#[test]
fn ids_are_gapless_and_latest_is_maximum() {
    let mut store = CommitStore::new();
    for i in 0..5u64 {
        let c = change(&format!("h{}", i), "file", i);
        let rec = store.add_commit(c, i).unwrap();
        assert_eq!(rec.id, i + 1);
    }
    let all = store.all().unwrap();
    assert_eq!(all.len(), 5);
    for (i, rec) in all.iter().enumerate() {
        assert_eq!(rec.id, i as u64 + 1);
    }
    let latest = store.latest().unwrap().unwrap();
    assert_eq!(latest.id, 5);
    assert!(all.iter().all(|r| r.id <= latest.id));
}

#[test]
fn error_on_poisoned_lock() {
    let mut store = CommitStore::default();
    store.mark_poisoned();
    let res = store.add_commit(change("h", "p", 0), 0);
    assert!(res.is_err());
    assert_eq!(res.unwrap_err(), Error::LockFailure);
    assert!(store.all().is_err());
    assert!(store.latest().is_err());
}

#[test]
fn no_memory_update_on_log_failure() {
    // a journal whose backing medium is already exhausted
    let mut store = CommitStore::with_empty_log(CommitLog::bounded(0));
    let res = store.add_commit(change("h", "p", 0), 0);
    assert!(res.is_err());
    assert_eq!(store.all().unwrap().len(), 0);
}

#[test]
fn write_and_reload() {
    let mut log = CommitLog::new();
    let commit1 = Record {
        id: 1,
        changes: vec![change("h1", "p", 1)],
        timestamp: 1,
    };
    let commit2 = Record {
        id: 2,
        changes: vec![change("h2", "p", 2)],
        timestamp: 2,
    };
    log.append(&commit1).unwrap();
    log.append(&commit2).unwrap();

    let (loaded, _, torn) = CommitLog::load(log.raw()).unwrap();
    assert_eq!(loaded, vec![commit1, commit2]);
    assert!(!torn);
}

#[test]
fn reload_resumes_numbering() {
    let mut log = CommitLog::new();
    let mut store = CommitStore::with_empty_log(log);
    store.add_commit(change("h1", "a", 1), 1).unwrap();
    store.add_commit(change("h2", "b", 2), 2).unwrap();

    // replay the journal image into a fresh store, as a restart would
    let all = store.all().unwrap();
    log = CommitLog::new();
    for rec in &all {
        log.append(rec).unwrap();
    }
    let (mut store2, torn) = CommitStore::with_log(log).unwrap();
    assert!(!torn);
    assert_eq!(store2.all().unwrap().len(), 2);
    let rec = store2.add_commit(change("h3", "c", 3), 3).unwrap();
    assert_eq!(rec.id, 3);
}

#[test]
fn torn_tail_is_discarded_on_load() {
    let mut log = CommitLog::new();
    let commit1 = Record {
        id: 1,
        changes: vec![change("h1", "p", 1)],
        timestamp: 1,
    };
    log.append(&commit1).unwrap();
    let mut bytes = log.raw().clone();
    // a crash in the middle of the next frame's length header
    bytes.push(7);
    bytes.push(0);
    let (loaded, clean, torn) = CommitLog::load(&bytes).unwrap();
    assert_eq!(loaded, vec![commit1]);
    assert!(torn);
    assert_eq!(clean, bytes.len() - 2);
}

#[test]
fn corrupt_frame_is_a_hard_error() {
    // a well-formed frame whose payload is not a zstd frame
    let bytes: Vec<u8> = vec![3, 0, 0, 0, 9, 9, 9];
    let res = CommitLog::load(&bytes);
    assert!(res.is_err());
    assert_eq!(res.unwrap_err(), Error::Io);
}

#[test]
fn ingest_accepts_and_numbers_changes() {
    // submitting one notice yields record one and an event carrying it
    let mut store = CommitStore::new();
    let c = change("abc", "f.txt", 1);
    match ingest_change(&mut store, c.clone(), 1).unwrap() {
        IngestOutcome::Accepted(rec, event) => {
            assert_eq!(rec.id, 1);
            assert_eq!(event.commit_id, 1);
            assert_eq!(event.change, c);
        }
        IngestOutcome::Duplicate(_) => panic!("first change must be fresh"),
    }
    let all = store.all().unwrap();
    assert_eq!(all.len(), 1);
    assert_eq!(all[0].id, 1);
    assert_eq!(all[0].changes, vec![c]);
}

#[test]
fn ingest_does_not_rebroadcast_duplicates() {
    let mut store = CommitStore::new();
    let c = change("abc", "f.txt", 1);
    ingest_change(&mut store, c.clone(), 1).unwrap();
    match ingest_change(&mut store, c, 1).unwrap() {
        IngestOutcome::Duplicate(rec) => assert_eq!(rec.id, 1),
        IngestOutcome::Accepted(_, _) => panic!("repeated change must coalesce"),
    }
    assert_eq!(store.all().unwrap().len(), 1);
}

#[test]
fn next_and_confirm_commit_sequence_durably() {
    let mut store = CommitStore::new();
    let c = change("abc", "f.txt", 7);
    let candidate = store.next_commit(&c, 7).unwrap().expect("fresh change");
    assert_eq!(candidate.id, 1);
    // the caller persists the frame here, then admits the record
    let admitted = store.confirm_commit(candidate).unwrap();
    assert_eq!(admitted.id, 1);
    assert_eq!(store.all().unwrap().len(), 1);
    // a stale candidate is rejected
    let stale = Record { id: 1, changes: vec![c], timestamp: 7 };
    assert_eq!(store.confirm_commit(stale).unwrap_err(), Error::Validation);
}

#[test]
fn only_consecutive_duplicates_coalesce() {
    // the policy: a notice coalesces only into the latest record
    let mut store = CommitStore::new();
    let a = change("abc", "a.txt", 1);
    let b = change("def", "b.txt", 2);
    store.add_commit(a.clone(), 1).unwrap();
    store.add_commit(b, 2).unwrap();
    let again = store.add_commit(a, 3).unwrap();
    assert_eq!(again.id, 3);
    assert_eq!(store.all().unwrap().len(), 3);
}

#[test]
fn with_log_rejects_records_out_of_sequence() {
    let mut log = CommitLog::new();
    let stray = Record {
        id: 5,
        changes: vec![change("h", "p", 1)],
        timestamp: 1,
    };
    log.append(&stray).unwrap();
    let res = CommitStore::with_log(log);
    assert!(res.is_err());
    assert_eq!(res.err().map(|e| e.describe()), Some("validation error"));
}

#[test]
fn confirm_commit_rejects_empty_change_lists() {
    let mut store = CommitStore::new();
    let hollow = Record { id: 1, changes: vec![], timestamp: 1 };
    assert_eq!(store.confirm_commit(hollow).unwrap_err(), Error::Validation);
    assert_eq!(store.all().unwrap().len(), 0);
}

#[test]
fn with_log_rejects_records_without_changes() {
    let mut log = CommitLog::new();
    let hollow = Record { id: 1, changes: vec![], timestamp: 1 };
    log.append(&hollow).unwrap();
    let res = CommitStore::with_log(log);
    assert!(res.is_err());
    assert_eq!(res.err().map(|e| e.describe()), Some("validation error"));
}

#[test]
fn hash_is_sixty_four_hex_characters() {
    let blob = hit::object::Blob { content: b"hello".to_vec() };
    let h = hit::object::Hashable::hash(&blob);
    assert_eq!(h.len(), 64);
    assert!(h.chars().all(|c| c.is_ascii_hexdigit()));
}
