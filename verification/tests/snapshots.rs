//! The snapshot store.

use hashline::format::compute_file_hash;
use hashline::snapshots::InMemorySnapshotStore;

const PATH: &str = "/tmp/test.ts";
const TAG_RE: &str = r"^[0-9A-F]{4}$";

#[test]
fn test_derives_tag_from_content() {
    let mut store = InMemorySnapshotStore::new();
    let tag = store.record(PATH, "L1\nL2\nL3\n");
    assert!(regex::Regex::new(TAG_RE).unwrap().is_match(&tag));
    assert_eq!(tag, compute_file_hash("L1\nL2\nL3\n"));
}

#[test]
fn test_fuses_identical_content() {
    let mut store = InMemorySnapshotStore::new();
    let tag1 = store.record(PATH, "hello\n");
    let tag2 = store.record(PATH, "hello\n");
    assert_eq!(tag1, tag2);
}

#[test]
fn test_new_tag_on_content_change() {
    let mut store = InMemorySnapshotStore::new();
    let tag1 = store.record(PATH, "before\n");
    let tag2 = store.record(PATH, "after\n");
    assert_ne!(tag1, tag2);
}

#[test]
fn test_verify() {
    let mut store = InMemorySnapshotStore::new();
    let tag = store.record(PATH, "hello\n");
    assert!(store.verify(PATH, &tag));
    assert!(!store.verify(PATH, "0000"));
}

#[test]
fn test_cross_path_rejected() {
    let mut store = InMemorySnapshotStore::new();
    let tag = store.record(PATH, "hello\n");
    assert!(!store.verify("/tmp/other.ts", &tag));
}

#[test]
fn test_invalidate() {
    let mut store = InMemorySnapshotStore::new();
    let tag = store.record(PATH, "hello\n");
    assert!(store.verify(PATH, &tag));
    store.invalidate(PATH);
    assert!(!store.verify(PATH, &tag));
}
