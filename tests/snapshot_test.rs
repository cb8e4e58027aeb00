use std::collections::hash_map::DefaultHasher;
use std::hash::{Hash, Hasher};
use vectordb::snapshot::{
    files_to_restore, snapshot_checksum, snapshot_name, snapshots_to_delete, sort_newest_first, verify_snapshot, SnapshotFile,
    SnapshotMetadata,
};
use vectordb::types::VectorDbError;

fn file(name: &str, contents: &[u8]) -> SnapshotFile {
    SnapshotFile { name: name.to_string(), contents: contents.to_vec() }
}

fn meta(name: &str, created_at: u64, checksum: &str) -> SnapshotMetadata {
    SnapshotMetadata {
        name: name.to_string(),
        collection: "c".to_string(),
        created_at,
        size_bytes: 0,
        vector_count: 0,
        checksum: checksum.to_string(),
    }
}

#[test]
fn snapshot_tamper_is_detected() {
    let files = vec![file("vectors.bin", b"test vectors"), file("metadata.json", b"{}")];
    let checksum = snapshot_checksum(&files);
    let m = meta("c_1", 1, &checksum);
    assert!(verify_snapshot(&m, &files).is_ok());
    let mut tampered = files.clone();
    tampered[0].contents[0] ^= 1;
    assert!(matches!(verify_snapshot(&m, &tampered), Err(VectorDbError::Corruption { .. })));
}

#[test]
fn checksum_ignores_snapshot_json_and_is_hex() {
    let files = vec![file("vectors.bin", b"abc")];
    let mut with_meta = files.clone();
    with_meta.push(file("snapshot.json", b"{\"name\":\"x\"}"));
    let a = snapshot_checksum(&files);
    assert_eq!(a, snapshot_checksum(&with_meta));
    assert!(a.chars().all(|c| c.is_ascii_hexdigit() && !c.is_ascii_uppercase()));
    assert_ne!(a, snapshot_checksum(&vec![file("vectors.bin", b"abd")]));
}

#[test]
fn checksum_matches_default_hasher_over_contents() {
    let contents = b"vectors".to_vec();
    let mut h = DefaultHasher::new();
    contents.hash(&mut h);
    assert_eq!(snapshot_checksum(&vec![file("vectors.bin", &contents)]), format!("{:x}", h.finish()));
}

#[test]
fn restore_skips_metadata_file() {
    let files = vec![file("vectors.bin", b"v"), file("snapshot.json", b"{}"), file("wal.log", b"w")];
    assert_eq!(files_to_restore(&files), vec!["vectors.bin".to_string(), "wal.log".to_string()]);
}

#[test]
fn snapshot_names() {
    assert_eq!(snapshot_name("docs", 1_700_000_123), "docs_1700000123");
    assert_eq!(snapshot_name("x", 0), "x_0");
}

#[test]
fn list_order_and_cleanup() {
    let sorted = sort_newest_first(vec![meta("a", 10, ""), meta("b", 30, ""), meta("c", 20, ""), meta("d", 30, "")]);
    let names: Vec<&str> = sorted.iter().map(|m| m.name.as_str()).collect();
    assert_eq!(names, vec!["b", "d", "c", "a"]);
    let gone = snapshots_to_delete(sorted.clone(), 2);
    let gone_names: Vec<&str> = gone.iter().map(|m| m.name.as_str()).collect();
    assert_eq!(gone_names, vec!["c", "a"]);
    assert!(snapshots_to_delete(sorted, 4).is_empty());
}

#[test]
fn snapshot_directory_is_under_data_dir() {
    let m = vectordb::snapshot::SnapshotManager::new("/var/db");
    assert_eq!(m.snapshots_dir, "/var/db/snapshots");
}
