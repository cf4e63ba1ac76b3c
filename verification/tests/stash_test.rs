use icaros::path::GuardPath;
use icaros::stash::{ProcessInfo, StashError, StashManager};

fn info() -> ProcessInfo {
    ProcessInfo { name: "vim".to_string(), pid: 7 }
}

#[test]
fn create_and_get_round_trip_content() {
    let mut stash = StashManager::new();
    let path = GuardPath::parse("/p/src/a.rs");
    let content = b"denied bytes".to_vec();
    let id = stash.create_stash(&path, &content, &info(), "write", 1_000);

    let entry = stash.get_stash(id).expect("entry");
    assert_eq!(entry.file_content.as_deref(), Some(b"denied bytes".as_slice()));
    assert_eq!(entry.metadata.file_size, 12);
    assert!(!entry.metadata.is_deletion);
    assert_eq!(entry.timestamp, 1_000);
    assert!(entry.original_path.eq_path(&path));
    assert_eq!(entry.process_info.name, "vim");
    assert_eq!(entry.operation, "write");
}

#[test]
fn apply_returns_exact_bytes_and_path() {
    let mut stash = StashManager::new();
    let path = GuardPath::parse("/p/notes.txt");
    let content = vec![0u8, 159, 146, 150];
    let id = stash.create_stash(&path, &content, &info(), "truncate", 2_000);

    let (target, bytes) = stash.apply_stash(id).expect("appliable");
    assert!(target.eq_path(&path));
    assert_eq!(bytes, content);
}

#[test]
fn deletion_stash_has_no_content_and_cannot_apply() {
    let mut stash = StashManager::new();
    let path = GuardPath::parse("/p/gone.txt");
    let id = stash.create_deletion_stash(&path, &info(), 3_000);

    let entry = stash.get_stash(id).expect("entry");
    assert!(entry.metadata.is_deletion);
    assert!(entry.file_content.is_none());
    assert_eq!(entry.operation, "delete");

    match stash.apply_stash(id) {
        Err(StashError::DeletionRecord) => {}
        _ => panic!("a deletion record must not be appliable"),
    }
    match stash.apply_stash(id + 1) {
        Err(StashError::NotFound) => {}
        _ => panic!("an unknown id must not be found"),
    }
}

#[test]
fn ids_are_unique_and_time_ordered() {
    let mut stash = StashManager::new();
    let path = GuardPath::parse("/p/a");
    let a = stash.create_stash(&path, &b"1".to_vec(), &info(), "write", 500);
    let b = stash.create_stash(&path, &b"2".to_vec(), &info(), "write", 500);
    let c = stash.create_stash(&path, &b"3".to_vec(), &info(), "write", 900);
    assert!(a != b && b != c && a != c);
    assert!(a >= 500 && b >= 500 && c >= 900);
}

#[test]
fn list_is_newest_first() {
    let mut stash = StashManager::new();
    let path = GuardPath::parse("/p/a");
    stash.create_stash(&path, &b"old".to_vec(), &info(), "write", 100);
    stash.create_stash(&path, &b"new".to_vec(), &info(), "write", 900);
    stash.create_stash(&path, &b"mid".to_vec(), &info(), "write", 500);

    let listed = stash.list_stashes();
    assert_eq!(listed.len(), 3);
    assert_eq!(listed[0].timestamp, 900);
    assert_eq!(listed[1].timestamp, 500);
    assert_eq!(listed[2].timestamp, 100);
}

#[test]
fn delete_and_prune_remove_entries() {
    let mut stash = StashManager::new();
    let path = GuardPath::parse("/p/a");
    let id = stash.create_stash(&path, &b"x".to_vec(), &info(), "write", 100);
    stash.create_stash(&path, &b"y".to_vec(), &info(), "write", 5_000);

    assert!(stash.delete_stash(id));
    assert!(!stash.delete_stash(id));
    assert_eq!(stash.list_stashes().len(), 1);

    let removed = stash.clear_old_stashes(1_000, 10_000);
    assert_eq!(removed, 1);
    assert!(stash.list_stashes().is_empty());
}

#[test]
fn diff_summary_renders_the_entry() {
    let mut stash = StashManager::new();
    let path = GuardPath::parse("/p/src/a.rs");
    let id = stash.create_stash(&path, &b"abcd".to_vec(), &info(), "write", 1234);
    let text = stash.get_stash_diff(id).expect("summary");
    let expected = format!(
        "Stash: {}\nFile: p/src/a.rs\nOperation: write\nProcess: vim (PID: 7)\nTime: 1234 ms\nSize: 4 bytes",
        id
    );
    assert_eq!(text, expected);

    let del = stash.create_deletion_stash(&GuardPath::parse("/p/b.txt"), &info(), 9_999);
    assert_eq!(
        stash.get_stash_diff(del).expect("summary"),
        "Deletion attempt of: p/b.txt"
    );
    match stash.get_stash_diff(del + 1) {
        Err(StashError::NotFound) => {}
        _ => panic!("an unknown id must not have a summary"),
    }
}

#[test]
fn fingerprint_separates_contents() {
    let a = icaros::stash::fingerprint(&b"hello".to_vec());
    let b = icaros::stash::fingerprint(&b"hellp".to_vec());
    let a2 = icaros::stash::fingerprint(&b"hello".to_vec());
    assert_eq!(a, a2);
    assert_ne!(a, b);
    // The FNV-1a offset basis is the fingerprint of empty content.
    assert_eq!(icaros::stash::fingerprint(&Vec::new()), 0xcbf29ce484222325);
}
