use icaros::monitor::{
    is_write_or_delete_op, resolve_effective_path, BlockMode, FsAction, GuardianCore,
    GuardianEvent, MonitorConfig, RawFsEvent,
};
use icaros::path::GuardPath;

fn test_config(mode: BlockMode, auto_stash: bool) -> MonitorConfig {
    let mut config = MonitorConfig::default();
    config.block_mode = mode;
    config.auto_stash = auto_stash;
    config
}

fn write_event(process: &str, path: &str) -> RawFsEvent {
    RawFsEvent {
        process_name: process.to_string(),
        pid: 42,
        operation: "write".to_string(),
        path: GuardPath::parse(path),
    }
}

fn delete_event(process: &str, path: &str) -> RawFsEvent {
    RawFsEvent {
        process_name: process.to_string(),
        pid: 42,
        operation: "unlink".to_string(),
        path: GuardPath::parse(path),
    }
}

#[test]
fn classification_covers_write_and_delete_keywords() {
    assert!(is_write_or_delete_op("pwrite"));
    assert!(is_write_or_delete_op("WrData"));
    assert!(is_write_or_delete_op("rename"));
    assert!(is_write_or_delete_op("unlink"));
    assert!(is_write_or_delete_op("rmdir"));
    assert!(!is_write_or_delete_op("open"));
    assert!(!is_write_or_delete_op("stat64"));
}

#[test]
fn vim_swap_file_resolves_to_real_target() {
    let swap = GuardPath::parse("/p/src/.main.rs.swp");
    let resolved = resolve_effective_path("vim", &swap);
    assert!(resolved.eq_path(&GuardPath::parse("/p/src/main.rs")));

    let backup = GuardPath::parse("/p/src/main.rs~");
    let resolved = resolve_effective_path("nvim", &backup);
    assert!(resolved.eq_path(&GuardPath::parse("/p/src/main.rs")));

    let plain = GuardPath::parse("/p/src/main.rs");
    let resolved = resolve_effective_path("vim", &plain);
    assert!(resolved.eq_path(&plain));

    let other = GuardPath::parse("/p/src/.main.rs.swp");
    let resolved = resolve_effective_path("emacs", &other);
    assert!(resolved.eq_path(&other));
}

#[test]
fn non_monitored_write_refreshes_backup_and_emits_nothing() {
    // The scenario: a non-monitored process writes new content to a locked
    // file; the backup baseline follows it, silently. A later violation by
    // a monitored process reverts to that updated content.
    let mut core = GuardianCore::new(test_config(BlockMode::Revert, true));
    core.update_locked_paths(vec![GuardPath::parse("/p/src")]);
    core.pre_backup_file(GuardPath::parse("/p/src/a.rs"), b"original".to_vec());

    let allowed = write_event("cargo", "/p/src/a.rs");
    let out = core.handle_fs_event(&allowed, Some(b"updated".to_vec()), 1_000);
    assert!(out.events.is_empty());
    assert!(out.actions.is_empty());

    let violation = write_event("vim", "/p/src/a.rs");
    let out = core.handle_fs_event(&violation, Some(b"attacked".to_vec()), 2_000);
    assert_eq!(out.actions.len(), 1);
    match &out.actions[0] {
        FsAction::RestoreFile { path, content } => {
            assert!(path.eq_path(&GuardPath::parse("/p/src/a.rs")));
            assert_eq!(content.as_slice(), b"updated".as_slice());
        }
    }
}

#[test]
fn non_monitored_rename_also_refreshes_the_baseline() {
    // Rename-style saves by an allowed editor are write-like and must move
    // the revert baseline, just as plain writes do.
    let mut core = GuardianCore::new(test_config(BlockMode::Revert, true));
    core.update_locked_paths(vec![GuardPath::parse("/p/src")]);
    core.pre_backup_file(GuardPath::parse("/p/src/a.rs"), b"original".to_vec());

    let renamed = RawFsEvent {
        process_name: "cargo".to_string(),
        pid: 9,
        operation: "rename".to_string(),
        path: GuardPath::parse("/p/src/a.rs"),
    };
    let out = core.handle_fs_event(&renamed, Some(b"renamed-save".to_vec()), 1_000);
    assert!(out.events.is_empty());
    assert!(out.actions.is_empty());

    let violation = write_event("vim", "/p/src/a.rs");
    let out = core.handle_fs_event(&violation, Some(b"attacked".to_vec()), 2_000);
    match &out.actions[0] {
        FsAction::RestoreFile { content, .. } => {
            assert_eq!(content.as_slice(), b"renamed-save".as_slice());
        }
    }
}

#[test]
fn stash_only_archives_under_the_effective_path() {
    // A vim swap-file write is archived under the real target file, not the
    // swap name.
    let mut core = GuardianCore::new(test_config(BlockMode::StashOnly, false));
    core.update_locked_paths(vec![GuardPath::parse("/p/src")]);

    let violation = RawFsEvent {
        process_name: "vim".to_string(),
        pid: 42,
        operation: "write".to_string(),
        path: GuardPath::parse("/p/src/.a.rs.swp"),
    };
    let out = core.handle_fs_event(&violation, Some(b"swap bytes".to_vec()), 4_000);
    assert_eq!(out.events.len(), 2);
    match &out.events[1] {
        GuardianEvent::StashedChange { stash_id, path, .. } => {
            assert!(path.eq_path(&GuardPath::parse("/p/src/a.rs")));
            let entry = core.stash_manager.get_stash(*stash_id).expect("entry");
            assert!(entry.original_path.eq_path(&GuardPath::parse("/p/src/a.rs")));
        }
        _ => panic!("expected a stashed change"),
    }
}

#[test]
fn notify_only_delete_emits_one_event_and_stashes_nothing() {
    let mut core = GuardianCore::new(test_config(BlockMode::NotifyOnly, true));
    core.update_locked_paths(vec![GuardPath::parse("/p/src")]);

    let violation = delete_event("vim", "/p/src/a.rs");
    let out = core.handle_fs_event(&violation, None, 1_000);

    assert_eq!(out.events.len(), 1);
    match &out.events[0] {
        GuardianEvent::BlockedDelete { path, process, pid, timestamp } => {
            assert!(path.eq_path(&GuardPath::parse("/p/src/a.rs")));
            assert_eq!(process, "vim");
            assert_eq!(*pid, 42);
            assert_eq!(*timestamp, 1_000);
        }
        _ => panic!("expected a blocked delete"),
    }
    assert!(out.actions.is_empty());
    assert!(core.stash_manager.list_stashes().is_empty());
}

#[test]
fn revert_with_auto_stash_restores_and_archives_difference() {
    let mut core = GuardianCore::new(test_config(BlockMode::Revert, true));
    core.update_locked_paths(vec![GuardPath::parse("/p/src")]);
    core.pre_backup_file(GuardPath::parse("/p/src/a.rs"), b"good".to_vec());

    let violation = write_event("vim", "/p/src/a.rs");
    let out = core.handle_fs_event(&violation, Some(b"bad".to_vec()), 5_000);

    assert_eq!(out.actions.len(), 1);
    match &out.actions[0] {
        FsAction::RestoreFile { path, content } => {
            assert!(path.eq_path(&GuardPath::parse("/p/src/a.rs")));
            assert_eq!(content.as_slice(), b"good".as_slice());
        }
    }
    assert_eq!(out.events.len(), 2);
    let stash_id = match &out.events[1] {
        GuardianEvent::StashedChange { stash_id, path, operation } => {
            assert!(path.eq_path(&GuardPath::parse("/p/src/a.rs")));
            assert_eq!(operation, "write");
            *stash_id
        }
        _ => panic!("expected a stashed change"),
    };
    let entry = core.stash_manager.get_stash(stash_id).expect("stash entry");
    assert_eq!(entry.file_content.as_deref(), Some(b"bad".as_slice()));

    // Writing content identical to the backup creates no stash.
    let out = core.handle_fs_event(&violation, Some(b"good".to_vec()), 6_000);
    assert_eq!(out.events.len(), 1);
    assert_eq!(out.actions.len(), 1);
    assert_eq!(core.stash_manager.list_stashes().len(), 1);
}

#[test]
fn revert_without_backup_does_nothing_to_disk() {
    let mut core = GuardianCore::new(test_config(BlockMode::Revert, true));
    core.update_locked_paths(vec![GuardPath::parse("/p/src")]);

    let violation = write_event("vim", "/p/src/new.rs");
    let out = core.handle_fs_event(&violation, Some(b"whatever".to_vec()), 1_000);
    assert_eq!(out.events.len(), 1);
    assert!(out.actions.is_empty());
    assert!(core.stash_manager.list_stashes().is_empty());
}

#[test]
fn stash_only_archives_without_restoring() {
    let mut core = GuardianCore::new(test_config(BlockMode::StashOnly, false));
    core.update_locked_paths(vec![GuardPath::parse("/p")]);

    let violation = write_event("vim", "/p/a.txt");
    let out = core.handle_fs_event(&violation, Some(b"taken".to_vec()), 9_000);
    assert!(out.actions.is_empty());
    assert_eq!(out.events.len(), 2);
    assert_eq!(core.stash_manager.list_stashes().len(), 1);
}

#[test]
fn unlocked_paths_and_other_operations_pass_silently() {
    let mut core = GuardianCore::new(test_config(BlockMode::Revert, true));
    core.update_locked_paths(vec![GuardPath::parse("/p/src")]);

    let elsewhere = write_event("vim", "/p/docs/a.md");
    let out = core.handle_fs_event(&elsewhere, Some(b"x".to_vec()), 1_000);
    assert!(out.events.is_empty());
    assert!(out.actions.is_empty());

    let readonly = RawFsEvent {
        process_name: "vim".to_string(),
        pid: 1,
        operation: "open".to_string(),
        path: GuardPath::parse("/p/src/a.rs"),
    };
    let out = core.handle_fs_event(&readonly, None, 1_000);
    assert!(out.events.is_empty());
    assert!(out.actions.is_empty());
}

#[test]
fn delete_under_revert_follows_auto_stash() {
    let mut core = GuardianCore::new(test_config(BlockMode::Revert, true));
    core.update_locked_paths(vec![GuardPath::parse("/p")]);
    let out = core.handle_fs_event(&delete_event("vim", "/p/a.txt"), None, 1_000);
    assert_eq!(out.events.len(), 2);
    let listed = core.stash_manager.list_stashes();
    assert_eq!(listed.len(), 1);
    assert!(listed[0].metadata.is_deletion);

    let mut quiet = GuardianCore::new(test_config(BlockMode::Revert, false));
    quiet.update_locked_paths(vec![GuardPath::parse("/p")]);
    let out = quiet.handle_fs_event(&delete_event("vim", "/p/a.txt"), None, 1_000);
    assert_eq!(out.events.len(), 1);
    assert!(quiet.stash_manager.list_stashes().is_empty());
}
