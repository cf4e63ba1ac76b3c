use icaros::path::GuardPath;
use icaros::policy::PolicyStore;

#[test]
fn root_locked_tests_unlocked_scenario() {
    let mut store = PolicyStore::new();
    store.lock_path(GuardPath::root(), true);
    store.unlock_path(GuardPath::parse("tests"), true);

    assert!(!store.is_locked(&GuardPath::parse("tests/x.rs")));
    assert!(store.is_locked(&GuardPath::parse("src/x.rs")));
    assert!(store.is_locked(&GuardPath::root()));
    assert!(!store.is_locked(&GuardPath::parse("tests")));

    let (locked_patterns, unlocked_patterns) = store.compact();
    assert_eq!(locked_patterns, vec!["**"]);
    assert_eq!(unlocked_patterns, vec!["tests/**"]);
}

#[test]
fn unlock_override_beats_outer_lock() {
    let mut store = PolicyStore::new();
    store.lock_path(GuardPath::parse("src"), true);
    store.unlock_path(GuardPath::parse("src/generated"), true);

    assert!(store.is_locked(&GuardPath::parse("src/main.rs")));
    assert!(!store.is_locked(&GuardPath::parse("src/generated")));
    assert!(!store.is_locked(&GuardPath::parse("src/generated/out.rs")));
}

#[test]
fn deeper_relock_beats_unlock() {
    let mut store = PolicyStore::new();
    store.lock_path(GuardPath::root(), true);
    store.unlock_path(GuardPath::parse("docs"), true);
    store.lock_path(GuardPath::parse("docs/spec"), true);

    assert!(!store.is_locked(&GuardPath::parse("docs/readme.md")));
    assert!(store.is_locked(&GuardPath::parse("docs/spec")));
    assert!(store.is_locked(&GuardPath::parse("docs/spec/contract.md")));
}

#[test]
fn default_is_unlocked() {
    let store = PolicyStore::new();
    assert!(!store.is_locked(&GuardPath::parse("anything/at/all")));
    assert!(!store.is_locked(&GuardPath::root()));
}

#[test]
fn lock_then_unlock_round_trip_clears_rules() {
    let mut store = PolicyStore::new();
    store.lock_path(GuardPath::parse("src"), true);
    store.unlock_path(GuardPath::parse("src"), true);

    assert!(store.locked.is_empty());
    assert!(store.unlocked.is_empty());
    assert!(!store.is_locked(&GuardPath::parse("src")));
    assert!(!store.is_locked(&GuardPath::parse("src/lib.rs")));
}

#[test]
fn locking_directory_locks_descendants() {
    let mut store = PolicyStore::new();
    store.lock_path(GuardPath::parse("src"), true);

    assert!(store.is_locked(&GuardPath::parse("src")));
    assert!(store.is_locked(&GuardPath::parse("src/a.rs")));
    assert!(store.is_locked(&GuardPath::parse("src/deep/b.rs")));
    assert!(!store.is_locked(&GuardPath::parse("docs/a.md")));
}

#[test]
fn unlocking_directory_frees_descendants() {
    let mut store = PolicyStore::new();
    store.lock_path(GuardPath::parse("src"), true);
    store.lock_path(GuardPath::parse("src/core"), true);
    store.unlock_path(GuardPath::parse("src"), true);

    assert!(!store.is_locked(&GuardPath::parse("src")));
    assert!(!store.is_locked(&GuardPath::parse("src/a.rs")));
    assert!(!store.is_locked(&GuardPath::parse("src/core/b.rs")));
}

#[test]
fn locking_purges_descendant_rules() {
    let mut store = PolicyStore::new();
    store.lock_path(GuardPath::parse("src/core"), true);
    store.lock_path(GuardPath::parse("src"), true);

    assert_eq!(store.locked.len(), 1);
    assert!(store.locked[0].path.eq_path(&GuardPath::parse("src")));
}

#[test]
fn expand_restores_rules_from_patterns() {
    let locked = vec!["**".to_string()];
    let unlocked = vec!["tests/**".to_string()];
    let store = PolicyStore::expand(&locked, &unlocked);

    assert!(store.is_locked(&GuardPath::parse("src/x.rs")));
    assert!(!store.is_locked(&GuardPath::parse("tests/x.rs")));

    let (lp, up) = store.compact();
    assert_eq!(lp, vec!["**"]);
    assert_eq!(up, vec!["tests/**"]);
}

#[test]
fn compact_expand_round_trip_is_canonical() {
    let locked = vec![
        "src/**".to_string(),
        "README.md".to_string(),
        "src/**".to_string(),
        "src/deep/**".to_string(),
    ];
    let none: Vec<String> = vec![];
    let store = PolicyStore::expand(&locked, &none);
    let (lp, up) = store.compact();
    assert_eq!(lp, vec!["README.md", "src/**"]);
    assert_eq!(up, Vec::<String>::new());
}
