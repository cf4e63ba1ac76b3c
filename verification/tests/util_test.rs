use icaros::animation::{AnimationEngine, Frame, Spell};
use icaros::git::GitFileStatus;
use icaros::hashing::stash_dir_tag;
use icaros::path::GuardPath;
use icaros::state::default_ignore_patterns;
use icaros::strutil::{dedup_strings, parse_segments, sort_strings};
use icaros::tree::should_ignore;

#[test]
fn sorting_and_dedup_are_stable_and_exact() {
    let v = vec![
        "src/**".to_string(),
        "README.md".to_string(),
        "docs/**".to_string(),
        "README.md".to_string(),
    ];
    let deduped = dedup_strings(&v);
    assert_eq!(deduped, vec!["src/**", "README.md", "docs/**"]);
    let sorted = sort_strings(&deduped);
    assert_eq!(sorted, vec!["README.md", "docs/**", "src/**"]);
}

#[test]
fn paths_parse_and_render() {
    let p = GuardPath::parse("/a//b/c/");
    assert_eq!(p.depth(), 3);
    assert_eq!(p.to_display(), "a/b/c");
    assert!(GuardPath::parse("a/b/c").eq_path(&p));
    assert!(p.starts_with(&GuardPath::parse("a/b")));
    assert!(!p.starts_with(&GuardPath::parse("a/c")));
    assert_eq!(parse_segments("x/y").len(), 2);
    let stripped = p.strip_prefix(&GuardPath::parse("a")).unwrap();
    assert!(stripped.eq_path(&GuardPath::parse("b/c")));
}

#[test]
fn project_tag_is_the_hex_digest_prefix() {
    // SHA-256 of "abc" begins with ba7816bf8f01cfea.
    assert_eq!(stash_dir_tag("abc"), "ba7816bf8f01cfea");
    assert_eq!(stash_dir_tag("").len(), 16);
    assert_ne!(stash_dir_tag("/p/one"), stash_dir_tag("/p/two"));
}

#[test]
fn ignore_rules_cover_the_default_patterns() {
    let patterns = default_ignore_patterns();
    assert_eq!(patterns.len(), 17);
    assert!(should_ignore(
        &GuardPath::parse("/p/.git/config"),
        &patterns,
        true
    ));
    assert!(should_ignore(
        &GuardPath::parse("/p/target/debug"),
        &patterns,
        true
    ));
    assert!(should_ignore(&GuardPath::parse("/p/build.log"), &patterns, true));
    assert!(!should_ignore(
        &GuardPath::parse("/p/src/main.rs"),
        &patterns,
        true
    ));
    // Hidden files are ignored unless shown.
    assert!(should_ignore(&GuardPath::parse("/p/.hidden"), &vec![], false));
    assert!(!should_ignore(&GuardPath::parse("/p/.hidden"), &vec![], true));
}

#[test]
fn git_status_markers() {
    assert_eq!(GitFileStatus::Modified.to_str(), "M");
    assert_eq!(GitFileStatus::Added.to_str(), "A");
    assert_eq!(GitFileStatus::Deleted.to_str(), "D");
    assert_eq!(GitFileStatus::Renamed.to_str(), "R");
    assert_eq!(GitFileStatus::Untracked.to_str(), "??");
}

#[test]
fn animation_runs_and_expires_by_time() {
    let mut engine = AnimationEngine::new();
    let spell = Spell {
        trigger: "file_locked".to_string(),
        duration_ms: 1_000,
        frames: vec![
            Frame {
                frame: 0,
                text: Some("locked".to_string()),
                file: None,
                image: None,
                overlay: false,
                blink_rate_ms: 200,
            },
            Frame {
                frame: 100,
                text: Some("!".to_string()),
                file: None,
                image: None,
                overlay: true,
                blink_rate_ms: 200,
            },
        ],
    };
    engine.insert_spell("file_locked".to_string(), spell);

    engine.trigger("missing", 0);
    assert!(!engine.is_active(0));

    engine.trigger("file_locked", 1_000);
    assert!(engine.is_active(1_500));
    assert!(!engine.is_active(2_500));

    let frame = engine.select_current_frame(1_200).expect("a frame is due");
    assert_eq!(frame.text.as_deref(), Some("locked"));

    // At 1.1 s the overlay is due and in its visible blink half-period.
    assert_eq!(engine.get_overlay_frame(1_100).as_deref(), Some("!"));
    // One blink period later it hides.
    assert_eq!(engine.get_overlay_frame(1_300), None);

    engine.update(2_500);
    assert!(engine.active_animation.is_none());
    engine.trigger("file_locked", 3_000);
    engine.clear();
    assert!(!engine.is_active(3_000));
}
