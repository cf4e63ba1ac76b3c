use icaros::path::GuardPath;
use icaros::pattern::{
    calculate_unlocked_patterns, is_pattern_covered, make_pattern, optimize_patterns,
    optimize_patterns_with_context, pattern_to_path,
};

#[test]
fn covering_relation_cases() {
    assert!(is_pattern_covered("src/main.rs", "**"));
    assert!(is_pattern_covered("src/main.rs", "src/**"));
    assert!(is_pattern_covered("src", "src/**"));
    assert!(is_pattern_covered("src/deep/mod.rs", "src/**"));
    assert!(!is_pattern_covered("srcx/main.rs", "src/**"));
    assert!(!is_pattern_covered("docs/a.md", "src/**"));
    assert!(!is_pattern_covered("src/main.rs", "README.md"));
}

#[test]
fn optimize_drops_covered_patterns() {
    let patterns = vec![
        "src/**".to_string(),
        "src/main.rs".to_string(),
        "README.md".to_string(),
        "src/deep/**".to_string(),
    ];
    let optimized = optimize_patterns(patterns);
    assert_eq!(optimized, vec!["README.md", "src/**"]);
}

#[test]
fn optimize_keeps_override_inside_unlocked_zone() {
    let locked = vec!["**".to_string(), "docs/spec/**".to_string()];
    let unlocked = vec!["docs/**".to_string()];
    let optimized = optimize_patterns_with_context(locked, &unlocked);
    // "docs/spec/**" is covered by "**", but it re-asserts protection
    // inside the unlocked "docs/**" zone and must stay.
    assert_eq!(optimized, vec!["**", "docs/spec/**"]);
}

#[test]
fn calculate_unlocked_cases() {
    assert_eq!(calculate_unlocked_patterns(&vec![]), vec!["**"]);
    assert_eq!(
        calculate_unlocked_patterns(&vec!["**".to_string()]),
        Vec::<String>::new()
    );
    assert_eq!(
        calculate_unlocked_patterns(&vec!["/**".to_string()]),
        Vec::<String>::new()
    );
    assert_eq!(
        calculate_unlocked_patterns(&vec!["src/**".to_string()]),
        vec!["**"]
    );
}

#[test]
fn pattern_and_path_convert_both_ways() {
    let root = GuardPath::parse("/proj");

    let p = pattern_to_path(&root, "**").unwrap();
    assert!(p.eq_path(&root));

    let p = pattern_to_path(&root, "src/**").unwrap();
    assert!(p.eq_path(&GuardPath::parse("/proj/src")));

    let p = pattern_to_path(&root, "README.md").unwrap();
    assert!(p.eq_path(&GuardPath::parse("/proj/README.md")));

    assert_eq!(make_pattern(&GuardPath::root(), true), "**");
    assert_eq!(make_pattern(&GuardPath::parse("src"), true), "src/**");
    assert_eq!(make_pattern(&GuardPath::parse("a/b.rs"), false), "a/b.rs");
}
