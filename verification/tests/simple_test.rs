use icaros::path::GuardPath;

#[test]
fn test_basic_functionality() {
    assert_eq!(2 + 2, 4);

    let path = GuardPath::parse("/test/file.rs");
    assert_eq!(path.file_name().unwrap().as_str(), "file.rs");
    let parent = path.parent().unwrap();
    assert!(parent.eq_path(&GuardPath::parse("/test")));
}

#[test]
fn test_file_patterns() {
    let patterns = [".git", "target", "node_modules"];
    let test_paths = vec![
        "/project/.git/config",
        "/project/target/debug",
        "/project/src/main.rs",
        "/project/node_modules/package",
    ];

    for path in test_paths {
        let should_ignore = patterns.iter().any(|p| path.contains(p));
        if path.contains("src/main.rs") {
            assert!(!should_ignore);
        } else {
            assert!(should_ignore);
        }
    }
}
