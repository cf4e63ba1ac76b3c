use icaros::path::GuardPath;
use icaros::state::AppState;
use icaros::tree::TreeNode;

fn leaf(path: &str, name: &str, is_dir: bool, locked: bool, allow: bool, depth: usize) -> TreeNode {
    TreeNode {
        path: GuardPath::parse(path),
        name: name.to_string(),
        is_dir,
        is_locked: locked,
        allow_create_in_locked: allow,
        is_expanded: false,
        children: vec![],
        depth,
    }
}

#[test]
fn test_root_lock_pattern() {
    let root_path = GuardPath::parse("/test/root");
    let root_node = TreeNode {
        path: root_path.clone(),
        name: "root".to_string(),
        is_dir: true,
        is_locked: true,
        allow_create_in_locked: false,
        is_expanded: false,
        children: vec![],
        depth: 0,
    };

    let mut state = AppState::new(root_path.clone());
    state.update_from_tree(&root_node);

    assert_eq!(state.locked_patterns, vec!["**"]);
    assert_eq!(state.unlocked_patterns, Vec::<String>::new());
}

#[test]
fn test_subdirectory_lock_pattern() {
    let root_path = GuardPath::parse("/test/root");
    let src_node = leaf("/test/root/src", "src", true, true, false, 1);

    let root_node = TreeNode {
        path: root_path.clone(),
        name: "root".to_string(),
        is_dir: true,
        is_locked: false,
        allow_create_in_locked: false,
        is_expanded: true,
        children: vec![src_node],
        depth: 0,
    };

    let mut state = AppState::new(root_path.clone());
    state.update_from_tree(&root_node);

    assert_eq!(state.locked_patterns, vec!["src/**"]);
}

#[test]
fn test_file_lock_pattern() {
    let root_path = GuardPath::parse("/test/root");
    let readme_node = leaf("/test/root/README.md", "README.md", false, true, false, 1);

    let root_node = TreeNode {
        path: root_path.clone(),
        name: "root".to_string(),
        is_dir: true,
        is_locked: false,
        allow_create_in_locked: false,
        is_expanded: true,
        children: vec![readme_node],
        depth: 0,
    };

    let mut state = AppState::new(root_path.clone());
    state.update_from_tree(&root_node);

    assert_eq!(state.locked_patterns, vec!["README.md"]);
}

#[test]
fn test_allow_create_pattern() {
    let root_path = GuardPath::parse("/test/root");
    let src_node = leaf("/test/root/src", "src", true, true, true, 1);

    let root_node = TreeNode {
        path: root_path.clone(),
        name: "root".to_string(),
        is_dir: true,
        is_locked: false,
        allow_create_in_locked: false,
        is_expanded: true,
        children: vec![src_node],
        depth: 0,
    };

    let mut state = AppState::new(root_path.clone());
    state.update_from_tree(&root_node);

    assert_eq!(state.locked_patterns, vec!["src/**"]);
    assert_eq!(state.allow_create_patterns, vec!["src/**"]);
}

#[test]
fn test_unlocked_patterns_logic() {
    let root_path = GuardPath::parse("/test/root");

    let mut state1 = AppState::new(root_path.clone());
    state1.locked_patterns = vec![];
    state1.unlocked_patterns = icaros::state::calculate_unlocked_patterns(&state1.locked_patterns);
    assert_eq!(state1.unlocked_patterns, vec!["**"]);

    let mut state2 = AppState::new(root_path.clone());
    state2.locked_patterns = vec!["**".to_string()];
    state2.unlocked_patterns = icaros::state::calculate_unlocked_patterns(&state2.locked_patterns);
    assert_eq!(state2.unlocked_patterns, Vec::<String>::new());

    let mut state3 = AppState::new(root_path.clone());
    state3.locked_patterns = vec!["src/**".to_string(), "tests/**".to_string()];
    state3.unlocked_patterns = icaros::state::calculate_unlocked_patterns(&state3.locked_patterns);
    assert_eq!(state3.unlocked_patterns, vec!["**"]);
}

#[test]
fn test_nested_allow_create_with_root_locked() {
    let root_path = GuardPath::parse("/test/root");

    let src_node = leaf("/test/root/src", "src", true, true, true, 1);
    let tests_node = leaf("/test/root/tests", "tests", true, true, true, 1);

    let root_node = TreeNode {
        path: root_path.clone(),
        name: "root".to_string(),
        is_dir: true,
        is_locked: true,
        allow_create_in_locked: false,
        is_expanded: true,
        children: vec![src_node, tests_node],
        depth: 0,
    };

    let mut state = AppState::new(root_path.clone());
    state.update_from_tree(&root_node);

    assert_eq!(state.locked_patterns, vec!["**"]);
    assert_eq!(state.allow_create_patterns.len(), 2);
    assert!(state.allow_create_patterns.contains(&"src/**".to_string()));
    assert!(state.allow_create_patterns.contains(&"tests/**".to_string()));
}

#[test]
fn test_unlocked_subdirectory_in_locked_parent() {
    let root_path = GuardPath::parse("/test/root");

    let src_node = leaf("/test/root/src", "src", true, false, false, 1);
    let tests_node = leaf("/test/root/tests", "tests", true, true, false, 1);

    let root_node = TreeNode {
        path: root_path.clone(),
        name: "root".to_string(),
        is_dir: true,
        is_locked: true,
        allow_create_in_locked: false,
        is_expanded: true,
        children: vec![src_node, tests_node],
        depth: 0,
    };

    let mut state = AppState::new(root_path.clone());
    state.update_from_tree(&root_node);

    assert_eq!(state.locked_patterns, vec!["**"]);
    assert_eq!(state.unlocked_patterns, vec!["src/**"]);
}
