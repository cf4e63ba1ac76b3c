use icaros::path::GuardPath;
use icaros::tree::TreeNode;

#[test]
fn test_tree_node_locking() {
    let mut node = TreeNode::new(
        GuardPath::parse("/test/file.rs"),
        "file.rs".to_string(),
        false,
        0,
    );

    assert!(!node.is_locked);
    node.toggle_lock();
    assert!(node.is_locked);
    node.toggle_lock();
    assert!(!node.is_locked);
}

#[test]
fn test_tree_node_with_children() {
    let mut parent = TreeNode::new(GuardPath::parse("/test"), "test".to_string(), true, 0);

    let child1 = TreeNode::new(
        GuardPath::parse("/test/file1.rs"),
        "file1.rs".to_string(),
        false,
        1,
    );

    let child2 = TreeNode::new(
        GuardPath::parse("/test/file2.rs"),
        "file2.rs".to_string(),
        false,
        1,
    );

    parent.children.push(child1);
    parent.children.push(child2);

    parent.toggle_lock();

    assert!(parent.is_locked);
    assert!(parent.children[0].is_locked);
    assert!(parent.children[1].is_locked);

    let locked_files = parent.get_locked_files();
    assert_eq!(locked_files.len(), 2);
}
