//! Exact expected plans for the directory-tree fixture model.

use netsim::FsOp;
use netsim::TreeNode;
use netsim::tree_ops;

fn path_of(segments: &[&str]) -> Vec<String> {
    segments.iter().map(|s| s.to_string()).collect()
}

#[test]
fn plan_orders_directories_before_their_contents() {
    let entries = vec![
        ("a.txt".to_string(), TreeNode::File("hello".to_string())),
        (
            "sub".to_string(),
            TreeNode::Dir(vec![
                ("empty".to_string(), TreeNode::Dir(Vec::new())),
                ("inner.txt".to_string(), TreeNode::File("x".to_string())),
            ]),
        ),
    ];
    let ops = tree_ops(&entries);
    assert_eq!(
        ops,
        vec![
            FsOp::WriteFile { path: path_of(&["a.txt"]), contents: "hello".to_string() },
            FsOp::MakeDir { path: path_of(&["sub"]) },
            FsOp::MakeDir { path: path_of(&["sub", "empty"]) },
            FsOp::WriteFile { path: path_of(&["sub", "inner.txt"]), contents: "x".to_string() },
        ]
    );
}

#[test]
fn plan_of_no_entries_is_empty() {
    let entries: Vec<(String, TreeNode)> = Vec::new();
    assert!(tree_ops(&entries).is_empty());
}

#[test]
fn plan_keeps_sibling_order() {
    let entries = vec![
        ("b".to_string(), TreeNode::File("2".to_string())),
        ("a".to_string(), TreeNode::File("1".to_string())),
    ];
    let ops = tree_ops(&entries);
    assert_eq!(
        ops,
        vec![
            FsOp::WriteFile { path: path_of(&["b"]), contents: "2".to_string() },
            FsOp::WriteFile { path: path_of(&["a"]), contents: "1".to_string() },
        ]
    );
}
