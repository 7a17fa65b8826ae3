//! Deepest-leaf selection on a hand-built arena.

use rustree::tree::{FlatNode, FlatTree};
use rustree::traverse::find_deepest_nodes;

#[test]
fn test_find_deepest_nodes() {
    // Build a flat tree manually; times are in fixed-point micro-units.
    let nodes = vec![
        FlatNode {
            name: "R".to_string(),
            left_child: Some(1),
            right_child: Some(2),
            parent: None,
            depth: Some(0),
            length: 0,
        },
        FlatNode {
            name: "A".to_string(),
            left_child: None,
            right_child: None,
            parent: Some(0),
            depth: Some(1_000_000),
            length: 100_000,
        },
        FlatNode {
            name: "B".to_string(),
            left_child: None,
            right_child: None,
            parent: Some(0),
            depth: Some(2_000_000),
            length: 200_000,
        },
    ];
    let tree = FlatTree { nodes, root: 0 };

    // Retrieve the deepest 1 node.
    let deepest_one = find_deepest_nodes(&tree, 1);
    assert_eq!(deepest_one.len(), 1);
    assert_eq!(tree.nodes[deepest_one[0]].name, "B");

    // Retrieve the deepest 2 nodes; expected order is descending by depth.
    let deepest_two = find_deepest_nodes(&tree, 2);
    assert_eq!(deepest_two.len(), 2);
    assert_eq!(tree.nodes[deepest_two[0]].name, "B");
    assert_eq!(tree.nodes[deepest_two[1]].name, "A");
}
