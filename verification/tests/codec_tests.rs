//! The Newick reader and writer, and the depth/length round trips.

use rustree::convert::{flat_to_node, node_to_flat};
use rustree::newick::{format_time, newick_to_tree, node_to_newick};
use rustree::traverse::compare_nodes;
use rustree::tree::Node;

fn parse_one(text: &str) -> Node {
    let chars: Vec<char> = text.chars().collect();
    let mut trees = newick_to_tree(&chars).expect("well-formed Newick");
    trees.pop().expect("one tree")
}

#[test]
fn format_time_writes_six_decimals() {
    assert_eq!(format_time(1_500_000), "1.500000");
    assert_eq!(format_time(0), "0.000000");
    assert_eq!(format_time(5_000_000), "5.000000");
    assert_eq!(format_time(123), "0.000123");
}

#[test]
fn parse_reads_plain_lengths() {
    let t = parse_one("(A:1,B:2.5)C:0.25;");
    assert_eq!(t.name, "C");
    assert_eq!(t.length, 250_000);
    let a = t.left_child.as_ref().unwrap();
    let b = t.right_child.as_ref().unwrap();
    assert_eq!(a.name, "A");
    assert_eq!(a.length, 1_000_000);
    assert_eq!(b.name, "B");
    assert_eq!(b.length, 2_500_000);
}

#[test]
fn parse_treats_odd_lengths_as_zero() {
    // a length token that is not a plain decimal number reads as zero
    let t = parse_one("(A:1e5,B:2)C:1;");
    assert_eq!(t.left_child.as_ref().unwrap().length, 0);
    // so does one whose value leaves the machine range
    let big = parse_one("A:99999999999999999999999999999999;");
    assert_eq!(big.length, 0);
}

#[test]
fn parse_rejects_malformed_text() {
    let bad: Vec<char> = "((A:1,B:2)C".chars().collect();
    assert!(newick_to_tree(&bad).is_none());
    let bad2: Vec<char> = "(A:1,B:2)C:1".chars().collect();
    assert!(newick_to_tree(&bad2).is_none());
    let good: Vec<char> = "(A:1,B:2)C:1;".chars().collect();
    assert!(newick_to_tree(&good).is_some());
}

#[test]
fn parse_of_emit_gives_the_tree_back() {
    let t = parse_one("((Alpha:1.25,Beta:2)Gamma:0.5,Delta:5)Root:0;");
    let text = node_to_newick(&t) + ";";
    let again = parse_one(&text);
    assert!(compare_nodes(&t, &again));
}

#[test]
fn emit_is_idempotent_at_six_decimals() {
    let first = node_to_newick(&parse_one("(A:1.5,B:2)C:0;")) + ";";
    let second = node_to_newick(&parse_one(&first)) + ";";
    assert_eq!(first, second);
    assert_eq!(first, "(A:1.500000,B:2.000000)C:0.000000;");
}

#[test]
fn parse_accepts_several_trees() {
    let chars: Vec<char> = "A:1;  (B:1,C:2)D:1;\n".chars().collect();
    let trees = newick_to_tree(&chars).expect("two trees");
    assert_eq!(trees.len(), 2);
    assert_eq!(trees[0].name, "A");
    assert_eq!(trees[1].name, "D");
}

#[test]
fn flat_and_recursive_forms_round_trip() {
    let t = parse_one("((A:1,B:2)C:1,D:5)R:0;");
    let flat = t.to_flat_tree();
    assert_eq!(flat.root, 0);
    let back = flat.to_node();
    assert!(compare_nodes(&t, &back));
    // the free-function pair agrees with the methods
    let mut arena = Vec::new();
    let root = node_to_flat(&t, &mut arena, None);
    assert_eq!(root, 0);
    let back2 = flat_to_node(&arena, 0).expect("rebuilt");
    assert!(compare_nodes(&t, &back2));
}

#[test]
fn depth_and_length_conversions_undo_each_other() {
    let mut t = parse_one("((A:1,B:2)C:1,D:5)R:0;");
    t.zero_root_length();
    let lengths_before: Vec<u64> = collect_lengths(&t);
    t.assign_depths(0);
    t.depths_to_lengths(0);
    assert_eq!(collect_lengths(&t), lengths_before);
    assert_eq!(t.depth, Some(0));
}

fn collect_lengths(t: &Node) -> Vec<u64> {
    let mut out = vec![t.length];
    if let Some(l) = &t.left_child {
        out.extend(collect_lengths(l));
    }
    if let Some(r) = &t.right_child {
        out.extend(collect_lengths(r));
    }
    out
}

#[test]
fn total_length_sums_every_branch() {
    let t = parse_one("((A:1,B:2)C:1,D:5)R:0.5;");
    assert_eq!(t.total_length(), 9_500_000);
    let flat = t.to_flat_tree();
    assert_eq!(flat.total_length(), 9_500_000);
}

#[test]
fn packed_arena_reflattens_to_itself() {
    let chars: Vec<char> = "((A:1,B:2)C:1,D:5)R:0;".chars().collect();
    let mut trees = newick_to_tree(&chars).expect("well-formed Newick");
    let tree = trees.pop().expect("one tree");
    // a pre-order-packed arena: the flattening of a parsed tree
    let flat = tree.to_flat_tree();
    let again = flat.to_node().to_flat_tree();
    assert_eq!(again.root, flat.root);
    assert_eq!(again.nodes.len(), flat.nodes.len());
    for (a, b) in again.nodes.iter().zip(flat.nodes.iter()) {
        assert_eq!(a.name, b.name);
        assert_eq!(a.length, b.length);
        assert_eq!(a.depth, b.depth);
        assert_eq!(a.parent, b.parent);
        assert_eq!(a.left_child, b.left_child);
        assert_eq!(a.right_child, b.right_child);
    }
}
