//! Leaf pruning and dated regrafts on concrete trees.

use rustree::newick::{newick_to_tree, node_to_newick};
use rustree::surgery::{SprError, remove_node, spr};
use rustree::traverse::{compare_nodes, find_deepest_nodes};
use rustree::tree::{FlatTree, Node};

fn parse_one(text: &str) -> Node {
    let chars: Vec<char> = text.chars().collect();
    let mut trees = newick_to_tree(&chars).expect("well-formed Newick");
    trees.pop().expect("one tree")
}

fn dated_flat(text: &str) -> FlatTree {
    let mut tree = parse_one(text);
    tree.zero_root_length();
    let flat = rustree::pipeline::flatten_with_depths(&tree).expect("depths fit");
    flat
}

fn index_of(flat: &FlatTree, name: &str) -> usize {
    flat.find_node_index(name).expect("name present")
}

#[test]
fn leaf_prune_splices_parent_out() {
    let mut flat = dated_flat("((A:1,B:2)C:1,D:5)R:0;");
    let b = index_of(&flat, "B");
    remove_node(&mut flat, b);
    // the sibling A hangs from R with its depth preserved
    let a = index_of(&flat, "A");
    let r = index_of(&flat, "R");
    assert_eq!(flat.nodes[a].parent, Some(r));
    // A sat at depth 2 (1 under C, which sat at 1) and keeps that depth
    assert_eq!(flat.nodes[a].depth, Some(2_000_000));
    // after recomputing lengths from the preserved depths
    let mut rec = flat.to_node();
    rec.depths_to_lengths(0);
    let nwk = node_to_newick(&rec) + ";";
    assert_eq!(nwk, "(A:2.000000,D:5.000000)R:0.000000;");
    // the same tree, compared structurally
    let mut expected = parse_one("(A:2,D:5)R:0;");
    expected.assign_depths(0);
    assert!(compare_nodes(&rec, &expected));
}

#[test]
fn deepest_leaves_of_prune_example() {
    let flat = dated_flat("((A:1,B:2)C:1,D:5)R:0;");
    let one = find_deepest_nodes(&flat, 1);
    assert_eq!(one.len(), 1);
    assert_eq!(flat.nodes[one[0]].name, "D");
    let two = find_deepest_nodes(&flat, 2);
    assert_eq!(flat.nodes[two[0]].name, "D");
    assert_eq!(flat.nodes[two[1]].name, "B");
}

#[test]
fn dated_spr_same_parent_only_moves_the_split() {
    let mut flat = dated_flat("((A:1,B:1)P:1,C:2)R:0;");
    let a = index_of(&flat, "A");
    let b = index_of(&flat, "B");
    let p = index_of(&flat, "P");
    spr(&mut flat, a, b, 1_500_000);
    // topology unchanged, only the split node's depth moved
    assert_eq!(flat.nodes[a].parent, Some(p));
    assert_eq!(flat.nodes[b].parent, Some(p));
    assert_eq!(flat.nodes[p].depth, Some(1_500_000));
    let mut rec = flat.to_node();
    rec.depths_to_lengths(0);
    let mut expected = parse_one("((A:0.5,B:0.5)P:1.5,C:2)R:0;");
    expected.assign_depths(0);
    assert!(compare_nodes(&rec, &expected));
}

#[test]
fn dated_spr_across_the_tree() {
    let mut flat = dated_flat("((A:1,(B1:2,B2:2)B:1)P:1,(C:2,D:2)Q:1)R:0;");
    let a = index_of(&flat, "A");
    let c = index_of(&flat, "C");
    let d = index_of(&flat, "D");
    let q = index_of(&flat, "Q");
    let r = index_of(&flat, "R");
    let t = 1_700_000;
    spr(&mut flat, a, c, t);
    // (a) the donor's new parent is the recipient's former parent
    assert_eq!(flat.nodes[a].parent, Some(q));
    // (b) the recipient's former sibling took the former grandparent slot
    assert!(flat.nodes[r].left_child == Some(d) || flat.nodes[r].right_child == Some(d));
    assert_eq!(flat.nodes[d].parent, Some(r));
    // (c) the split node sits at the transfer time
    assert_eq!(flat.nodes[q].depth, Some(t));
}

#[test]
fn spr_topology_refuses_each_bad_input() {
    let mut flat = dated_flat("((A:1,(B1:2,B2:2)B:1)P:1,(C:2,D:2)Q:1)R:0;");
    let n = flat.nodes.len();
    let a = index_of(&flat, "A");
    let p = index_of(&flat, "P");
    let r = index_of(&flat, "R");
    let b1 = index_of(&flat, "B1");
    assert_eq!(flat.spr_topology(n, a), Err(SprError::InvalidDonor(n)));
    assert_eq!(flat.spr_topology(a, n + 3), Err(SprError::InvalidRecipient(n + 3)));
    assert_eq!(flat.spr_topology(r, a), Err(SprError::InvalidDonor(r)));
    assert_eq!(flat.spr_topology(a, r), Err(SprError::InvalidRecipient(r)));
    assert_eq!(flat.spr_topology(a, a), Err(SprError::InvalidMove(a, a)));
    // the moving node's own parent cannot receive it
    assert_eq!(flat.spr_topology(a, p), Err(SprError::InvalidMove(a, p)));
    // a move under the moving node's own subtree would close a cycle
    let b = index_of(&flat, "B");
    assert_eq!(flat.spr_topology(b, b1), Err(SprError::InvalidMove(b, b1)));
}

#[test]
fn spr_topology_reports_a_detached_mover() {
    let mut flat = dated_flat("(A:1,B:2)C:0;");
    // a pruned, detached slot: no parent, no children
    flat.nodes.push(rustree::tree::FlatNode {
        name: "orphan".to_string(),
        left_child: None,
        right_child: None,
        parent: None,
        depth: None,
        length: 0,
    });
    let orphan = flat.nodes.len() - 1;
    let a = index_of(&flat, "A");
    assert_eq!(flat.spr_topology(orphan, a), Err(SprError::TreeError(orphan)));
}

#[test]
fn spr_topology_moves_the_subtree() {
    let mut flat = dated_flat("((A:1,(B1:2,B2:2)B:1)P:1,(C:2,D:2)Q:1)R:0;");
    let a = index_of(&flat, "A");
    let c = index_of(&flat, "C");
    let q = index_of(&flat, "Q");
    // moving C beside A reuses C's parent Q as the split node above A
    assert_eq!(flat.spr_topology(c, a), Ok(()));
    assert_eq!(flat.nodes[c].parent, Some(q));
    assert_eq!(flat.nodes[a].parent, Some(q));
}

#[test]
fn sampler_precondition_rejects_ancestor_pairs() {
    let flat = dated_flat("((A:1,(B1:2,B2:2)B:1)P:1,(C:2,D:2)Q:1)R:0;");
    let a = index_of(&flat, "A");
    let p = index_of(&flat, "P");
    let b1 = index_of(&flat, "B1");
    let b = index_of(&flat, "B");
    // a donor that is an ancestor of the recipient is refused either way
    assert!(!rustree::sampler::transfer_allowed(&flat, p, a));
    assert!(!rustree::sampler::transfer_allowed(&flat, b1, b));
    // an unrelated contemporary pair is allowed
    let c = index_of(&flat, "C");
    assert!(rustree::sampler::transfer_allowed(&flat, a, c));
}
