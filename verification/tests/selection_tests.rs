//! Grid snapping, name lookup, leaf selection modes, and the batch gene
//! sampling.

use rustree::newick::newick_to_tree;
use rustree::pipeline::{sample_all_gene_trees, species_tree_sample_to_string};
use rustree::rng::rng_from_seed;
use rustree::tree::FlatTree;

fn dated_flat(text: &str) -> FlatTree {
    let chars: Vec<char> = text.chars().collect();
    let mut trees = newick_to_tree(&chars).expect("well-formed Newick");
    let mut tree = trees.pop().expect("one tree");
    tree.zero_root_length();
    rustree::pipeline::flatten_with_depths(&tree).expect("depths fit")
}

#[test]
fn closest_index_snaps_with_ties_to_the_lower() {
    let flat = dated_flat("(A:1,B:2)C:0;");
    let grid: Vec<u64> = vec![0, 2, 6, 10];
    assert_eq!(flat.find_closest_index(&grid, 2), 1);
    assert_eq!(flat.find_closest_index(&grid, 3), 1);
    // 4 is equally far from 2 and 6: the lower index wins
    assert_eq!(flat.find_closest_index(&grid, 4), 1);
    assert_eq!(flat.find_closest_index(&grid, 5), 2);
    assert_eq!(flat.find_closest_index(&grid, 99), 3);
}

#[test]
fn find_node_index_gives_the_first_match() {
    let flat = dated_flat("((X:1,Y:1)Z:1,X:2)R:0;");
    let first_x = flat.find_node_index("X").expect("X exists");
    assert_eq!(first_x, 2);
    assert!(flat.find_node_index("missing").is_none());
}

#[test]
fn diversified_and_clustered_pick_by_length() {
    let flat = dated_flat("((A:1,B:3)C:1,D:2)R:0;");
    let a = flat.find_node_index("A").unwrap();
    let b = flat.find_node_index("B").unwrap();
    let d = flat.find_node_index("D").unwrap();
    let longest = rustree::pipeline::sample_diversified_leaves(&flat, 2);
    assert_eq!(longest, vec![b, d]);
    let shortest = rustree::pipeline::sample_clustered_leaves(&flat, 2);
    assert_eq!(shortest, vec![a, d]);
}

#[test]
fn traversal_orders_visit_left_before_right() {
    let flat = dated_flat("((A:1,B:2)C:1,D:5)R:0;");
    let names = |ix: Vec<usize>| -> Vec<String> {
        ix.iter().map(|&i| flat.nodes[i].name.clone()).collect()
    };
    let pre = names(flat.iter(rustree::tree::TraversalOrder::PreOrder));
    assert_eq!(pre.join(","), "R,C,A,B,D");
    let ino = names(flat.iter(rustree::tree::TraversalOrder::InOrder));
    assert_eq!(ino.join(","), "A,C,B,R,D");
    let post = names(flat.iter(rustree::tree::TraversalOrder::PostOrder));
    assert_eq!(post.join(","), "A,B,C,D,R");
}

#[test]
fn species_sampling_is_seeded_and_reports_names() {
    let species: Vec<char> = "((A:1,B:2)C:1,D:5)R:0;".chars().collect();
    let sampled: Vec<char> = "((A:1,B:2)C:1,D:5)R:0;".chars().collect();
    let mut rng = rng_from_seed(7);
    let out = species_tree_sample_to_string(&species, &sampled, 2, &mut rng);
    let (nwk, kept, removed) = out.expect("sampling succeeds");
    assert_eq!(kept.len(), 2);
    assert_eq!(removed.len(), 1);
    assert!(nwk.ends_with(";"));
    // the same seed draws the same leaves
    let mut rng2 = rng_from_seed(7);
    let out2 = species_tree_sample_to_string(&species, &sampled, 2, &mut rng2);
    let (nwk2, kept2, removed2) = out2.expect("sampling succeeds");
    assert_eq!(nwk, nwk2);
    assert_eq!(kept, kept2);
    assert_eq!(removed, removed2);
}

#[test]
fn batch_gene_sampling_processes_every_text() {
    let keep = vec!["A".to_string(), "D".to_string()];
    let drop_names = vec!["B".to_string()];
    let genes: Vec<Vec<char>> = vec![
        "((A:1,B:2)C:1,D:5)R:0;".chars().collect(),
        "((".chars().collect(),
    ];
    let out = sample_all_gene_trees(&keep, &drop_names, &genes);
    assert_eq!(out.len(), 2);
    let good = out[0].as_ref().expect("first tree samples");
    assert_eq!(good, "(A:2.000000,D:5.000000)R:0.000000;");
    assert!(out[1].is_none());
}
