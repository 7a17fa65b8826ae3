//! The timeline machinery, the weighted distribution, and the
//! deterministic gene pipeline.

use rustree::newick::newick_to_tree;
use rustree::pipeline::{build_transfer_sampler, flatten_with_depths, one_gene_sim_to_string};
use rustree::rng::{rng_from_seed, weighted_index_new};
use rustree::sampler::make_cdf;
use rustree::tree::FlatTree;

fn dated_flat(text: &str) -> FlatTree {
    let chars: Vec<char> = text.chars().collect();
    let mut trees = newick_to_tree(&chars).expect("well-formed Newick");
    let mut tree = trees.pop().expect("one tree");
    tree.zero_root_length();
    flatten_with_depths(&tree).expect("depths fit")
}

#[test]
fn subdivision_and_intervals_of_the_example_tree() {
    // depths of ((A:1,B:2)C:1,D:5)R:0 are 0, 1, 2, 3 and 5
    let flat = dated_flat("((A:1,B:2)C:1,D:5)R:0;");
    let sub = flat.make_subdivision();
    assert_eq!(sub, vec![0, 1_000_000, 2_000_000, 3_000_000, 5_000_000]);
    let intervals = flat.make_intervals();
    assert_eq!(intervals, vec![0, 1_000_000, 1_000_000, 1_000_000, 2_000_000]);
}

#[test]
fn contemporaneity_lists_live_edges_per_interval() {
    let flat = dated_flat("((A:1,B:2)C:1,D:5)R:0;");
    let sub = flat.make_subdivision();
    let contemporaneity = flat.find_contemporaneity(&sub);
    assert_eq!(contemporaneity.len(), 5);
    // interval 0 is always empty
    assert!(contemporaneity[0].is_empty());
    let c = flat.find_node_index("C").unwrap();
    let a = flat.find_node_index("A").unwrap();
    let b = flat.find_node_index("B").unwrap();
    let d = flat.find_node_index("D").unwrap();
    // up to time 1: the edges above C and D
    assert_eq!(contemporaneity[1], vec![c, d]);
    // from 1 to 2: A's and B's edges, and still D's
    assert_eq!(contemporaneity[2], vec![a, b, d]);
    // from 2 to 3: only B and D
    assert_eq!(contemporaneity[3], vec![b, d]);
    // from 3 to 5: only D
    assert_eq!(contemporaneity[4], vec![d]);
}

#[test]
fn cdf_starts_at_zero_and_accumulates() {
    let intervals: Vec<u64> = vec![0, 2, 3];
    let intensity: Vec<u128> = vec![7, 4, 5];
    let cdf = make_cdf(&intervals, &intensity).expect("fits");
    assert_eq!(cdf, vec![0, 8, 23]);
    // never decreasing, zero first, the last entry is the total weight
    for j in 1..cdf.len() {
        assert!(cdf[j - 1] <= cdf[j]);
    }
    assert_eq!(cdf[0], 0);
    assert_eq!(cdf[cdf.len() - 1], 23);
}

#[test]
fn weighted_index_needs_a_positive_total() {
    assert!(weighted_index_new(&vec![]).is_none());
    assert!(weighted_index_new(&vec![0, 0, 0]).is_none());
    assert!(weighted_index_new(&vec![0, 3, 0]).is_some());
}

#[test]
fn weight_building_refuses_an_overflowing_total() {
    // two members whose rates together leave the machine range
    let members = vec![0usize, 1usize];
    let rates = vec![u64::MAX, u64::MAX];
    assert!(rustree::sampler::build_weighted_index(&members, &rates).is_none());
    let fine = vec![5u64, 7u64];
    assert!(rustree::sampler::build_weighted_index(&members, &fine).is_some());
}

#[test]
fn sampler_build_refuses_a_zero_total_weight() {
    let flat = dated_flat("((A:1,B:2)C:1,D:5)R:0;");
    let silent = vec![0u64; flat.nodes.len()];
    assert!(build_transfer_sampler(&flat, &silent).is_none());
    let audible = vec![1_000_000u64; flat.nodes.len()];
    assert!(build_transfer_sampler(&flat, &audible).is_some());
}

fn ten_leaf_tree() -> &'static str {
    "((((T1:1,T2:1)I1:1,(T3:1,T4:1)I2:1)I3:1,((T5:1,T6:1)I4:1,(T7:1,T8:1)I5:1)I6:1)I7:1,(T9:2,T10:2)I8:2)R:0;"
}

#[test]
fn gene_pipeline_is_deterministic_for_a_fixed_seed() {
    let run = |seed: u64| {
        let flat = dated_flat(ten_leaf_tree());
        let rates = vec![1_000_000u64; flat.nodes.len()];
        let sampler = build_transfer_sampler(&flat, &rates).expect("sampler parts");
        let mut rng = rng_from_seed(seed);
        let mut work = flat.clone();
        one_gene_sim_to_string(&mut work, 5, &sampler, &mut rng)
    };
    let first = run(42);
    let second = run(42);
    assert_eq!(first, second);
    let (csv_a, nwk_a) = first.expect("gene simulation");
    assert!(csv_a.starts_with("Donor,Recipient,Depth\n"));
    assert!(nwk_a.ends_with(";"));
    // the table holds one header line and at most five transfers
    let lines: Vec<&str> = csv_a.trim_end().split('\n').collect();
    assert!(lines.len() >= 1 && lines.len() <= 6);
}

#[test]
fn extract_extant_keeps_the_deepest_leaves() {
    let chars: Vec<char> = "((A:1,B:2)C:1,D:5)R:0;".chars().collect();
    let (nwk, kept, removed) =
        rustree::pipeline::extract_extant_tree(&chars, 2).expect("extraction");
    assert_eq!(kept, vec!["D".to_string(), "B".to_string()]);
    assert_eq!(removed, vec!["A".to_string()]);
    assert_eq!(nwk, "(B:3.000000,D:5.000000)R:0.000000;".to_string());
}
