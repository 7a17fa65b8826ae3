//! The debug table: cell contents, diff marking, widths, and rendering.

use rustree::newick::newick_to_tree;
use rustree::table::{
    build_new_data, compute_column_widths, diffed_flat_tree_table, format_diff, pad_to_width,
    render_diffed_table,
};
use rustree::tree::FlatTree;

fn dated_flat(text: &str) -> FlatTree {
    let chars: Vec<char> = text.chars().collect();
    let mut trees = newick_to_tree(&chars).expect("well-formed Newick");
    let mut tree = trees.pop().expect("one tree");
    tree.zero_root_length();
    rustree::pipeline::flatten_with_depths(&tree).expect("depths fit")
}

#[test]
fn table_rows_describe_each_slot() {
    let flat = dated_flat("(A:1,B:2)C:0;");
    let rows = build_new_data(&flat);
    assert_eq!(rows.len(), 3);
    // pre-order: C at slot 0, then A, then B
    assert_eq!(rows[0], vec!["0", "C", "1", "2", "None", "0.000000", "0.000000"]);
    assert_eq!(rows[1], vec!["1", "A", "None", "None", "0", "1.000000", "1.000000"]);
    assert_eq!(rows[2], vec!["2", "B", "None", "None", "0", "2.000000", "2.000000"]);
}

#[test]
fn diff_marks_changed_cells() {
    assert_eq!(format_diff(&"x".to_string(), &"x".to_string()), "x");
    assert_eq!(format_diff(&"old".to_string(), &"new".to_string()), "new (old)");
    let flat = dated_flat("(A:1,B:2)C:0;");
    let before = build_new_data(&flat);
    let table = diffed_flat_tree_table(&flat, Some(&before));
    assert_eq!(table.len(), 4);
    assert_eq!(table[0][0], "Index");
    assert_eq!(table[0][6], "Length");
    // nothing changed, so every cell is unmarked
    assert_eq!(table[1][1], "C");
    assert_eq!(table[2][1], "A");
}

#[test]
fn widths_and_padding_align_the_table() {
    let rows = vec![
        vec!["ab".to_string(), "x".to_string()],
        vec!["c".to_string(), "long".to_string()],
    ];
    let widths = compute_column_widths(&rows);
    assert_eq!(widths, vec![2, 4]);
    assert_eq!(pad_to_width("c", 2), "c ");
    assert_eq!(pad_to_width("long", 2), "long");
    let text = render_diffed_table(&rows, &widths);
    assert_eq!(text, "| ab | x    |\n| c  | long |\n");
}
