//! The debug table: a textual dump of every arena slot, with optional
//! per-cell marking against an earlier snapshot, and plain-text rendering.

use vstd::prelude::*;

use crate::newick::{dec_digits, spec_format_time};
use crate::tree::{FlatNode, FlatTree};

verus! {

/// An optional index as text.
pub open spec fn opt_idx_chars(o: Option<usize>) -> Seq<char> {
    match o {
        None => "None"@,
        Some(v) => dec_digits(v as nat),
    }
}

/// An optional depth as text.
pub open spec fn opt_depth_chars(o: Option<u64>) -> Seq<char> {
    match o {
        None => "None"@,
        Some(d) => spec_format_time(d),
    }
}

/// Cell `j` of the row describing slot `i`: its index, name, links, depth
/// and length, in that order.
pub open spec fn spec_cell(nodes: Seq<FlatNode>, i: int, j: int) -> Seq<char> {
    if j == 0 {
        dec_digits(i as nat)
    } else if j == 1 {
        nodes[i].name@
    } else if j == 2 {
        opt_idx_chars(nodes[i].left_child)
    } else if j == 3 {
        opt_idx_chars(nodes[i].right_child)
    } else if j == 4 {
        opt_idx_chars(nodes[i].parent)
    } else if j == 5 {
        opt_depth_chars(nodes[i].depth)
    } else {
        spec_format_time(nodes[i].length)
    }
}

/// A changed cell shows the new value with the old one in parentheses; an
/// unchanged cell is just the value.
pub open spec fn spec_diff_cell(old_val: Seq<char>, new_val: Seq<char>) -> Seq<char> {
    if old_val == new_val {
        new_val
    } else {
        new_val + " ("@ + old_val + ")"@
    }
}

/// The decimal digits of an index.
fn usize_to_string(v: usize) -> (r: String)
    ensures
        r@ == dec_digits(v as nat),
{
    crate::newick::format_index(v as u64)
}

fn opt_idx_string(o: Option<usize>) -> (r: String)
    ensures
        r@ == opt_idx_chars(o),
{
    match o {
        None => String::from_str("None"),
        Some(v) => usize_to_string(v),
    }
}

fn opt_depth_string(o: Option<u64>) -> (r: String)
    ensures
        r@ == opt_depth_chars(o),
{
    match o {
        None => String::from_str("None"),
        Some(d) => crate::newick::format_time(d),
    }
}

/// One row of seven cells per arena slot.
pub fn build_new_data(flat_tree: &FlatTree) -> (r: Vec<Vec<String>>)
    ensures
        r@.len() == flat_tree.nodes@.len(),
        forall|i: int| 0 <= i < r@.len() ==> (#[trigger] r@[i])@.len() == 7,
        forall|i: int, j: int|
            #![trigger r@[i]@[j]]
            0 <= i < r@.len() && 0 <= j < 7 ==> r@[i]@[j]@ == spec_cell(flat_tree.nodes@, i, j),
{
    let mut r: Vec<Vec<String>> = Vec::new();
    let mut i: usize = 0;
    while i < flat_tree.nodes.len()
        invariant
            i <= flat_tree.nodes@.len(),
            r@.len() == i,
            forall|q: int| 0 <= q < i ==> (#[trigger] r@[q])@.len() == 7,
            forall|q: int, j: int|
                #![trigger r@[q]@[j]]
                0 <= q < i && 0 <= j < 7 ==> r@[q]@[j]@ == spec_cell(flat_tree.nodes@, q, j),
        decreases flat_tree.nodes@.len() - i,
    {
        let node = &flat_tree.nodes[i];
        let mut row: Vec<String> = Vec::new();
        row.push(usize_to_string(i));
        row.push(crate::pipeline::clone_name(&node.name));
        row.push(opt_idx_string(node.left_child));
        row.push(opt_idx_string(node.right_child));
        row.push(opt_idx_string(node.parent));
        row.push(opt_depth_string(node.depth));
        row.push(crate::newick::format_time(node.length));
        r.push(row);
        i = i + 1;
    }
    r
}

/// Marks every changed cell against the old snapshot: a short snapshot
/// leaves the extra rows unmarked, exactly as they are.
pub fn format_diff(old_val: &String, new_val: &String) -> (r: String)
    ensures
        r@ == spec_diff_cell(old_val@, new_val@),
{
    if new_val.eq(old_val) {
        crate::pipeline::clone_name(new_val)
    } else {
        let mut out = crate::pipeline::clone_name(new_val);
        out.append(" (");
        out.append(old_val.as_str());
        out.append(")");
        out
    }
}

/// Merges the rows with an optional earlier snapshot, marking every cell
/// whose text changed.
pub fn build_diffed_rows(new_data: &Vec<Vec<String>>, old_data: Option<&Vec<Vec<String>>>) -> (r:
    Vec<Vec<String>>)
    ensures
        r@.len() == new_data@.len(),
        forall|i: int| 0 <= i < r@.len() ==> (#[trigger] r@[i])@.len() == new_data@[i]@.len(),
        forall|i: int, j: int|
            #![trigger r@[i]@[j]]
            0 <= i < r@.len() && 0 <= j < r@[i]@.len() ==> r@[i]@[j]@ == (match old_data {
                Some(od) => {
                    if i < od@.len() && j < od@[i]@.len() {
                        spec_diff_cell(od@[i]@[j]@, new_data@[i]@[j]@)
                    } else {
                        new_data@[i]@[j]@
                    }
                },
                None => new_data@[i]@[j]@,
            }),
{
    let mut r: Vec<Vec<String>> = Vec::new();
    let mut i: usize = 0;
    while i < new_data.len()
        invariant
            i <= new_data@.len(),
            r@.len() == i,
            forall|q: int| 0 <= q < i ==> (#[trigger] r@[q])@.len() == new_data@[q]@.len(),
            forall|q: int, j: int|
                #![trigger r@[q]@[j]]
                0 <= q < i && 0 <= j < r@[q]@.len() ==> r@[q]@[j]@ == (match old_data {
                    Some(od) => {
                        if q < od@.len() && j < od@[q]@.len() {
                            spec_diff_cell(od@[q]@[j]@, new_data@[q]@[j]@)
                        } else {
                            new_data@[q]@[j]@
                        }
                    },
                    None => new_data@[q]@[j]@,
                }),
        decreases new_data@.len() - i,
    {
        let new_row = &new_data[i];
        let mut row: Vec<String> = Vec::new();
        let mut j: usize = 0;
        while j < new_row.len()
            invariant
                j <= new_row@.len(),
                new_row@ == new_data@[i as int]@,
                i < new_data@.len(),
                row@.len() == j,
                forall|c: int|
                    #![trigger row@[c]]
                    0 <= c < j ==> row@[c]@ == (match old_data {
                        Some(od) => {
                            if (i as int) < od@.len() && c < od@[i as int]@.len() {
                                spec_diff_cell(od@[i as int]@[c]@, new_data@[i as int]@[c]@)
                            } else {
                                new_data@[i as int]@[c]@
                            }
                        },
                        None => new_data@[i as int]@[c]@,
                    }),
            decreases new_row@.len() - j,
        {
            let cell = match old_data {
                Some(od) => {
                    if i < od.len() {
                        let old_row = &od[i];
                        if j < old_row.len() {
                            format_diff(&old_row[j], &new_row[j])
                        } else {
                            crate::pipeline::clone_name(&new_row[j])
                        }
                    } else {
                        crate::pipeline::clone_name(&new_row[j])
                    }
                },
                None => crate::pipeline::clone_name(&new_row[j]),
            };
            row.push(cell);
            j = j + 1;
        }
        r.push(row);
        i = i + 1;
    }
    r
}

/// The widest cell of column `c` among the first `upto` rows; a missing
/// cell counts as empty.
pub open spec fn spec_col_width(rows: Seq<Vec<String>>, c: int, upto: int) -> int
    decreases upto,
{
    if upto <= 0 {
        0
    } else {
        let prev = spec_col_width(rows, c, upto - 1);
        let here = if c < rows[upto - 1]@.len() {
            rows[upto - 1]@[c]@.len() as int
        } else {
            0
        };
        if here > prev {
            here
        } else {
            prev
        }
    }
}

/// The width of each of the first row's columns: the longest cell text of
/// that column over all rows.
pub fn compute_column_widths(rows: &Vec<Vec<String>>) -> (r: Vec<usize>)
    ensures
        r@.len() == (if rows@.len() == 0 {
            0int
        } else {
            rows@[0]@.len() as int
        }),
        forall|c: int| 0 <= c < r@.len() ==> #[trigger] r@[c] == spec_col_width(
            rows@,
            c,
            rows@.len() as int,
        ),
{
    if rows.len() == 0 {
        return Vec::new();
    }
    let cols = rows[0].len();
    let mut r: Vec<usize> = Vec::new();
    let mut c: usize = 0;
    while c < cols
        invariant
            cols == rows@[0]@.len(),
            rows@.len() >= 1,
            c <= cols,
            r@.len() == c,
            forall|q: int| 0 <= q < c ==> #[trigger] r@[q] == spec_col_width(
                rows@,
                q,
                rows@.len() as int,
            ),
        decreases cols - c,
    {
        let mut w: usize = 0;
        let mut i: usize = 0;
        while i < rows.len()
            invariant
                i <= rows@.len(),
                c < rows@[0]@.len(),
                w as int == spec_col_width(rows@, c as int, i as int),
            decreases rows@.len() - i,
        {
            let row = &rows[i];
            if c < row.len() {
                let cell_chars = crate::newick::string_to_chars(row[c].as_str());
                let here = cell_chars.len();
                if here > w {
                    w = here;
                }
            }
            i = i + 1;
        }
        r.push(w);
        c = c + 1;
    }
    r
}

/// `n` spaces.
pub open spec fn spaces(n: int) -> Seq<char>
    decreases n,
{
    if n <= 0 {
        Seq::<char>::empty()
    } else {
        spaces(n - 1) + seq![' ']
    }
}

/// Pads the text with spaces on the right out to `width` characters; longer
/// text is left as it is.
pub fn pad_to_width(text: &str, width: usize) -> (r: String)
    ensures
        r@ == text@ + spaces(width - text@.len()),
{
    let chars = crate::newick::string_to_chars(text);
    let len = chars.len();
    let mut out = String::from_str(text);
    if len >= width {
        proof {
            assert(out@ =~= text@ + spaces(width - text@.len()));
        }
        return out;
    }
    let mut k: usize = len;
    while k < width
        invariant
            text@.len() <= k <= width,
            out@ == text@ + spaces(k - text@.len()),
        decreases width - k,
    {
        out.append(" ");
        proof {
            reveal_strlit(" ");
            assert(spaces(k + 1 - text@.len()) =~= spaces(k - text@.len()) + seq![' ']);
            assert(out@ =~= text@ + spaces(k + 1 - text@.len()));
        }
        k = k + 1;
    }
    out
}

/// The diff table of an arena: a header row naming the seven columns, then
/// one marked row per slot.
pub fn diffed_flat_tree_table(flat_tree: &FlatTree, old_data: Option<&Vec<Vec<String>>>) -> (r: Vec<
    Vec<String>,
>)
    ensures
        r@.len() == flat_tree.nodes@.len() + 1,
        r@[0]@.len() == 7,
        r@[0]@[0]@ == "Index"@,
        r@[0]@[1]@ == "Name"@,
        r@[0]@[2]@ == "Left Child"@,
        r@[0]@[3]@ == "Right Child"@,
        r@[0]@[4]@ == "Parent"@,
        r@[0]@[5]@ == "Depth"@,
        r@[0]@[6]@ == "Length"@,
        forall|i: int| 1 <= i < r@.len() ==> (#[trigger] r@[i])@.len() == 7,
        forall|i: int, j: int|
            #![trigger r@[i]@[j]]
            1 <= i < r@.len() && 0 <= j < 7 ==> r@[i]@[j]@ == (match old_data {
                Some(od) => {
                    if i - 1 < od@.len() && j < od@[i - 1]@.len() {
                        spec_diff_cell(od@[i - 1]@[j]@, spec_cell(flat_tree.nodes@, i - 1, j))
                    } else {
                        spec_cell(flat_tree.nodes@, i - 1, j)
                    }
                },
                None => spec_cell(flat_tree.nodes@, i - 1, j),
            }),
{
    let new_data = build_new_data(flat_tree);
    let diffed = build_diffed_rows(&new_data, old_data);
    let mut header: Vec<String> = Vec::new();
    header.push(String::from_str("Index"));
    header.push(String::from_str("Name"));
    header.push(String::from_str("Left Child"));
    header.push(String::from_str("Right Child"));
    header.push(String::from_str("Parent"));
    header.push(String::from_str("Depth"));
    header.push(String::from_str("Length"));
    let mut r: Vec<Vec<String>> = Vec::new();
    r.push(header);
    let mut i: usize = 0;
    while i < diffed.len()
        invariant
            i <= diffed@.len(),
            r@.len() == i + 1,
            r@[0]@.len() == 7,
            r@[0]@[0]@ == "Index"@,
            r@[0]@[1]@ == "Name"@,
            r@[0]@[2]@ == "Left Child"@,
            r@[0]@[3]@ == "Right Child"@,
            r@[0]@[4]@ == "Parent"@,
            r@[0]@[5]@ == "Depth"@,
            r@[0]@[6]@ == "Length"@,
            diffed@.len() == flat_tree.nodes@.len(),
            forall|q: int| 0 <= q < diffed@.len() ==> (#[trigger] diffed@[q])@.len() == 7,
            forall|q: int, j: int|
                #![trigger diffed@[q]@[j]]
                0 <= q < diffed@.len() && 0 <= j < 7 ==> diffed@[q]@[j]@ == (match old_data {
                    Some(od) => {
                        if q < od@.len() && j < od@[q]@.len() {
                            spec_diff_cell(od@[q]@[j]@, spec_cell(flat_tree.nodes@, q, j))
                        } else {
                            spec_cell(flat_tree.nodes@, q, j)
                        }
                    },
                    None => spec_cell(flat_tree.nodes@, q, j),
                }),
            forall|q: int| 1 <= q < r@.len() ==> (#[trigger] r@[q])@ == diffed@[q - 1]@,
        decreases diffed@.len() - i,
    {
        let row = &diffed[i];
        let mut copy: Vec<String> = Vec::new();
        let mut j: usize = 0;
        while j < row.len()
            invariant
                j <= row@.len(),
                row@ == diffed@[i as int]@,
                i < diffed@.len(),
                copy@.len() == j,
                forall|c: int| 0 <= c < j ==> #[trigger] copy@[c] == row@[c],
            decreases row@.len() - j,
        {
            copy.push(crate::pipeline::clone_name(&row[j]));
            j = j + 1;
        }
        proof {
            assert(copy@ =~= diffed@[i as int]@);
        }
        r.push(copy);
        i = i + 1;
    }
    r
}

/// A cell padded to its column width.
pub open spec fn spec_padded(t: Seq<char>, w: int) -> Seq<char> {
    t + spaces(w - t.len())
}

/// One table line up to the `k`-th cell: a bar, then each padded cell
/// between spaces and bars.
pub open spec fn spec_row_text(row: Seq<String>, widths: Seq<usize>, k: int) -> Seq<char>
    decreases k,
{
    if k <= 0 {
        "|"@
    } else {
        spec_row_text(row, widths, k - 1) + " "@ + spec_padded(
            row[k - 1]@,
            if k - 1 < widths.len() {
                widths[k - 1] as int
            } else {
                0
            },
        ) + " |"@
    }
}

/// The table text up to the `i`-th row, one line per row.
pub open spec fn spec_table_text(rows: Seq<Vec<String>>, widths: Seq<usize>, i: int) -> Seq<char>
    decreases i,
{
    if i <= 0 {
        Seq::<char>::empty()
    } else {
        spec_table_text(rows, widths, i - 1) + spec_row_text(
            rows[i - 1]@,
            widths,
            rows[i - 1]@.len() as int,
        ) + "\n"@
    }
}

/// Renders the rows as aligned text, one line per row, cells padded to the
/// given column widths.
pub fn render_diffed_table(rows: &Vec<Vec<String>>, widths: &Vec<usize>) -> (r: String)
    ensures
        r@ == spec_table_text(rows@, widths@, rows@.len() as int),
{
    let mut out = String::new();
    let mut i: usize = 0;
    while i < rows.len()
        invariant
            i <= rows@.len(),
            out@ == spec_table_text(rows@, widths@, i as int),
        decreases rows@.len() - i,
    {
        let row = &rows[i];
        let mut j: usize = 0;
        out.append("|");
        while j < row.len()
            invariant
                j <= row@.len(),
                row@ == rows@[i as int]@,
                i < rows@.len(),
                out@ == spec_table_text(rows@, widths@, i as int) + spec_row_text(
                    row@,
                    widths@,
                    j as int,
                ),
            decreases row@.len() - j,
        {
            let w = if j < widths.len() {
                widths[j]
            } else {
                0
            };
            let padded = pad_to_width(row[j].as_str(), w);
            out.append(" ");
            out.append(padded.as_str());
            out.append(" |");
            proof {
                assert(out@ =~= spec_table_text(rows@, widths@, i as int) + spec_row_text(
                    row@,
                    widths@,
                    j + 1,
                ));
            }
            j = j + 1;
        }
        out.append("\n");
        proof {
            assert(out@ =~= spec_table_text(rows@, widths@, i + 1));
        }
        i = i + 1;
    }
    out
}

} // verus!
